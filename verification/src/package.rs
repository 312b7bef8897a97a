//! Packages, package requirements and the matching predicate.
//!
//! A [`Package`] is a concrete installable unit, identified by the triple
//! `(arch, name, version)`: two values with equal triples stand for the
//! same artifact even when incidental fields such as the description or
//! the archive hash drift apart. Every set the resolver builds is keyed
//! on that identity, never on full structural equality.
//!
//! A [`PackageRequirement`] is the constraint a dependency or conflict
//! places on candidate packages: exact architecture and name, and a
//! version range. Its own `dependencies` and `conflicts` fields are inert
//! metadata carried through unchanged; they take no part in matching.

use vstd::prelude::*;

use crate::repository::Repository;
use crate::repository::repo_packages_of;
use crate::version::Version;
use crate::version::VersionReq;
use crate::version::version_req_matches;
use crate::version::version_req_view;
use crate::version::spec_version_req_matches;

verus! {

/// A package in a repository.
#[derive(Debug)]
pub struct Package {
    /// The CPU architecture intended for use with the packaged binaries.
    pub arch: String,
    /// The name of the package.
    pub name: String,
    /// The description of the package.
    pub description: String,
    /// The version of the packaged software.
    pub version: Version,
    /// The requirements that must each be satisfied by some installed
    /// package whenever this package is installed.
    pub dependencies: Option<Vec<PackageRequirement>>,
    /// The requirements that must not be satisfied by any installed
    /// package whenever this package is installed.
    pub conflicts: Option<Vec<PackageRequirement>>,
    /// The files that the package owns; irrelevant to resolution.
    pub files: Vec<String>,
    /// The SHA3-256 hash of the compressed archive the software is
    /// packaged in; irrelevant to resolution.
    pub keccak: Option<String>,
}

/// A package requirement which may be fulfilled by a package.
#[derive(Debug)]
pub struct PackageRequirement {
    /// Architecture a candidate must have, compared exactly.
    pub arch: String,
    /// Name a candidate must have, compared exactly.
    pub name: String,
    /// Version range a candidate's version must satisfy.
    pub version: VersionReq,
    /// Inert nested requirements; carried through, never matched on.
    pub dependencies: Option<Vec<PackageRequirement>>,
    /// Inert nested requirements; carried through, never matched on.
    pub conflicts: Option<Vec<PackageRequirement>>,
}

/// Whether two packages name the same installable artifact: equal
/// architecture, name and version. All deduplication keys on this.
pub open spec fn same_identity(a: Package, b: Package) -> bool {
    a.arch@ == b.arch@ && a.name@ == b.name@ && a.version == b.version
}

/// Whether some entry of `s` has the identity of `p`.
pub open spec fn identity_in(s: Seq<Package>, p: Package) -> bool {
    exists|i: int| 0 <= i < s.len() && same_identity(s[i], p)
}

/// Whether no two entries of `s` share an identity.
pub open spec fn distinct_identities(s: Seq<Package>) -> bool {
    forall|i: int, j: int| 0 <= i < j < s.len() ==> !same_identity(s[i], s[j])
}

/// Whether two requirements constrain candidates identically: equal
/// architecture, name and version range. The inert nested requirement
/// fields play no role in matching and none here.
pub open spec fn req_equiv(a: PackageRequirement, b: PackageRequirement) -> bool {
    a.arch@ == b.arch@ && a.name@ == b.name@ && version_req_view(a.version) == version_req_view(
        b.version,
    )
}

/// Pointwise [`req_equiv`] on two requirement lists.
pub open spec fn reqs_equiv(a: Seq<PackageRequirement>, b: Seq<PackageRequirement>) -> bool {
    a.len() == b.len() && forall|i: int| 0 <= i < a.len() ==> req_equiv(a[i], b[i])
}

/// [`reqs_equiv`] lifted to the optional requirement lists of a package.
pub open spec fn opt_reqs_equiv(
    a: Option<Vec<PackageRequirement>>,
    b: Option<Vec<PackageRequirement>>,
) -> bool {
    match (a, b) {
        (Option::Some(x), Option::Some(y)) => reqs_equiv(x@, y@),
        (Option::None, Option::None) => true,
        _ => false,
    }
}

/// Pointwise view equality of two string lists.
pub open spec fn strings_equiv(a: Seq<String>, b: Seq<String>) -> bool {
    a.len() == b.len() && forall|i: int| 0 <= i < a.len() ==> a[i]@ == b[i]@
}

/// View equality of two optional strings.
pub open spec fn opt_string_equiv(a: Option<String>, b: Option<String>) -> bool {
    match (a, b) {
        (Option::Some(x), Option::Some(y)) => x@ == y@,
        (Option::None, Option::None) => true,
        _ => false,
    }
}

/// Whether two package values carry the same data, field by field (with
/// requirement lists compared by [`req_equiv`]). Cloning preserves this.
pub open spec fn pkg_equiv(a: Package, b: Package) -> bool {
    &&& a.arch@ == b.arch@
    &&& a.name@ == b.name@
    &&& a.description@ == b.description@
    &&& a.version == b.version
    &&& opt_reqs_equiv(a.dependencies, b.dependencies)
    &&& opt_reqs_equiv(a.conflicts, b.conflicts)
    &&& strings_equiv(a.files@, b.files@)
    &&& opt_string_equiv(a.keccak, b.keccak)
}

/// The dependency requirements of a package, an empty sequence when the
/// field is absent.
pub open spec fn deps_of(p: Package) -> Seq<PackageRequirement> {
    match p.dependencies {
        Option::Some(v) => v@,
        Option::None => Seq::empty(),
    }
}

/// The conflict requirements of a package, an empty sequence when the
/// field is absent.
pub open spec fn conflicts_of(p: Package) -> Seq<PackageRequirement> {
    match p.conflicts {
        Option::Some(v) => v@,
        Option::None => Seq::empty(),
    }
}

/// The matching predicate of resolution: requirement `r` is satisfied by
/// package `p` iff the architectures and names agree exactly and `p`'s
/// version lies in `r`'s range. Total and deterministic for all inputs.
pub open spec fn spec_requirement_matches(r: PackageRequirement, p: Package) -> bool {
    r.arch@ == p.arch@ && r.name@ == p.name@ && spec_version_req_matches(r.version, p.version)
}

/// Whether `p` carries the same data as some package of some repository.
pub open spec fn package_in_repositories(p: Package, repositories: Seq<Repository>) -> bool {
    exists|r: int, j: int|
        0 <= r < repositories.len() && 0 <= j < repo_packages_of(repositories[r]).len()
            && pkg_equiv(p, repo_packages_of(repositories[r])[j])
}

/// Whether `p` carries the same data as a requested package or as some
/// package of some repository: the provenance of every universe entry.
pub open spec fn from_request_or_repositories(
    p: Package,
    requested: Seq<Package>,
    repositories: Seq<Repository>,
) -> bool {
    (exists|j: int| 0 <= j < requested.len() && pkg_equiv(p, requested[j]))
        || package_in_repositories(p, repositories)
}

/// Equivalent requirements are satisfied by exactly the same packages,
/// and equivalent packages satisfy exactly the same requirements.
pub proof fn lemma_equiv_same_matching(
    r1: PackageRequirement,
    r2: PackageRequirement,
    p1: Package,
    p2: Package,
)
    requires
        req_equiv(r1, r2),
        pkg_equiv(p1, p2),
    ensures
        spec_requirement_matches(r1, p1) == spec_requirement_matches(r2, p2),
{
}

/// Equivalent packages have the same identity and pointwise equivalent
/// requirement lists.
pub proof fn lemma_pkg_equiv_parts(a: Package, b: Package)
    requires
        pkg_equiv(a, b),
    ensures
        same_identity(a, b),
        reqs_equiv(deps_of(a), deps_of(b)),
        reqs_equiv(conflicts_of(a), conflicts_of(b)),
{
}

/// Copy a list of requirements, keeping each entry's constraint data.
fn clone_requirement_vec(v: &Vec<PackageRequirement>) -> (out: Vec<PackageRequirement>)
    ensures
        reqs_equiv(out@, v@),
    decreases v@,
{
    let mut out: Vec<PackageRequirement> = Vec::new();
    let mut i: usize = 0;
    while i < v.len()
        invariant
            0 <= i <= v@.len(),
            out@.len() == i,
            forall|j: int| 0 <= j < i ==> req_equiv(out@[j], v@[j]),
        decreases v@.len() - i,
    {
        proof {
            assert(decreases_to!(v@ => v@[i as int]));
        }
        let c = clone_requirement(&v[i]);
        out.push(c);
        i = i + 1;
    }
    out
}

/// Copy an optional list of requirements.
fn clone_opt_requirements(o: &Option<Vec<PackageRequirement>>) -> (out: Option<
    Vec<PackageRequirement>,
>)
    ensures
        opt_reqs_equiv(out, *o),
    decreases *o,
{
    match o {
        Option::Some(v) => {
            proof {
                assert(decreases_to!(*o => v@));
            }
            Option::Some(clone_requirement_vec(v))
        },
        Option::None => Option::None,
    }
}

/// Copy one requirement, nested inert requirements included.
fn clone_requirement(r: &PackageRequirement) -> (out: PackageRequirement)
    ensures
        req_equiv(out, *r),
        opt_reqs_equiv(out.dependencies, r.dependencies),
        opt_reqs_equiv(out.conflicts, r.conflicts),
    decreases *r,
{
    PackageRequirement {
        arch: r.arch.clone(),
        name: r.name.clone(),
        version: r.version.clone(),
        dependencies: clone_opt_requirements(&r.dependencies),
        conflicts: clone_opt_requirements(&r.conflicts),
    }
}

/// Copy a list of strings, keeping each entry's characters.
fn clone_string_vec(v: &Vec<String>) -> (out: Vec<String>)
    ensures
        strings_equiv(out@, v@),
{
    let mut out: Vec<String> = Vec::new();
    let mut i: usize = 0;
    while i < v.len()
        invariant
            0 <= i <= v@.len(),
            out@.len() == i,
            forall|j: int| 0 <= j < i ==> out@[j]@ == v@[j]@,
        decreases v@.len() - i,
    {
        out.push(v[i].clone());
        i = i + 1;
    }
    out
}

impl Clone for PackageRequirement {
    /// Cloning keeps the constraint data of the requirement.
    fn clone(&self) -> (out: Self)
        ensures
            req_equiv(out, *self),
    {
        clone_requirement(self)
    }
}

impl Clone for Package {
    /// Cloning keeps every field of the package.
    fn clone(&self) -> (out: Self)
        ensures
            pkg_equiv(out, *self),
    {
        let keccak = match &self.keccak {
            Option::Some(s) => Option::Some(s.clone()),
            Option::None => Option::None,
        };
        Package {
            arch: self.arch.clone(),
            name: self.name.clone(),
            description: self.description.clone(),
            version: self.version,
            dependencies: clone_opt_requirements(&self.dependencies),
            conflicts: clone_opt_requirements(&self.conflicts),
            files: clone_string_vec(&self.files),
            keccak,
        }
    }
}

/// Decide whether requirement `r` is satisfied by package `p`.
pub fn requirement_matches(r: &PackageRequirement, p: &Package) -> (b: bool)
    ensures
        b == spec_requirement_matches(*r, *p),
{
    r.arch == p.arch && r.name == p.name && version_req_matches(&r.version, &p.version)
}

/// Decide whether some entry of `s` has the identity of `p`.
pub fn identity_present(s: &Vec<Package>, p: &Package) -> (b: bool)
    ensures
        b == identity_in(s@, *p),
{
    let mut i: usize = 0;
    while i < s.len()
        invariant
            0 <= i <= s@.len(),
            forall|j: int| 0 <= j < i ==> !same_identity(s@[j], *p),
        decreases s@.len() - i,
    {
        if s[i].arch == p.arch && s[i].name == p.name && s[i].version == p.version {
            proof {
                assert(same_identity(s@[i as int], *p));
            }
            return true;
        }
        i = i + 1;
    }
    false
}

/// The dependency and conflict requirements of a package, as one list:
/// every requirement along which the crawl must expand.
pub open spec fn all_requirements_of(p: Package) -> Seq<PackageRequirement> {
    deps_of(p) + conflicts_of(p)
}

/// All packages of all repositories of a snapshot, as one sequence.
pub open spec fn all_repo_packages(repositories: Seq<Repository>) -> Seq<Package>
    decreases repositories.len(),
{
    if repositories.len() == 0 {
        Seq::empty()
    } else {
        all_repo_packages(repositories.drop_last()) + repo_packages_of(repositories.last())
    }
}

/// Every package of every repository occurs in [`all_repo_packages`].
pub proof fn lemma_all_repo_packages_complete(repositories: Seq<Repository>, r: int, j: int)
    requires
        0 <= r < repositories.len(),
        0 <= j < repo_packages_of(repositories[r]).len(),
    ensures
        exists|k: int|
            0 <= k < all_repo_packages(repositories).len() && all_repo_packages(repositories)[k]
                == repo_packages_of(repositories[r])[j],
    decreases repositories.len(),
{
    if r == repositories.len() - 1 {
        let prefix = all_repo_packages(repositories.drop_last());
        let k = prefix.len() + j;
        assert(repositories.last() == repositories[r]);
        assert(all_repo_packages(repositories)[k as int] == repo_packages_of(repositories[r])[j]);
    } else {
        let sub = repositories.drop_last();
        assert(sub[r] == repositories[r]);
        lemma_all_repo_packages_complete(sub, r, j);
        let k = choose|k: int|
            0 <= k < all_repo_packages(sub).len() && all_repo_packages(sub)[k] == repo_packages_of(
                sub[r],
            )[j];
        assert(all_repo_packages(repositories)[k] == all_repo_packages(sub)[k]);
    }
}

/// Appending to a sequence keeps every identity already present in it.
pub proof fn lemma_identity_in_push(s: Seq<Package>, x: Package)
    ensures
        forall|p: Package| identity_in(s, p) ==> #[trigger] identity_in(s.push(x), p),
{
    assert forall|p: Package| identity_in(s, p) implies #[trigger] identity_in(s.push(x), p) by {
        let i = choose|i: int| 0 <= i < s.len() && same_identity(s[i], p);
        assert(s.push(x)[i] == s[i]);
    }
}

/// An identity present for one package is present for every package of
/// the same identity.
pub proof fn lemma_identity_in_same(s: Seq<Package>, a: Package, b: Package)
    requires
        identity_in(s, a),
        same_identity(a, b),
    ensures
        identity_in(s, b),
{
    let i = choose|i: int| 0 <= i < s.len() && same_identity(s[i], a);
    assert(same_identity(s[i], b));
}

/// A package drawn from the request or from the repositories has an
/// equivalent entry in the combined pool sequence.
pub proof fn lemma_pool_index(p: Package, requested: Seq<Package>, repositories: Seq<Repository>)
    requires
        from_request_or_repositories(p, requested, repositories),
    ensures
        exists|k: int|
            0 <= k < (requested + all_repo_packages(repositories)).len() && pkg_equiv(
                (requested + all_repo_packages(repositories))[k],
                p,
            ),
{
    let pool = requested + all_repo_packages(repositories);
    if exists|j: int| 0 <= j < requested.len() && pkg_equiv(p, requested[j]) {
        let j = choose|j: int| 0 <= j < requested.len() && pkg_equiv(p, requested[j]);
        assert(pool[j] == requested[j]);
        assert(pkg_equiv(pool[j], p));
    } else {
        let (r, j) = choose|r: int, j: int|
            0 <= r < repositories.len() && 0 <= j < repo_packages_of(repositories[r]).len()
                && pkg_equiv(p, repo_packages_of(repositories[r])[j]);
        lemma_all_repo_packages_complete(repositories, r, j);
        let k0 = choose|k0: int|
            0 <= k0 < all_repo_packages(repositories).len() && all_repo_packages(repositories)[k0]
                == repo_packages_of(repositories[r])[j];
        let k = requested.len() + k0;
        assert(pool[k as int] == all_repo_packages(repositories)[k0]);
        assert(pkg_equiv(pool[k as int], p));
    }
}


/// Transitivity of [`reqs_equiv`].
pub proof fn lemma_reqs_equiv_trans(
    a: Seq<PackageRequirement>,
    b: Seq<PackageRequirement>,
    c: Seq<PackageRequirement>,
)
    requires
        reqs_equiv(a, b),
        reqs_equiv(b, c),
    ensures
        reqs_equiv(a, c),
{
    assert forall|i: int| 0 <= i < a.len() implies req_equiv(a[i], c[i]) by {
        assert(req_equiv(a[i], b[i]));
        assert(req_equiv(b[i], c[i]));
    }
}

/// Transitivity of [`pkg_equiv`].
pub proof fn lemma_pkg_equiv_trans(a: Package, b: Package, c: Package)
    requires
        pkg_equiv(a, b),
        pkg_equiv(b, c),
    ensures
        pkg_equiv(a, c),
{
    match (a.dependencies, b.dependencies, c.dependencies) {
        (Option::Some(x), Option::Some(y), Option::Some(z)) => lemma_reqs_equiv_trans(x@, y@, z@),
        _ => {},
    }
    match (a.conflicts, b.conflicts, c.conflicts) {
        (Option::Some(x), Option::Some(y), Option::Some(z)) => lemma_reqs_equiv_trans(x@, y@, z@),
        _ => {},
    }
    assert forall|i: int| 0 <= i < a.files@.len() implies a.files@[i]@ == c.files@[i]@ by {
        assert(a.files@[i]@ == b.files@[i]@);
        assert(b.files@[i]@ == c.files@[i]@);
    }
}

/// A package equivalent to one drawn from the request or the
/// repositories is itself drawn from the request or the repositories.
pub proof fn lemma_from_request_equiv(
    p1: Package,
    p2: Package,
    requested: Seq<Package>,
    repositories: Seq<Repository>,
)
    requires
        pkg_equiv(p1, p2),
        from_request_or_repositories(p2, requested, repositories),
    ensures
        from_request_or_repositories(p1, requested, repositories),
{
    if exists|j: int| 0 <= j < requested.len() && pkg_equiv(p2, requested[j]) {
        let j = choose|j: int| 0 <= j < requested.len() && pkg_equiv(p2, requested[j]);
        lemma_pkg_equiv_trans(p1, p2, requested[j]);
    } else {
        let (r, j) = choose|r: int, j: int|
            0 <= r < repositories.len() && 0 <= j < repo_packages_of(repositories[r]).len()
                && pkg_equiv(p2, repo_packages_of(repositories[r])[j]);
        lemma_pkg_equiv_trans(p1, p2, repo_packages_of(repositories[r])[j]);
    }
}

/// Equivalent packages carry pointwise equivalent requirement lists.
pub proof fn lemma_all_reqs_equiv(a: Package, b: Package)
    requires
        pkg_equiv(a, b),
    ensures
        reqs_equiv(all_requirements_of(a), all_requirements_of(b)),
{
    lemma_pkg_equiv_parts(a, b);
    assert(deps_of(a).len() == deps_of(b).len());
    assert forall|i: int|
        0 <= i < all_requirements_of(a).len() implies req_equiv(
        all_requirements_of(a)[i],
        all_requirements_of(b)[i],
    ) by {
        if i < deps_of(a).len() {
            assert(all_requirements_of(a)[i] == deps_of(a)[i]);
            assert(all_requirements_of(b)[i] == deps_of(b)[i]);
        } else {
            assert(all_requirements_of(a)[i] == conflicts_of(a)[i - deps_of(a).len()]);
            assert(all_requirements_of(b)[i] == conflicts_of(b)[i - deps_of(b).len()]);
        }
    }
}

/// Whether every package of the snapshot that `req` matches is already
/// accounted for: its identity stands in `universe` or in `queue`, or it
/// is for a foreign architecture and the crawl will drop it.
pub open spec fn req_covered(
    req: PackageRequirement,
    universe: Seq<Package>,
    queue: Seq<Package>,
    repositories: Seq<Repository>,
    arch: Seq<char>,
) -> bool {
    forall|r: int, j: int|
        0 <= r < repositories.len() && 0 <= j < repo_packages_of(repositories[r]).len()
            && #[trigger] spec_requirement_matches(req, repo_packages_of(repositories[r])[j])
            ==> identity_in(universe, repo_packages_of(repositories[r])[j]) || identity_in(
            queue,
            repo_packages_of(repositories[r])[j],
        ) || repo_packages_of(repositories[r])[j].arch@ != arch
}

/// [`req_covered`] for the first `n` requirements of package `p`.
pub open spec fn reqs_covered_upto(
    p: Package,
    n: int,
    universe: Seq<Package>,
    queue: Seq<Package>,
    repositories: Seq<Repository>,
    arch: Seq<char>,
) -> bool {
    forall|q: int|
        0 <= q < n ==> req_covered(
            #[trigger] all_requirements_of(p)[q],
            universe,
            queue,
            repositories,
            arch,
        )
}

/// The crawl's central invariant, for the first `n` universe members:
/// every requirement of each is covered.
pub open spec fn universe_covered_upto(
    universe: Seq<Package>,
    n: int,
    queue: Seq<Package>,
    repositories: Seq<Repository>,
    arch: Seq<char>,
) -> bool {
    forall|i: int|
        0 <= i < n ==> reqs_covered_upto(
            #[trigger] universe[i],
            all_requirements_of(universe[i]).len() as int,
            universe,
            queue,
            repositories,
            arch,
        )
}

/// The closure property of a finished crawl: every package of the
/// snapshot for the target architecture that some universe member's
/// dependency or conflict requirement matches is in the universe.
pub open spec fn crawl_closed(
    universe: Seq<Package>,
    repositories: Seq<Repository>,
    arch: Seq<char>,
) -> bool {
    forall|i: int, q: int, r: int, j: int|
        0 <= i < universe.len() && 0 <= q < all_requirements_of(universe[i]).len() && 0 <= r
            < repositories.len() && 0 <= j < repo_packages_of(repositories[r]).len()
            && #[trigger] spec_requirement_matches(
            all_requirements_of(universe[i])[q],
            repo_packages_of(repositories[r])[j],
        ) && repo_packages_of(repositories[r])[j].arch@ == arch ==> identity_in(
            universe,
            repo_packages_of(repositories[r])[j],
        )
}

/// The identity triple of a package, the key of every set the
/// resolver builds.
pub open spec fn package_identity(p: Package) -> (Seq<char>, Seq<char>, Version) {
    (p.arch@, p.name@, p.version)
}

/// Whether the identity of every entry of `pkgs` lies in `s`.
pub open spec fn identities_in_set(
    s: Set<(Seq<char>, Seq<char>, Version)>,
    pkgs: Seq<Package>,
) -> bool {
    forall|i: int| 0 <= i < pkgs.len() ==> s.contains(package_identity(#[trigger] pkgs[i]))
}

/// Whether the identity of every target-architecture entry of `pkgs`
/// lies in `s`.
pub open spec fn arch_identities_in_set(
    s: Set<(Seq<char>, Seq<char>, Version)>,
    pkgs: Seq<Package>,
    arch: Seq<char>,
) -> bool {
    forall|i: int|
        0 <= i < pkgs.len() && (#[trigger] pkgs[i]).arch@ == arch ==> s.contains(
            package_identity(pkgs[i]),
        )
}

/// Whether `s` contains the identity of every requested package of the
/// target architecture.
pub open spec fn crawl_set_has_seeds(
    s: Set<(Seq<char>, Seq<char>, Version)>,
    requested: Seq<Package>,
    arch: Seq<char>,
) -> bool {
    forall|j: int|
        0 <= j < requested.len() && (#[trigger] requested[j]).arch@ == arch ==> s.contains(
            package_identity(requested[j]),
        )
}

/// Whether `s` contains the identity of every target-architecture
/// repository package matched by a dependency or conflict requirement
/// of `p`.
pub open spec fn crawl_set_expands_package(
    s: Set<(Seq<char>, Seq<char>, Version)>,
    p: Package,
    repositories: Seq<Repository>,
    arch: Seq<char>,
) -> bool {
    forall|q: int, r: int, j: int|
        0 <= q < all_requirements_of(p).len() && 0 <= r < repositories.len() && 0 <= j
            < repo_packages_of(repositories[r]).len() && #[trigger] spec_requirement_matches(
            all_requirements_of(p)[q],
            repo_packages_of(repositories[r])[j],
        ) && repo_packages_of(repositories[r])[j].arch@ == arch ==> s.contains(
            package_identity(repo_packages_of(repositories[r])[j]),
        )
}

/// Whether a set of identities contains the target-architecture seeds
/// and is closed under the crawl's expansion: whenever it holds the
/// identity of a target-architecture requested or repository package,
/// it also holds every target-architecture candidate of that package's
/// requirements. The crawled universe is the least such set.
pub open spec fn crawl_set_closed(
    s: Set<(Seq<char>, Seq<char>, Version)>,
    requested: Seq<Package>,
    repositories: Seq<Repository>,
    arch: Seq<char>,
) -> bool {
    &&& crawl_set_has_seeds(s, requested, arch)
    &&& forall|x: int|
        0 <= x < requested.len() && s.contains(package_identity(#[trigger] requested[x]))
            && requested[x].arch@ == arch ==> crawl_set_expands_package(
            s,
            requested[x],
            repositories,
            arch,
        )
    &&& forall|rr: int, pj: int|
        0 <= rr < repositories.len() && 0 <= pj < repo_packages_of(repositories[rr]).len()
            && s.contains(package_identity(#[trigger] repo_packages_of(repositories[rr])[pj]))
            && repo_packages_of(repositories[rr])[pj].arch@ == arch ==> crawl_set_expands_package(
            s,
            repo_packages_of(repositories[rr])[pj],
            repositories,
            arch,
        )
}

/// The crawl's leastness: every identity in the universe lies in every
/// closed set, so the universe is the least set of §4.3's closure.
pub open spec fn crawl_least(
    universe: Seq<Package>,
    requested: Seq<Package>,
    repositories: Seq<Repository>,
    arch: Seq<char>,
) -> bool {
    forall|s: Set<(Seq<char>, Seq<char>, Version)>|
        #[trigger] crawl_set_closed(s, requested, repositories, arch) ==> identities_in_set(
            s,
            universe,
        )
}

/// The crawl's running bound: every closed set covers the universe and
/// the target-architecture part of the queue.
pub open spec fn crawl_set_bounds_state(
    universe: Seq<Package>,
    queue: Seq<Package>,
    requested: Seq<Package>,
    repositories: Seq<Repository>,
    arch: Seq<char>,
) -> bool {
    forall|s: Set<(Seq<char>, Seq<char>, Version)>|
        #[trigger] crawl_set_closed(s, requested, repositories, arch) ==> identities_in_set(
            s,
            universe,
        ) && arch_identities_in_set(s, queue, arch)
}

/// The whole contract of the crawled universe in one predicate: keyed
/// by identity without duplicates, target architecture only, seeded by
/// the request, drawn from the request or the snapshot, closed under
/// dependency and conflict expansion, and least among the closed sets.
pub open spec fn crawl_universe_spec(
    u: Seq<Package>,
    requested: Seq<Package>,
    repositories: Seq<Repository>,
    arch: Seq<char>,
) -> bool {
    &&& distinct_identities(u)
    &&& forall|i: int| 0 <= i < u.len() ==> (#[trigger] u[i]).arch@ == arch
    &&& forall|j: int|
        0 <= j < requested.len() && (#[trigger] requested[j]).arch@ == arch ==> identity_in(
            u,
            requested[j],
        )
    &&& forall|i: int|
        0 <= i < u.len() ==> from_request_or_repositories(#[trigger] u[i], requested, repositories)
    &&& crawl_closed(u, repositories, arch)
    &&& crawl_least(u, requested, repositories, arch)
}

/// Seeding the queue with a copy of a requested package keeps the
/// closed-set bound.
proof fn lemma_bounds_seed_push(
    universe: Seq<Package>,
    queue: Seq<Package>,
    x: Package,
    requested: Seq<Package>,
    j: int,
    repositories: Seq<Repository>,
    arch: Seq<char>,
)
    requires
        crawl_set_bounds_state(universe, queue, requested, repositories, arch),
        0 <= j < requested.len(),
        pkg_equiv(x, requested[j]),
    ensures
        crawl_set_bounds_state(universe, queue.push(x), requested, repositories, arch),
{
    assert forall|s: Set<(Seq<char>, Seq<char>, Version)>|
        #[trigger] crawl_set_closed(s, requested, repositories, arch) implies identities_in_set(
        s,
        universe,
    ) && arch_identities_in_set(s, queue.push(x), arch) by {
        assert forall|i: int|
            0 <= i < queue.push(x).len() && (#[trigger] queue.push(x)[i]).arch@
                == arch implies s.contains(package_identity(queue.push(x)[i])) by {
            if i < queue.len() {
                assert(queue.push(x)[i] == queue[i]);
            } else {
                assert(queue.push(x)[i] == x);
                assert(requested[j].arch@ == arch);
                assert(s.contains(package_identity(requested[j])));
                assert(package_identity(x) == package_identity(requested[j]));
            }
        }
    }
}

/// Removing the last queue entry keeps the closed-set bound.
proof fn lemma_bounds_pop(
    universe: Seq<Package>,
    oldq: Seq<Package>,
    newq: Seq<Package>,
    requested: Seq<Package>,
    repositories: Seq<Repository>,
    arch: Seq<char>,
)
    requires
        crawl_set_bounds_state(universe, oldq, requested, repositories, arch),
        oldq.len() > 0,
        newq == oldq.subrange(0, oldq.len() - 1),
    ensures
        crawl_set_bounds_state(universe, newq, requested, repositories, arch),
{
    assert forall|s: Set<(Seq<char>, Seq<char>, Version)>|
        #[trigger] crawl_set_closed(s, requested, repositories, arch) implies identities_in_set(
        s,
        universe,
    ) && arch_identities_in_set(s, newq, arch) by {
        assert forall|i: int|
            0 <= i < newq.len() && (#[trigger] newq[i]).arch@ == arch implies s.contains(
            package_identity(newq[i]),
        ) by {
            assert(newq[i] == oldq[i]);
        }
    }
}

/// Inserting the visited package into the universe keeps the
/// closed-set bound: it was a target-architecture queue entry.
proof fn lemma_bounds_visit_push(
    universe: Seq<Package>,
    x: Package,
    oldq: Seq<Package>,
    current: Package,
    requested: Seq<Package>,
    repositories: Seq<Repository>,
    arch: Seq<char>,
)
    requires
        crawl_set_bounds_state(universe, oldq, requested, repositories, arch),
        oldq.len() > 0,
        current == oldq[oldq.len() - 1],
        current.arch@ == arch,
        pkg_equiv(x, current),
    ensures
        crawl_set_bounds_state(universe.push(x), oldq, requested, repositories, arch),
{
    assert forall|s: Set<(Seq<char>, Seq<char>, Version)>|
        #[trigger] crawl_set_closed(s, requested, repositories, arch) implies identities_in_set(
        s,
        universe.push(x),
    ) && arch_identities_in_set(s, oldq, arch) by {
        assert forall|i: int|
            0 <= i < universe.push(x).len() implies s.contains(
            package_identity(#[trigger] universe.push(x)[i]),
        ) by {
            if i < universe.len() {
                assert(universe.push(x)[i] == universe[i]);
            } else {
                assert(universe.push(x)[i] == x);
                assert(s.contains(package_identity(oldq[oldq.len() - 1])));
                assert(package_identity(x) == package_identity(current));
            }
        }
    }
}

/// Enqueuing a candidate of a visited package's requirement keeps the
/// closed-set bound: every closed set that holds the parent's identity
/// also holds the candidate's.
proof fn lemma_bounds_enqueue_candidate(
    universe: Seq<Package>,
    queue: Seq<Package>,
    x: Package,
    cand: Package,
    current: Package,
    lookup_req: PackageRequirement,
    q: int,
    requested: Seq<Package>,
    repositories: Seq<Repository>,
    arch: Seq<char>,
)
    requires
        crawl_set_bounds_state(universe, queue, requested, repositories, arch),
        identity_in(universe, current),
        from_request_or_repositories(current, requested, repositories),
        current.arch@ == arch,
        0 <= q < all_requirements_of(current).len(),
        req_equiv(lookup_req, all_requirements_of(current)[q]),
        spec_requirement_matches(lookup_req, cand),
        package_in_repositories(cand, repositories),
        pkg_equiv(x, cand),
    ensures
        crawl_set_bounds_state(universe, queue.push(x), requested, repositories, arch),
{
    assert forall|s: Set<(Seq<char>, Seq<char>, Version)>|
        #[trigger] crawl_set_closed(s, requested, repositories, arch) implies identities_in_set(
        s,
        universe,
    ) && arch_identities_in_set(s, queue.push(x), arch) by {
        assert forall|i: int|
            0 <= i < queue.push(x).len() && (#[trigger] queue.push(x)[i]).arch@
                == arch implies s.contains(package_identity(queue.push(x)[i])) by {
            if i < queue.len() {
                assert(queue.push(x)[i] == queue[i]);
            } else {
                assert(queue.push(x)[i] == x);
                // The parent's identity lies in the closed set.
                let w = choose|w: int|
                    0 <= w < universe.len() && same_identity(universe[w], current);
                assert(s.contains(package_identity(universe[w])));
                assert(package_identity(universe[w]) == package_identity(current));
                // The parent is a requested or repository package value.
                if exists|j: int| 0 <= j < requested.len() && pkg_equiv(current, requested[j]) {
                    let j = choose|j: int|
                        0 <= j < requested.len() && pkg_equiv(current, requested[j]);
                    assert(package_identity(requested[j]) == package_identity(current));
                    assert(requested[j].arch@ == arch);
                    assert(crawl_set_expands_package(s, requested[j], repositories, arch));
                    lemma_expand_gives_candidate(
                        s,
                        requested[j],
                        current,
                        lookup_req,
                        q,
                        cand,
                        repositories,
                        arch,
                        x,
                    );
                } else {
                    let (rr, pj) = choose|rr: int, pj: int|
                        0 <= rr < repositories.len() && 0 <= pj < repo_packages_of(
                            repositories[rr],
                        ).len() && pkg_equiv(current, repo_packages_of(repositories[rr])[pj]);
                    let parent = repo_packages_of(repositories[rr])[pj];
                    assert(package_identity(parent) == package_identity(current));
                    assert(parent.arch@ == arch);
                    assert(crawl_set_expands_package(s, parent, repositories, arch));
                    lemma_expand_gives_candidate(
                        s,
                        parent,
                        current,
                        lookup_req,
                        q,
                        cand,
                        repositories,
                        arch,
                        x,
                    );
                }
            }
        }
    }
}

/// A closed set that expands a parent package holds the identity of a
/// target-architecture candidate of the parent's requirement `q`.
proof fn lemma_expand_gives_candidate(
    s: Set<(Seq<char>, Seq<char>, Version)>,
    parent: Package,
    current: Package,
    lookup_req: PackageRequirement,
    q: int,
    cand: Package,
    repositories: Seq<Repository>,
    arch: Seq<char>,
    x: Package,
)
    requires
        crawl_set_expands_package(s, parent, repositories, arch),
        pkg_equiv(current, parent),
        0 <= q < all_requirements_of(current).len(),
        req_equiv(lookup_req, all_requirements_of(current)[q]),
        spec_requirement_matches(lookup_req, cand),
        package_in_repositories(cand, repositories),
        pkg_equiv(x, cand),
        x.arch@ == arch,
    ensures
        s.contains(package_identity(x)),
{
    lemma_all_reqs_equiv(current, parent);
    assert(req_equiv(all_requirements_of(current)[q], all_requirements_of(parent)[q]));
    assert(req_equiv(lookup_req, all_requirements_of(parent)[q]));
    let (r, jj) = choose|r: int, jj: int|
        0 <= r < repositories.len() && 0 <= jj < repo_packages_of(repositories[r]).len()
            && pkg_equiv(cand, repo_packages_of(repositories[r])[jj]);
    let src = repo_packages_of(repositories[r])[jj];
    lemma_equiv_same_matching(lookup_req, lookup_req, cand, src);
    assert(spec_requirement_matches(lookup_req, src));
    lemma_equiv_same_matching(lookup_req, all_requirements_of(parent)[q], src, src);
    assert(spec_requirement_matches(all_requirements_of(parent)[q], src));
    assert(src.arch@ == arch);
    assert(s.contains(package_identity(src)));
    assert(package_identity(x) == package_identity(src));
}

/// Growing the queue keeps a covered requirement covered.
pub proof fn lemma_req_covered_queue_push(
    req: PackageRequirement,
    universe: Seq<Package>,
    queue: Seq<Package>,
    x: Package,
    repositories: Seq<Repository>,
    arch: Seq<char>,
)
    requires
        req_covered(req, universe, queue, repositories, arch),
    ensures
        req_covered(req, universe, queue.push(x), repositories, arch),
{
    lemma_identity_in_push(queue, x);
    assert forall|r: int, j: int|
        0 <= r < repositories.len() && 0 <= j < repo_packages_of(repositories[r]).len()
            && #[trigger] spec_requirement_matches(
            req,
            repo_packages_of(repositories[r])[j],
        ) implies identity_in(universe, repo_packages_of(repositories[r])[j]) || identity_in(
        queue.push(x),
        repo_packages_of(repositories[r])[j],
    ) || repo_packages_of(repositories[r])[j].arch@ != arch by {
        let p = repo_packages_of(repositories[r])[j];
        assert(identity_in(universe, p) || identity_in(queue, p) || p.arch@ != arch);
    }
}

/// Growing the queue keeps a package's covered requirements covered.
pub proof fn lemma_reqs_covered_queue_push(
    p: Package,
    n: int,
    universe: Seq<Package>,
    queue: Seq<Package>,
    x: Package,
    repositories: Seq<Repository>,
    arch: Seq<char>,
)
    requires
        reqs_covered_upto(p, n, universe, queue, repositories, arch),
    ensures
        reqs_covered_upto(p, n, universe, queue.push(x), repositories, arch),
{
    assert forall|q: int| 0 <= q < n implies req_covered(
        #[trigger] all_requirements_of(p)[q],
        universe,
        queue.push(x),
        repositories,
        arch,
    ) by {
        lemma_req_covered_queue_push(
            all_requirements_of(p)[q],
            universe,
            queue,
            x,
            repositories,
            arch,
        );
    }
}

/// Growing the queue keeps the whole coverage invariant.
pub proof fn lemma_universe_covered_queue_push(
    universe: Seq<Package>,
    n: int,
    queue: Seq<Package>,
    x: Package,
    repositories: Seq<Repository>,
    arch: Seq<char>,
)
    requires
        universe_covered_upto(universe, n, queue, repositories, arch),
    ensures
        universe_covered_upto(universe, n, queue.push(x), repositories, arch),
{
    assert forall|i: int| 0 <= i < n implies reqs_covered_upto(
        #[trigger] universe[i],
        all_requirements_of(universe[i]).len() as int,
        universe,
        queue.push(x),
        repositories,
        arch,
    ) by {
        lemma_reqs_covered_queue_push(
            universe[i],
            all_requirements_of(universe[i]).len() as int,
            universe,
            queue,
            x,
            repositories,
            arch,
        );
    }
}

/// Growing the universe keeps a covered requirement covered.
pub proof fn lemma_req_covered_universe_push(
    req: PackageRequirement,
    universe: Seq<Package>,
    queue: Seq<Package>,
    x: Package,
    repositories: Seq<Repository>,
    arch: Seq<char>,
)
    requires
        req_covered(req, universe, queue, repositories, arch),
    ensures
        req_covered(req, universe.push(x), queue, repositories, arch),
{
    lemma_identity_in_push(universe, x);
    assert forall|r: int, j: int|
        0 <= r < repositories.len() && 0 <= j < repo_packages_of(repositories[r]).len()
            && #[trigger] spec_requirement_matches(
            req,
            repo_packages_of(repositories[r])[j],
        ) implies identity_in(universe.push(x), repo_packages_of(repositories[r])[j])
        || identity_in(queue, repo_packages_of(repositories[r])[j]) || repo_packages_of(
        repositories[r],
    )[j].arch@ != arch by {
        let p = repo_packages_of(repositories[r])[j];
        assert(identity_in(universe, p) || identity_in(queue, p) || p.arch@ != arch);
    }
}

/// Growing the universe keeps the coverage invariant for its old members.
pub proof fn lemma_universe_covered_universe_push(
    universe: Seq<Package>,
    n: int,
    queue: Seq<Package>,
    x: Package,
    repositories: Seq<Repository>,
    arch: Seq<char>,
)
    requires
        0 <= n <= universe.len(),
        universe_covered_upto(universe, n, queue, repositories, arch),
    ensures
        universe_covered_upto(universe.push(x), n, queue, repositories, arch),
{
    assert forall|i: int| 0 <= i < n implies reqs_covered_upto(
        #[trigger] universe.push(x)[i],
        all_requirements_of(universe.push(x)[i]).len() as int,
        universe.push(x),
        queue,
        repositories,
        arch,
    ) by {
        assert(universe.push(x)[i] == universe[i]);
        assert forall|q: int|
            0 <= q < all_requirements_of(universe[i]).len() as int implies req_covered(
            #[trigger] all_requirements_of(universe[i])[q],
            universe.push(x),
            queue,
            repositories,
            arch,
        ) by {
            lemma_req_covered_universe_push(
                all_requirements_of(universe[i])[q],
                universe,
                queue,
                x,
                repositories,
                arch,
            );
        }
    }
}

/// Removing the last queue entry keeps a covered requirement covered,
/// provided the removed package was foreign or already in the universe.
pub proof fn lemma_req_covered_pop(
    req: PackageRequirement,
    universe: Seq<Package>,
    oldq: Seq<Package>,
    newq: Seq<Package>,
    current: Package,
    repositories: Seq<Repository>,
    arch: Seq<char>,
)
    requires
        oldq.len() > 0,
        current == oldq[oldq.len() - 1],
        newq == oldq.subrange(0, oldq.len() - 1),
        current.arch@ != arch || identity_in(universe, current),
        req_covered(req, universe, oldq, repositories, arch),
    ensures
        req_covered(req, universe, newq, repositories, arch),
{
    assert forall|r: int, j: int|
        0 <= r < repositories.len() && 0 <= j < repo_packages_of(repositories[r]).len()
            && #[trigger] spec_requirement_matches(
            req,
            repo_packages_of(repositories[r])[j],
        ) implies identity_in(universe, repo_packages_of(repositories[r])[j]) || identity_in(
        newq,
        repo_packages_of(repositories[r])[j],
    ) || repo_packages_of(repositories[r])[j].arch@ != arch by {
        let p = repo_packages_of(repositories[r])[j];
        if !identity_in(universe, p) && p.arch@ == arch {
            assert(identity_in(oldq, p));
            let qi = choose|qi: int| 0 <= qi < oldq.len() && same_identity(oldq[qi], p);
            if qi < oldq.len() - 1 {
                assert(newq[qi] == oldq[qi]);
            } else {
                assert(same_identity(current, p));
                if current.arch@ != arch {
                    assert(p.arch@ == current.arch@);
                    assert(false);
                } else {
                    lemma_identity_in_same(universe, current, p);
                    assert(false);
                }
            }
        }
    }
}

/// Removing the last queue entry keeps the whole coverage invariant,
/// provided the removed package was foreign or already in the universe.
pub proof fn lemma_universe_covered_pop(
    universe: Seq<Package>,
    n: int,
    oldq: Seq<Package>,
    newq: Seq<Package>,
    current: Package,
    repositories: Seq<Repository>,
    arch: Seq<char>,
)
    requires
        oldq.len() > 0,
        current == oldq[oldq.len() - 1],
        newq == oldq.subrange(0, oldq.len() - 1),
        current.arch@ != arch || identity_in(universe, current),
        universe_covered_upto(universe, n, oldq, repositories, arch),
    ensures
        universe_covered_upto(universe, n, newq, repositories, arch),
{
    assert forall|i: int| 0 <= i < n implies reqs_covered_upto(
        #[trigger] universe[i],
        all_requirements_of(universe[i]).len() as int,
        universe,
        newq,
        repositories,
        arch,
    ) by {
        assert forall|q: int|
            0 <= q < all_requirements_of(universe[i]).len() as int implies req_covered(
            #[trigger] all_requirements_of(universe[i])[q],
            universe,
            newq,
            repositories,
            arch,
        ) by {
            lemma_req_covered_pop(
                all_requirements_of(universe[i])[q],
                universe,
                oldq,
                newq,
                current,
                repositories,
                arch,
            );
        }
    }
}

/// Removing the last queue entry keeps every requested package of the
/// target architecture accounted for, provided the removed package was
/// foreign or already in the universe.
pub proof fn lemma_seeds_pop(
    universe: Seq<Package>,
    oldq: Seq<Package>,
    newq: Seq<Package>,
    current: Package,
    packages: Seq<Package>,
    arch: Seq<char>,
)
    requires
        oldq.len() > 0,
        current == oldq[oldq.len() - 1],
        newq == oldq.subrange(0, oldq.len() - 1),
        current.arch@ != arch || identity_in(universe, current),
        forall|j: int|
            0 <= j < packages.len() && packages[j].arch@ == arch ==> identity_in(
                universe,
                packages[j],
            ) || identity_in(oldq, packages[j]),
    ensures
        forall|j: int|
            0 <= j < packages.len() && packages[j].arch@ == arch ==> identity_in(
                universe,
                packages[j],
            ) || identity_in(newq, packages[j]),
{
    assert forall|j: int|
        0 <= j < packages.len() && packages[j].arch@ == arch implies identity_in(
        universe,
        packages[j],
    ) || identity_in(newq, packages[j]) by {
        if !identity_in(universe, packages[j]) {
            assert(identity_in(oldq, packages[j]));
            let qi = choose|qi: int|
                0 <= qi < oldq.len() && same_identity(oldq[qi], packages[j]);
            if qi < oldq.len() - 1 {
                assert(newq[qi] == oldq[qi]);
            } else {
                assert(same_identity(current, packages[j]));
                if current.arch@ != arch {
                    assert(packages[j].arch@ == current.arch@);
                    assert(false);
                } else {
                    lemma_identity_in_same(universe, current, packages[j]);
                    assert(false);
                }
            }
        }
    }
}

/// A requirement whose candidate identities all stand in the queue is
/// covered.
pub proof fn lemma_new_req_covered(
    req: PackageRequirement,
    lookup_req: PackageRequirement,
    universe: Seq<Package>,
    queue: Seq<Package>,
    cands: Seq<Package>,
    repositories: Seq<Repository>,
    arch: Seq<char>,
)
    requires
        req_equiv(lookup_req, req),
        forall|r: int, j: int|
            0 <= r < repositories.len() && 0 <= j < repo_packages_of(repositories[r]).len()
                && spec_requirement_matches(lookup_req, repo_packages_of(repositories[r])[j])
                ==> identity_in(cands, repo_packages_of(repositories[r])[j]),
        forall|c: int| 0 <= c < cands.len() ==> identity_in(queue, cands[c]),
    ensures
        req_covered(req, universe, queue, repositories, arch),
{
    assert forall|r: int, j: int|
        0 <= r < repositories.len() && 0 <= j < repo_packages_of(repositories[r]).len()
            && #[trigger] spec_requirement_matches(
            req,
            repo_packages_of(repositories[r])[j],
        ) implies identity_in(universe, repo_packages_of(repositories[r])[j]) || identity_in(
        queue,
        repo_packages_of(repositories[r])[j],
    ) || repo_packages_of(repositories[r])[j].arch@ != arch by {
        let p = repo_packages_of(repositories[r])[j];
        lemma_equiv_same_matching(lookup_req, req, p, p);
        assert(spec_requirement_matches(lookup_req, p));
        assert(identity_in(cands, p));
        let w = choose|w: int| 0 <= w < cands.len() && same_identity(cands[w], p);
        assert(identity_in(queue, cands[w]));
        lemma_identity_in_same(queue, cands[w], p);
    }
}

/// One more member whose requirements are all covered extends the
/// coverage invariant by one.
pub proof fn lemma_universe_covered_extend(
    universe: Seq<Package>,
    n: int,
    queue: Seq<Package>,
    repositories: Seq<Repository>,
    arch: Seq<char>,
)
    requires
        0 <= n < universe.len(),
        universe_covered_upto(universe, n, queue, repositories, arch),
        reqs_covered_upto(
            universe[n],
            all_requirements_of(universe[n]).len() as int,
            universe,
            queue,
            repositories,
            arch,
        ),
    ensures
        universe_covered_upto(universe, n + 1, queue, repositories, arch),
{
    assert forall|i: int| 0 <= i < n + 1 implies reqs_covered_upto(
        #[trigger] universe[i],
        all_requirements_of(universe[i]).len() as int,
        universe,
        queue,
        repositories,
        arch,
    ) by {
        if i < n {
            assert(reqs_covered_upto(
                universe[i],
                all_requirements_of(universe[i]).len() as int,
                universe,
                queue,
                repositories,
                arch,
            ));
        }
    }
}

/// The full characterisation of a candidate lookup result: it is keyed
/// by identity without duplicates, every entry matches the requirement
/// and carries the data of some repository package, and every matching
/// repository package has its identity in the result.
pub open spec fn candidate_set_spec(
    req: PackageRequirement,
    repositories: Seq<Repository>,
    candidates: Seq<Package>,
) -> bool {
    &&& distinct_identities(candidates)
    &&& forall|i: int|
        0 <= i < candidates.len() ==> spec_requirement_matches(req, candidates[i])
            && package_in_repositories(candidates[i], repositories)
    &&& forall|r: int, j: int|
        0 <= r < repositories.len() && 0 <= j < repo_packages_of(repositories[r]).len()
            && spec_requirement_matches(req, repo_packages_of(repositories[r])[j]) ==> identity_in(
            candidates,
            repo_packages_of(repositories[r])[j],
        )
}

/// One entry of one candidate lookup result has its identity in any
/// other lookup result for the same requirement and snapshot.
pub proof fn lemma_candidate_identity_subsumed(
    req: PackageRequirement,
    repositories: Seq<Repository>,
    c1: Seq<Package>,
    c2: Seq<Package>,
    i: int,
)
    requires
        candidate_set_spec(req, repositories, c1),
        candidate_set_spec(req, repositories, c2),
        0 <= i < c1.len(),
    ensures
        identity_in(c2, c1[i]),
{
    let (r, j) = choose|r: int, j: int|
        0 <= r < repositories.len() && 0 <= j < repo_packages_of(repositories[r]).len()
            && pkg_equiv(c1[i], repo_packages_of(repositories[r])[j]);
    let p = repo_packages_of(repositories[r])[j];
    lemma_equiv_same_matching(req, req, c1[i], p);
    assert(spec_requirement_matches(req, p));
    assert(identity_in(c2, p));
    lemma_pkg_equiv_parts(c1[i], p);
    let w = choose|w: int| 0 <= w < c2.len() && same_identity(c2[w], p);
    assert(same_identity(c2[w], c1[i]));
}

/// Candidate lookup is idempotent: two lookup results for the same
/// requirement against the same repository snapshot contain exactly the
/// same package identities.
pub proof fn lemma_candidates_deterministic(
    req: PackageRequirement,
    repositories: Seq<Repository>,
    c1: Seq<Package>,
    c2: Seq<Package>,
)
    requires
        candidate_set_spec(req, repositories, c1),
        candidate_set_spec(req, repositories, c2),
    ensures
        forall|i: int| 0 <= i < c1.len() ==> identity_in(c2, #[trigger] c1[i]),
        forall|i: int| 0 <= i < c2.len() ==> identity_in(c1, #[trigger] c2[i]),
{
    assert forall|i: int| 0 <= i < c1.len() implies identity_in(c2, #[trigger] c1[i]) by {
        lemma_candidate_identity_subsumed(req, repositories, c1, c2, i);
    }
    assert forall|i: int| 0 <= i < c2.len() implies identity_in(c1, #[trigger] c2[i]) by {
        lemma_candidate_identity_subsumed(req, repositories, c2, c1, i);
    }
}

/// Find candidate packages that fulfill a package requirement.
///
/// Scans every package of every repository in the given snapshot and
/// returns the ones the requirement matches, deduplicated by identity.
/// An empty result is a normal outcome, not an error: a requirement
/// without candidates simply cannot be satisfied, which the solver later
/// reports as unsatisfiability.
pub fn get_candidate_packages(
    package_requirement: &PackageRequirement,
    repositories: &Vec<Repository>,
) -> (candidates: Vec<Package>)
    ensures
        distinct_identities(candidates@),
        forall|i: int|
            0 <= i < candidates@.len() ==> spec_requirement_matches(
                *package_requirement,
                candidates@[i],
            ) && package_in_repositories(candidates@[i], repositories@),
        forall|r: int, j: int|
            0 <= r < repositories@.len() && 0 <= j < repo_packages_of(repositories@[r]).len()
                && spec_requirement_matches(
                *package_requirement,
                repo_packages_of(repositories@[r])[j],
            ) ==> identity_in(candidates@, repo_packages_of(repositories@[r])[j]),
        candidate_set_spec(*package_requirement, repositories@, candidates@),
{
    let mut candidates: Vec<Package> = Vec::new();
    let mut r: usize = 0;
    while r < repositories.len()
        invariant
            0 <= r <= repositories@.len(),
            distinct_identities(candidates@),
            forall|i: int|
                0 <= i < candidates@.len() ==> spec_requirement_matches(
                    *package_requirement,
                    candidates@[i],
                ) && package_in_repositories(candidates@[i], repositories@),
            forall|r2: int, j2: int|
                0 <= r2 < r && 0 <= j2 < repo_packages_of(repositories@[r2]).len()
                    && spec_requirement_matches(
                    *package_requirement,
                    repo_packages_of(repositories@[r2])[j2],
                ) ==> identity_in(candidates@, repo_packages_of(repositories@[r2])[j2]),
        decreases repositories@.len() - r,
    {
        match &repositories[r].packages {
            Option::Some(packages) => {
                let mut j: usize = 0;
                while j < packages.len()
                    invariant
                        0 <= r < repositories@.len(),
                        0 <= j <= packages@.len(),
                        packages@ == repo_packages_of(repositories@[r as int]),
                        distinct_identities(candidates@),
                        forall|i: int|
                            0 <= i < candidates@.len() ==> spec_requirement_matches(
                                *package_requirement,
                                candidates@[i],
                            ) && package_in_repositories(candidates@[i], repositories@),
                        forall|r2: int, j2: int|
                            0 <= r2 < r && 0 <= j2 < repo_packages_of(repositories@[r2]).len()
                                && spec_requirement_matches(
                                *package_requirement,
                                repo_packages_of(repositories@[r2])[j2],
                            ) ==> identity_in(candidates@, repo_packages_of(repositories@[r2])[j2]),
                        forall|j2: int|
                            0 <= j2 < j && spec_requirement_matches(
                                *package_requirement,
                                packages@[j2],
                            ) ==> identity_in(candidates@, packages@[j2]),
                    decreases packages@.len() - j,
                {
                    let ghost old_candidates = candidates@;
                    let potential_candidate = &packages[j];
                    if requirement_matches(package_requirement, potential_candidate) {
                        if !identity_present(&candidates, potential_candidate) {
                            let c = potential_candidate.clone();
                            proof {
                                lemma_equiv_same_matching(
                                    *package_requirement,
                                    *package_requirement,
                                    c,
                                    packages@[j as int],
                                );
                                lemma_pkg_equiv_parts(c, packages@[j as int]);
                            }
                            candidates.push(c);
                        }
                    }
                    proof {
                        assert(forall|i: int|
                            0 <= i < old_candidates.len() ==> candidates@[i]
                                == old_candidates[i]);
                        assert forall|j2: int|
                            0 <= j2 <= j && spec_requirement_matches(
                                *package_requirement,
                                packages@[j2],
                            ) implies identity_in(candidates@, packages@[j2]) by {
                            if j2 < j {
                                let w = choose|w: int|
                                    0 <= w < old_candidates.len() && same_identity(
                                        old_candidates[w],
                                        packages@[j2],
                                    );
                                assert(same_identity(candidates@[w], packages@[j2]));
                            } else {
                                if identity_in(old_candidates, packages@[j2]) {
                                    let w = choose|w: int|
                                        0 <= w < old_candidates.len() && same_identity(
                                            old_candidates[w],
                                            packages@[j2],
                                        );
                                    assert(same_identity(candidates@[w], packages@[j2]));
                                } else {
                                    assert(same_identity(
                                        candidates@[candidates@.len() - 1],
                                        packages@[j2],
                                    ));
                                }
                            }
                        }
                    }
                    j = j + 1;
                }
            },
            Option::None => {},
        }
        r = r + 1;
    }
    candidates
}

/// Create the universe of all packages involved in a transaction.
///
/// Starting from the requested packages, the crawl repeatedly looks up
/// candidates for every dependency and conflict requirement of every
/// package it visits, working through an explicit queue with a visited
/// set keyed by identity. Cyclic dependency graphs therefore terminate:
/// a package is visited at most once and contributes its requirements
/// only then. Packages for a foreign architecture are dropped and never
/// enter the universe. A requirement without candidates simply does not
/// expand; unsatisfiability is detected later by the solver.
#[verifier::loop_isolation(false)]
#[verifier::rlimit(100)]
#[verifier::spinoff_prover]
pub fn crawl_package_tree(
    packages: &Vec<Package>,
    repositories: &Vec<Repository>,
    target_arch: &String,
) -> (universe: Vec<Package>)
    ensures
        distinct_identities(universe@),
        forall|i: int| 0 <= i < universe@.len() ==> universe@[i].arch@ == target_arch@,
        forall|j: int|
            0 <= j < packages@.len() && packages@[j].arch@ == target_arch@ ==> identity_in(
                universe@,
                packages@[j],
            ),
        forall|i: int|
            0 <= i < universe@.len() ==> from_request_or_repositories(
                universe@[i],
                packages@,
                repositories@,
            ),
        crawl_closed(universe@, repositories@, target_arch@),
        crawl_least(universe@, packages@, repositories@, target_arch@),
        crawl_universe_spec(universe@, packages@, repositories@, target_arch@),
{
    let mut universe: Vec<Package> = Vec::new();
    let mut queue: Vec<Package> = Vec::new();
    let mut s: usize = 0;
    while s < packages.len()
        invariant
            0 <= s <= packages@.len(),
            queue@.len() == s,
            forall|j: int| 0 <= j < s ==> pkg_equiv(queue@[j], packages@[j]),
            forall|j: int| 0 <= j < s ==> identity_in(queue@, packages@[j]),
            crawl_set_bounds_state(universe@, queue@, packages@, repositories@, target_arch@),
        decreases packages@.len() - s,
    {
        let ghost q0 = queue@;
        queue.push(packages[s].clone());
        proof {
            lemma_identity_in_push(q0, queue@[s as int]);
            lemma_pkg_equiv_parts(queue@[s as int], packages@[s as int]);
            assert(identity_in(queue@, packages@[s as int]));
            lemma_bounds_seed_push(
                universe@,
                q0,
                queue@[s as int],
                packages@,
                s as int,
                repositories@,
                target_arch@,
            );
        }
        s = s + 1;
    }
    let ghost pool: Seq<Package> = packages@ + all_repo_packages(repositories@);
    let ghost mut used: Set<int> = Set::empty();
    proof {
        broadcast use vstd::set::axiom_set_empty_len;

        assert(used.len() == 0);
    }
    while queue.len() > 0
        invariant
            distinct_identities(universe@),
            forall|i: int| 0 <= i < universe@.len() ==> universe@[i].arch@ == target_arch@,
            forall|i: int|
                0 <= i < universe@.len() ==> from_request_or_repositories(
                    universe@[i],
                    packages@,
                    repositories@,
                ),
            forall|qi: int|
                0 <= qi < queue@.len() ==> from_request_or_repositories(
                    queue@[qi],
                    packages@,
                    repositories@,
                ),
            forall|j: int|
                0 <= j < packages@.len() && packages@[j].arch@ == target_arch@ ==> identity_in(
                    universe@,
                    packages@[j],
                ) || identity_in(queue@, packages@[j]),
            universe_covered_upto(
                universe@,
                universe@.len() as int,
                queue@,
                repositories@,
                target_arch@,
            ),
            crawl_set_bounds_state(universe@, queue@, packages@, repositories@, target_arch@),
            used.finite(),
            forall|k: int| #[trigger] used.contains(k) ==> 0 <= k < pool.len(),
            used.len() == universe@.len(),
            forall|k: int| #[trigger] used.contains(k) ==> identity_in(universe@, pool[k]),
            universe@.len() <= pool.len(),
        decreases pool.len() - universe@.len(), queue@.len(),
    {
        let ghost oldq = queue@;
        let popped = queue.pop();
        let current = match popped {
            Option::Some(p) => p,
            Option::None => vstd::pervasive::unreached(),
        };
        // Skip packages that do not support the target architecture.
        if !(current.arch == *target_arch) {
            proof {
                lemma_universe_covered_pop(
                    universe@,
                    universe@.len() as int,
                    oldq,
                    queue@,
                    current,
                    repositories@,
                    target_arch@,
                );
                lemma_seeds_pop(universe@, oldq, queue@, current, packages@, target_arch@);
                lemma_bounds_pop(universe@, oldq, queue@, packages@, repositories@, target_arch@);
            }
            continue ;
        }
        if identity_present(&universe, &current) {
            proof {
                lemma_universe_covered_pop(
                    universe@,
                    universe@.len() as int,
                    oldq,
                    queue@,
                    current,
                    repositories@,
                    target_arch@,
                );
                lemma_seeds_pop(universe@, oldq, queue@, current, packages@, target_arch@);
                lemma_bounds_pop(universe@, oldq, queue@, packages@, repositories@, target_arch@);
            }
            continue ;
        }
        // Visit: insert the package into the universe, then enqueue the
        // candidates of each of its dependency and conflict requirements.
        let ghost u0 = universe@;
        let current_clone = current.clone();
        proof {
            lemma_pkg_equiv_parts(current_clone, current);
        }
        universe.push(current_clone);
        proof {
            let x = universe@[u0.len() as int];
            assert(universe@ == u0.push(x));
            // Account for the new member in the counting set.
            lemma_pool_index(current, packages@, repositories@);
            let k = choose|k: int| 0 <= k < pool.len() && pkg_equiv(pool[k], current);
            if used.contains(k) {
                lemma_pkg_equiv_parts(pool[k], current);
                let w = choose|w: int| 0 <= w < u0.len() && same_identity(u0[w], pool[k]);
                assert(same_identity(u0[w], current));
                assert(false);
            }
            vstd::set::axiom_set_insert_len::<int>(used, k);
            used = used.insert(k);
            lemma_identity_in_push(u0, x);
            assert(same_identity(x, current));
            assert(identity_in(universe@, current));
            lemma_pkg_equiv_parts(pool[k], current);
            assert forall|k2: int| #[trigger] used.contains(k2) implies identity_in(
                universe@,
                pool[k2],
            ) by {
                if k2 == k {
                    lemma_identity_in_same(universe@, current, pool[k]);
                } else {
                    let w = choose|w: int| 0 <= w < u0.len() && same_identity(u0[w], pool[k2]);
                    assert(universe@[w] == u0[w]);
                }
            }
            vstd::set_lib::lemma_int_range(0, pool.len() as int);
            vstd::set_lib::lemma_len_subset(
                used,
                vstd::set_lib::set_int_range(0, pool.len() as int),
            );
            // Provenance of the new member.
            lemma_from_request_equiv(x, current, packages@, repositories@);
            // Coverage and seed accounting across the pop and the push.
            lemma_universe_covered_universe_push(
                u0,
                u0.len() as int,
                oldq,
                x,
                repositories@,
                target_arch@,
            );
            lemma_universe_covered_pop(
                universe@,
                u0.len() as int,
                oldq,
                queue@,
                current,
                repositories@,
                target_arch@,
            );
            assert forall|j: int|
                0 <= j < packages@.len() && packages@[j].arch@ == target_arch@ implies identity_in(
                universe@,
                packages@[j],
            ) || identity_in(oldq, packages@[j]) by {
                if identity_in(u0, packages@[j]) {
                    let w = choose|w: int| 0 <= w < u0.len() && same_identity(u0[w], packages@[j]);
                    assert(universe@[w] == u0[w]);
                }
            }
            lemma_seeds_pop(universe@, oldq, queue@, current, packages@, target_arch@);
            lemma_bounds_visit_push(u0, x, oldq, current, packages@, repositories@, target_arch@);
            lemma_bounds_pop(universe@, oldq, queue@, packages@, repositories@, target_arch@);
        }
        // Collect this package's requirements.
        let mut reqs: Vec<PackageRequirement> = Vec::new();
        match &current.dependencies {
            Option::Some(v) => {
                let mut i: usize = 0;
                while i < v.len()
                    invariant
                        0 <= i <= v@.len(),
                        reqs@.len() == i,
                        forall|j: int| 0 <= j < i ==> req_equiv(reqs@[j], v@[j]),
                    decreases v@.len() - i,
                {
                    reqs.push(v[i].clone());
                    i = i + 1;
                }
            },
            Option::None => {},
        }
        proof {
            assert(reqs_equiv(reqs@, deps_of(current)));
        }
        let ghost ndeps = reqs@.len() as int;
        match &current.conflicts {
            Option::Some(v) => {
                let mut i: usize = 0;
                while i < v.len()
                    invariant
                        0 <= i <= v@.len(),
                        reqs@.len() == ndeps + i,
                        forall|j: int| 0 <= j < ndeps ==> req_equiv(reqs@[j], deps_of(current)[j]),
                        forall|j: int| 0 <= j < i ==> req_equiv(reqs@[ndeps + j], v@[j]),
                    decreases v@.len() - i,
                {
                    reqs.push(v[i].clone());
                    i = i + 1;
                }
            },
            Option::None => {},
        }
        proof {
            assert(reqs_equiv(reqs@, all_requirements_of(current)));
        }
        // Enqueue the candidates of each requirement.
        let mut q: usize = 0;
        while q < reqs.len()
            invariant
                0 <= q <= reqs@.len(),
                forall|qi: int|
                    0 <= qi < queue@.len() ==> from_request_or_repositories(
                        queue@[qi],
                        packages@,
                        repositories@,
                    ),
                forall|j: int|
                    0 <= j < packages@.len() && packages@[j].arch@ == target_arch@ ==> identity_in(
                        universe@,
                        packages@[j],
                    ) || identity_in(queue@, packages@[j]),
                universe_covered_upto(
                    universe@,
                    u0.len() as int,
                    queue@,
                    repositories@,
                    target_arch@,
                ),
                reqs_covered_upto(
                    universe@[u0.len() as int],
                    q as int,
                    universe@,
                    queue@,
                    repositories@,
                    target_arch@,
                ),
                crawl_set_bounds_state(universe@, queue@, packages@, repositories@, target_arch@),
            decreases reqs@.len() - q,
        {
            let cands = get_candidate_packages(&reqs[q], repositories);
            let mut c: usize = 0;
            while c < cands.len()
                invariant
                    0 <= c <= cands@.len(),
                    forall|qi: int|
                        0 <= qi < queue@.len() ==> from_request_or_repositories(
                            queue@[qi],
                            packages@,
                            repositories@,
                        ),
                    forall|j: int|
                        0 <= j < packages@.len() && packages@[j].arch@ == target_arch@
                            ==> identity_in(universe@, packages@[j]) || identity_in(
                            queue@,
                            packages@[j],
                        ),
                    universe_covered_upto(
                        universe@,
                        u0.len() as int,
                        queue@,
                        repositories@,
                        target_arch@,
                    ),
                    reqs_covered_upto(
                        universe@[u0.len() as int],
                        q as int,
                        universe@,
                        queue@,
                        repositories@,
                        target_arch@,
                    ),
                    forall|c2: int| 0 <= c2 < c ==> identity_in(queue@, cands@[c2]),
                    crawl_set_bounds_state(
                        universe@,
                        queue@,
                        packages@,
                        repositories@,
                        target_arch@,
                    ),
                decreases cands@.len() - c,
            {
                let ghost q1 = queue@;
                queue.push(cands[c].clone());
                proof {
                    let x2 = queue@[q1.len() as int];
                    assert(queue@ == q1.push(x2));
                    lemma_identity_in_push(q1, x2);
                    lemma_pkg_equiv_parts(x2, cands@[c as int]);
                    assert(same_identity(x2, cands@[c as int]));
                    assert(identity_in(queue@, cands@[c as int]));
                    lemma_from_request_equiv(x2, cands@[c as int], packages@, repositories@);
                    lemma_pkg_equiv_parts(universe@[u0.len() as int], current);
                    assert(identity_in(universe@, current));
                    assert(req_equiv(reqs@[q as int], all_requirements_of(current)[q as int]));
                    lemma_bounds_enqueue_candidate(
                        universe@,
                        q1,
                        x2,
                        cands@[c as int],
                        current,
                        reqs@[q as int],
                        q as int,
                        packages@,
                        repositories@,
                        target_arch@,
                    );
                    lemma_universe_covered_queue_push(
                        universe@,
                        u0.len() as int,
                        q1,
                        x2,
                        repositories@,
                        target_arch@,
                    );
                    lemma_reqs_covered_queue_push(
                        universe@[u0.len() as int],
                        q as int,
                        universe@,
                        q1,
                        x2,
                        repositories@,
                        target_arch@,
                    );
                    assert forall|c2: int| 0 <= c2 < c + 1 implies identity_in(
                        queue@,
                        cands@[c2],
                    ) by {
                        if c2 < c {
                            let w = choose|w: int|
                                0 <= w < q1.len() && same_identity(q1[w], cands@[c2]);
                            assert(queue@[w] == q1[w]);
                        }
                    }
                }
                c = c + 1;
            }
            proof {
                // Requirement `q` of the new member is now covered.
                let newp = universe@[u0.len() as int];
                lemma_all_reqs_equiv(newp, current);
                assert(req_equiv(reqs@[q as int], all_requirements_of(newp)[q as int]));
                lemma_new_req_covered(
                    all_requirements_of(newp)[q as int],
                    reqs@[q as int],
                    universe@,
                    queue@,
                    cands@,
                    repositories@,
                    target_arch@,
                );
                assert forall|q2: int| 0 <= q2 < q + 1 implies req_covered(
                    #[trigger] all_requirements_of(newp)[q2],
                    universe@,
                    queue@,
                    repositories@,
                    target_arch@,
                ) by {
                    if q2 < q {
                        assert(req_covered(
                            all_requirements_of(newp)[q2],
                            universe@,
                            queue@,
                            repositories@,
                            target_arch@,
                        ));
                    }
                }
            }
            q = q + 1;
        }
        proof {
            let newp = universe@[u0.len() as int];
            lemma_all_reqs_equiv(newp, current);
            assert(all_requirements_of(newp).len() == reqs@.len());
            lemma_universe_covered_extend(
                universe@,
                u0.len() as int,
                queue@,
                repositories@,
                target_arch@,
            );
        }
    }
    proof {
        // An empty queue turns the coverage invariant into the closure
        // property of the finished crawl.
        assert forall|i: int, q: int, r: int, j: int|
            0 <= i < universe@.len() && 0 <= q < all_requirements_of(universe@[i]).len() && 0 <= r
                < repositories@.len() && 0 <= j < repo_packages_of(repositories@[r]).len()
                && #[trigger] spec_requirement_matches(
                all_requirements_of(universe@[i])[q],
                repo_packages_of(repositories@[r])[j],
            ) && repo_packages_of(repositories@[r])[j].arch@ == target_arch@ implies identity_in(
            universe@,
            repo_packages_of(repositories@[r])[j],
        ) by {
            assert(reqs_covered_upto(
                universe@[i],
                all_requirements_of(universe@[i]).len() as int,
                universe@,
                queue@,
                repositories@,
                target_arch@,
            ));
            assert(req_covered(
                all_requirements_of(universe@[i])[q],
                universe@,
                queue@,
                repositories@,
                target_arch@,
            ));
            let p = repo_packages_of(repositories@[r])[j];
            assert(identity_in(universe@, p) || identity_in(queue@, p) || p.arch@ != target_arch@);
            assert(queue@.len() == 0);
        }
        assert forall|s: Set<(Seq<char>, Seq<char>, Version)>|
            #[trigger] crawl_set_closed(
                s,
                packages@,
                repositories@,
                target_arch@,
            ) implies identities_in_set(s, universe@) by {
            assert(identities_in_set(s, universe@) && arch_identities_in_set(
                s,
                queue@,
                target_arch@,
            ));
        }
        assert(crawl_least(universe@, packages@, repositories@, target_arch@));
        assert(crawl_universe_spec(universe@, packages@, repositories@, target_arch@));
    }
    universe
}

} // verus!
