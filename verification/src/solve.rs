//! The formula builder and solver: from a crawled universe and a
//! request to a transaction, or to definitive unsatisfiability.
//!
//! Every package of the universe gets one boolean variable. The request
//! contributes unit clauses, every dependency requirement of every
//! universe member contributes an implication clause over its candidates
//! within the universe, and every conflict requirement contributes one
//! exclusion clause per candidate. A satisfying assignment is read back
//! as the set of packages whose variable is true; absence of one is the
//! single unsatisfiable-transaction error.

use vstd::prelude::*;

use crate::error::PackageInstallationError;
use crate::package::Package;
use crate::package::PackageRequirement;
use crate::package::conflicts_of;
use crate::package::crawl_package_tree;
use crate::package::crawl_universe_spec;
use crate::package::deps_of;
use crate::package::distinct_identities;
use crate::package::from_request_or_repositories;
use crate::package::identity_in;
use crate::package::lemma_equiv_same_matching;
use crate::package::lemma_from_request_equiv;
use crate::package::lemma_pkg_equiv_parts;
use crate::package::lemma_pkg_equiv_trans;
use crate::repository::repo_packages_of;
use crate::package::pkg_equiv;
use crate::package::req_equiv;
use crate::package::requirement_matches;
use crate::package::same_identity;
use crate::package::spec_requirement_matches;
use crate::repository::Repository;
use crate::sat::CnfFormula;
use crate::sat::Lit;
use crate::sat::clause_satisfied;
use crate::sat::formula_satisfied;
use crate::sat::formula_wf;
use crate::sat::lit_satisfied;
use crate::sat::solve;

verus! {

/// Whether some selected universe entry has the identity of `p`.
pub open spec fn selected_with_identity(
    sel: Seq<bool>,
    universe: Seq<Package>,
    p: Package,
) -> bool {
    exists|i: int| 0 <= i < universe.len() && sel[i] && same_identity(universe[i], p)
}

/// Whether some selected universe entry matches the requirement `req`.
pub open spec fn selected_match(
    sel: Seq<bool>,
    universe: Seq<Package>,
    req: PackageRequirement,
) -> bool {
    exists|m: int| 0 <= m < universe.len() && sel[m] && spec_requirement_matches(req, universe[m])
}

/// Whether the selection contains, for every requested package, some
/// selected universe entry of the same identity.
pub open spec fn selection_requested(
    sel: Seq<bool>,
    universe: Seq<Package>,
    requested: Seq<Package>,
) -> bool {
    forall|r: int|
        0 <= r < requested.len() ==> selected_with_identity(sel, universe, #[trigger] requested[r])
}

/// Whether every dependency requirement of every selected entry is
/// matched by some selected entry.
pub open spec fn selection_deps_ok(sel: Seq<bool>, universe: Seq<Package>) -> bool {
    forall|i: int, d: int|
        0 <= i < universe.len() && sel[i] && 0 <= d < deps_of(universe[i]).len() ==> selected_match(
            sel,
            universe,
            #[trigger] deps_of(universe[i])[d],
        )
}

/// Whether no conflict requirement of any selected entry is matched by
/// any selected entry.
pub open spec fn selection_conflicts_ok(sel: Seq<bool>, universe: Seq<Package>) -> bool {
    forall|i: int, c: int, m: int|
        0 <= i < universe.len() && sel[i] && 0 <= c < conflicts_of(universe[i]).len() && 0 <= m
            < universe.len() && sel[m] ==> !spec_requirement_matches(
            #[trigger] conflicts_of(universe[i])[c],
            #[trigger] universe[m],
        )
}

/// A consistent way to install: a subset of the universe (as a boolean
/// selection) that contains the whole request, satisfies every selected
/// dependency and violates no selected conflict. The solver finds such a
/// selection exactly when one exists.
pub open spec fn consistent_selection(
    sel: Seq<bool>,
    universe: Seq<Package>,
    requested: Seq<Package>,
) -> bool {
    &&& sel.len() == universe.len()
    &&& selection_requested(sel, universe, requested)
    &&& selection_deps_ok(sel, universe)
    &&& selection_conflicts_ok(sel, universe)
}

/// Whether some member of `t` matches the requirement `req`.
pub open spec fn requirement_satisfied_in(t: Seq<Package>, req: PackageRequirement) -> bool {
    exists|m: int| 0 <= m < t.len() && spec_requirement_matches(req, t[m])
}

/// Every dependency requirement of every transaction member is matched
/// by some transaction member.
pub open spec fn transaction_deps_satisfied(t: Seq<Package>) -> bool {
    forall|k: int, d: int|
        0 <= k < t.len() && 0 <= d < deps_of(t[k]).len() ==> requirement_satisfied_in(
            t,
            #[trigger] deps_of(t[k])[d],
        )
}

/// No conflict requirement of any transaction member is matched by any
/// transaction member.
pub open spec fn transaction_conflict_free(t: Seq<Package>) -> bool {
    forall|k: int, c: int, m: int|
        0 <= k < t.len() && 0 <= c < conflicts_of(t[k]).len() && 0 <= m < t.len()
            ==> !spec_requirement_matches(#[trigger] conflicts_of(t[k])[c], #[trigger] t[m])
}

/// Every requested package appears in the transaction, by identity.
pub open spec fn transaction_requested(t: Seq<Package>, requested: Seq<Package>) -> bool {
    forall|r: int| 0 <= r < requested.len() ==> identity_in(t, #[trigger] requested[r])
}

/// Member `k` of `t` carries the data of some universe entry.
pub open spec fn in_universe(t: Seq<Package>, universe: Seq<Package>, k: int) -> bool {
    exists|i: int| 0 <= i < universe.len() && pkg_equiv(t[k], universe[i])
}

/// Every transaction member carries the data of some universe entry.
pub open spec fn transaction_from(t: Seq<Package>, universe: Seq<Package>) -> bool {
    forall|k: int| 0 <= k < t.len() ==> #[trigger] in_universe(t, universe, k)
}

/// Member `k` of `t` carries the data of some selected universe entry.
pub open spec fn selected_source(
    t: Seq<Package>,
    a: Seq<bool>,
    universe: Seq<Package>,
    k: int,
) -> bool {
    exists|i: int| 0 <= i < universe.len() && a[i] && pkg_equiv(t[k], universe[i])
}

/// Universe entry `i` has a member of `t` carrying its data.
pub open spec fn selection_represented(t: Seq<Package>, universe: Seq<Package>, i: int) -> bool {
    exists|k: int| 0 <= k < t.len() && pkg_equiv(t[k], universe[i])
}

/// Member `k` of `t` carries the data of a selected universe entry
/// below index `n`.
pub open spec fn selected_source_upto(
    t: Seq<Package>,
    a: Seq<bool>,
    universe: Seq<Package>,
    k: int,
    n: int,
) -> bool {
    exists|i: int| 0 <= i < n && a[i] && pkg_equiv(t[k], universe[i])
}

/// A unit clause asserting some universe entry with the identity of a
/// requested package.
pub open spec fn is_unit_clause(cl: Seq<Lit>, universe: Seq<Package>, requested: Seq<Package>) -> bool {
    &&& cl.len() == 1
    &&& cl[0].positive
    &&& 0 <= cl[0].var < universe.len()
    &&& exists|r: int|
        0 <= r < requested.len() && same_identity(universe[cl[0].var as int], #[trigger] requested[r])
}

/// The clause "if entry `q` is installed, some candidate of its
/// dependency requirement `d` is installed too": the negation of `q`
/// followed by exactly the matching universe entries.
pub open spec fn is_dep_clause(cl: Seq<Lit>, universe: Seq<Package>, q: int, d: int) -> bool {
    &&& 0 <= q < universe.len()
    &&& 0 <= d < deps_of(universe[q]).len()
    &&& cl.len() >= 1
    &&& cl[0].var == q
    &&& !cl[0].positive
    &&& forall|k: int|
        1 <= k < cl.len() ==> (#[trigger] cl[k]).positive && 0 <= cl[k].var < universe.len()
            && spec_requirement_matches(deps_of(universe[q])[d], universe[cl[k].var as int])
    &&& forall|m: int|
        0 <= m < universe.len() && spec_requirement_matches(
            deps_of(universe[q])[d],
            #[trigger] universe[m],
        ) ==> exists|k: int| 1 <= k < cl.len() && cl[k].var == m
}

/// The clause "entry `q` and one entry matching one of its conflict
/// requirements are not both installed".
pub open spec fn is_conflict_clause(cl: Seq<Lit>, universe: Seq<Package>, q: int) -> bool {
    &&& 0 <= q < universe.len()
    &&& cl.len() == 2
    &&& cl[0].var == q
    &&& !cl[0].positive
    &&& !cl[1].positive
    &&& 0 <= cl[1].var < universe.len()
    &&& exists|c: int|
        0 <= c < conflicts_of(universe[q]).len() && spec_requirement_matches(
            #[trigger] conflicts_of(universe[q])[c],
            universe[cl[1].var as int],
        )
}

/// Every clause of the formula is one of the three legitimate shapes:
/// nothing else constrains the selection.
pub open spec fn clauses_ok(
    cs: Seq<Vec<Lit>>,
    universe: Seq<Package>,
    requested: Seq<Package>,
) -> bool {
    forall|ci: int|
        0 <= ci < cs.len() ==> is_unit_clause(#[trigger] cs[ci]@, universe, requested) || (
        exists|q: int, d: int| is_dep_clause(cs[ci]@, universe, q, d)) || (exists|q: int|
            is_conflict_clause(cs[ci]@, universe, q))
}

/// The formula holds a unit clause for an entry with identity of `p`.
pub open spec fn has_unit_clause(cs: Seq<Vec<Lit>>, universe: Seq<Package>, p: Package) -> bool {
    exists|ci: int|
        0 <= ci < cs.len() && (#[trigger] cs[ci]@).len() == 1 && cs[ci]@[0].positive && 0 <= cs[ci]@[0].var
            < universe.len() && same_identity(universe[cs[ci]@[0].var as int], p)
}

/// The formula holds the dependency clause of entry `q`, requirement `d`.
pub open spec fn has_dep_clause(cs: Seq<Vec<Lit>>, universe: Seq<Package>, q: int, d: int) -> bool {
    exists|ci: int| 0 <= ci < cs.len() && is_dep_clause(#[trigger] cs[ci]@, universe, q, d)
}

/// The formula holds the exclusion clause for entries `q` and `m`.
pub open spec fn has_conflict_clause(
    cs: Seq<Vec<Lit>>,
    universe: Seq<Package>,
    q: int,
    m: int,
) -> bool {
    exists|ci: int|
        0 <= ci < cs.len() && (#[trigger] cs[ci]@).len() == 2 && cs[ci]@[0].var == q
            && !cs[ci]@[0].positive && cs[ci]@[1].var == m && !cs[ci]@[1].positive
}

/// The formula holds every clause the encoding demands: a unit clause
/// per requested package, a dependency clause per dependency of every
/// universe entry, and an exclusion clause per conflict candidate pair.
pub open spec fn clauses_complete(
    cs: Seq<Vec<Lit>>,
    universe: Seq<Package>,
    requested: Seq<Package>,
) -> bool {
    &&& forall|r: int|
        0 <= r < requested.len() ==> has_unit_clause(cs, universe, #[trigger] requested[r])
    &&& forall|q: int, d: int|
        0 <= q < universe.len() && 0 <= d < deps_of(universe[q]).len() ==> has_dep_clause(
            cs,
            universe,
            q,
            d,
        )
    &&& forall|q: int, c: int, m: int|
        0 <= q < universe.len() && 0 <= c < conflicts_of(universe[q]).len() && 0 <= m
            < universe.len() && spec_requirement_matches(
            #[trigger] conflicts_of(universe[q])[c],
            #[trigger] universe[m],
        ) ==> has_conflict_clause(cs, universe, q, m)
}

/// A satisfying assignment of a complete formula is a consistent
/// selection.
pub proof fn lemma_model_gives_selection(
    a: Seq<bool>,
    cs: Seq<Vec<Lit>>,
    universe: Seq<Package>,
    requested: Seq<Package>,
)
    requires
        a.len() == universe.len(),
        forall|ci: int| 0 <= ci < cs.len() ==> clause_satisfied(a, #[trigger] cs[ci]@),
        clauses_complete(cs, universe, requested),
    ensures
        consistent_selection(a, universe, requested),
{
    assert forall|r: int| 0 <= r < requested.len() implies selected_with_identity(
        a,
        universe,
        #[trigger] requested[r],
    ) by {
        assert(has_unit_clause(cs, universe, requested[r]));
        let ci = choose|ci: int|
            0 <= ci < cs.len() && (#[trigger] cs[ci]@).len() == 1 && cs[ci]@[0].positive && 0
                <= cs[ci]@[0].var < universe.len() && same_identity(
                universe[cs[ci]@[0].var as int],
                requested[r],
            );
        assert(clause_satisfied(a, cs[ci]@));
        let k = choose|k: int| 0 <= k < cs[ci]@.len() && lit_satisfied(a, cs[ci]@[k]);
        assert(k == 0);
        let v = cs[ci]@[0].var as int;
        assert(0 <= v < universe.len() && a[v] && same_identity(universe[v], requested[r]));
    }
    assert forall|i: int, d: int|
        0 <= i < universe.len() && a[i] && 0 <= d < deps_of(universe[i]).len() implies selected_match(
        a,
        universe,
        #[trigger] deps_of(universe[i])[d],
    ) by {
        assert(has_dep_clause(cs, universe, i, d));
        let ci = choose|ci: int|
            0 <= ci < cs.len() && is_dep_clause(#[trigger] cs[ci]@, universe, i, d);
        let cl = cs[ci]@;
        assert(clause_satisfied(a, cl));
        let k = choose|k: int| 0 <= k < cl.len() && lit_satisfied(a, cl[k]);
        if k == 0 {
            assert(!a[i]);
            assert(false);
        } else {
            let m = cl[k].var as int;
            assert(0 <= m < universe.len() && a[m] && spec_requirement_matches(
                deps_of(universe[i])[d],
                universe[m],
            ));
        }
    }
    assert forall|i: int, c: int, m: int|
        0 <= i < universe.len() && a[i] && 0 <= c < conflicts_of(universe[i]).len() && 0 <= m
            < universe.len() && a[m] implies !spec_requirement_matches(
        #[trigger] conflicts_of(universe[i])[c],
        #[trigger] universe[m],
    ) by {
        if spec_requirement_matches(conflicts_of(universe[i])[c], universe[m]) {
            assert(has_conflict_clause(cs, universe, i, m));
            let ci = choose|ci: int|
                0 <= ci < cs.len() && (#[trigger] cs[ci]@).len() == 2 && cs[ci]@[0].var == i
                    && !cs[ci]@[0].positive && cs[ci]@[1].var == m && !cs[ci]@[1].positive;
            assert(clause_satisfied(a, cs[ci]@));
            let k = choose|k: int| 0 <= k < cs[ci]@.len() && lit_satisfied(a, cs[ci]@[k]);
            assert(k == 0 || k == 1);
            assert(false);
        }
    }
    assert(selection_requested(a, universe, requested));
    assert(selection_deps_ok(a, universe));
    assert(selection_conflicts_ok(a, universe));
}

/// A consistent selection satisfies every clause of a well-shaped
/// formula: unsatisfiability reported by the solver is therefore real.
pub proof fn lemma_selection_satisfies(
    sel: Seq<bool>,
    cs: Seq<Vec<Lit>>,
    universe: Seq<Package>,
    requested: Seq<Package>,
)
    requires
        distinct_identities(universe),
        consistent_selection(sel, universe, requested),
        clauses_ok(cs, universe, requested),
    ensures
        forall|ci: int| 0 <= ci < cs.len() ==> clause_satisfied(sel, #[trigger] cs[ci]@),
{
    assert forall|ci: int| 0 <= ci < cs.len() implies clause_satisfied(sel, #[trigger] cs[ci]@) by {
        let cl = cs[ci]@;
        if is_unit_clause(cl, universe, requested) {
            let r = choose|r: int|
                0 <= r < requested.len() && same_identity(
                    universe[cl[0].var as int],
                    #[trigger] requested[r],
                );
            assert(selected_with_identity(sel, universe, requested[r]));
            let i = choose|i: int|
                0 <= i < universe.len() && sel[i] && same_identity(universe[i], requested[r]);
            let v = cl[0].var as int;
            if i != v {
                assert(same_identity(universe[i], universe[v]));
                if i < v {
                    assert(!same_identity(universe[i], universe[v]));
                } else {
                    assert(!same_identity(universe[v], universe[i]));
                    assert(same_identity(universe[v], universe[i]));
                }
                assert(false);
            }
            assert(lit_satisfied(sel, cl[0]));
        } else if exists|q: int, d: int| is_dep_clause(cl, universe, q, d) {
            let (q, d) = choose|q: int, d: int| is_dep_clause(cl, universe, q, d);
            if sel[q] {
                assert(selected_match(sel, universe, deps_of(universe[q])[d]));
                let m = choose|m: int|
                    0 <= m < universe.len() && sel[m] && spec_requirement_matches(
                        deps_of(universe[q])[d],
                        universe[m],
                    );
                let k = choose|k: int| 1 <= k < cl.len() && cl[k].var == m;
                assert(lit_satisfied(sel, cl[k]));
            } else {
                assert(lit_satisfied(sel, cl[0]));
            }
        } else {
            let q = choose|q: int| is_conflict_clause(cl, universe, q);
            if sel[q] {
                let m = cl[1].var as int;
                if sel[m] {
                    let c = choose|c: int|
                        0 <= c < conflicts_of(universe[q]).len() && spec_requirement_matches(
                            #[trigger] conflicts_of(universe[q])[c],
                            universe[m],
                        );
                    assert(!spec_requirement_matches(conflicts_of(universe[q])[c], universe[m]));
                    assert(false);
                }
                assert(lit_satisfied(sel, cl[1]));
            } else {
                assert(lit_satisfied(sel, cl[0]));
            }
        }
    }
}

/// Every clause of a well-shaped formula speaks only of variables below
/// the universe's size.
pub proof fn lemma_clauses_ok_wf(
    cs: Seq<Vec<Lit>>,
    universe: Seq<Package>,
    requested: Seq<Package>,
)
    requires
        clauses_ok(cs, universe, requested),
    ensures
        forall|ci: int, k: int|
            0 <= ci < cs.len() && 0 <= k < (#[trigger] cs[ci]@).len() ==> (
            #[trigger] cs[ci]@[k]).var < universe.len(),
{
    assert forall|ci: int, k: int|
        0 <= ci < cs.len() && 0 <= k < (#[trigger] cs[ci]@).len() implies (
    #[trigger] cs[ci]@[k]).var < universe.len() by {
        let cl = cs[ci]@;
        if is_unit_clause(cl, universe, requested) {
        } else if exists|q: int, d: int| is_dep_clause(cl, universe, q, d) {
            let (q, d) = choose|q: int, d: int| is_dep_clause(cl, universe, q, d);
            if k >= 1 {
                assert(cl[k].positive && 0 <= cl[k].var < universe.len());
            }
        } else {
            let q = choose|q: int| is_conflict_clause(cl, universe, q);
        }
    }
}

/// Appending a clause keeps every clause fact already established.
pub proof fn lemma_clause_facts_push(
    cs: Seq<Vec<Lit>>,
    x: Vec<Lit>,
    universe: Seq<Package>,
)
    ensures
        forall|p: Package|
            has_unit_clause(cs, universe, p) ==> #[trigger] has_unit_clause(
                cs.push(x),
                universe,
                p,
            ),
        forall|q: int, d: int|
            has_dep_clause(cs, universe, q, d) ==> #[trigger] has_dep_clause(
                cs.push(x),
                universe,
                q,
                d,
            ),
        forall|q: int, m: int|
            has_conflict_clause(cs, universe, q, m) ==> #[trigger] has_conflict_clause(
                cs.push(x),
                universe,
                q,
                m,
            ),
{
    assert forall|p: Package| has_unit_clause(cs, universe, p) implies #[trigger] has_unit_clause(
        cs.push(x),
        universe,
        p,
    ) by {
        let ci = choose|ci: int|
            0 <= ci < cs.len() && (#[trigger] cs[ci]@).len() == 1 && cs[ci]@[0].positive && 0
                <= cs[ci]@[0].var < universe.len() && same_identity(
                universe[cs[ci]@[0].var as int],
                p,
            );
        assert(cs.push(x)[ci] == cs[ci]);
    }
    assert forall|q: int, d: int|
        has_dep_clause(cs, universe, q, d) implies #[trigger] has_dep_clause(
        cs.push(x),
        universe,
        q,
        d,
    ) by {
        let ci = choose|ci: int|
            0 <= ci < cs.len() && is_dep_clause(#[trigger] cs[ci]@, universe, q, d);
        assert(cs.push(x)[ci] == cs[ci]);
        assert(is_dep_clause(cs.push(x)[ci]@, universe, q, d));
    }
    assert forall|q: int, m: int|
        has_conflict_clause(cs, universe, q, m) implies #[trigger] has_conflict_clause(
        cs.push(x),
        universe,
        q,
        m,
    ) by {
        let ci = choose|ci: int|
            0 <= ci < cs.len() && (#[trigger] cs[ci]@).len() == 2 && cs[ci]@[0].var == q
                && !cs[ci]@[0].positive && cs[ci]@[1].var == m && !cs[ci]@[1].positive;
        assert(cs.push(x)[ci] == cs[ci]);
    }
}

/// A transaction assembled from the selected entries of a consistent
/// selection is sound, honors the request, and deduplicates identities.
pub proof fn lemma_transaction_valid(
    t: Seq<Package>,
    a: Seq<bool>,
    universe: Seq<Package>,
    requested: Seq<Package>,
)
    requires
        distinct_identities(universe),
        a.len() == universe.len(),
        consistent_selection(a, universe, requested),
        forall|k: int| 0 <= k < t.len() ==> #[trigger] selected_source(t, a, universe, k),
        forall|i: int|
            0 <= i < universe.len() && a[i] ==> #[trigger] selection_represented(t, universe, i),
    ensures
        transaction_from(t, universe),
        transaction_requested(t, requested),
        transaction_deps_satisfied(t),
        transaction_conflict_free(t),
{
    assert forall|k: int| 0 <= k < t.len() implies #[trigger] in_universe(t, universe, k) by {
        assert(selected_source(t, a, universe, k));
        let i = choose|i: int| 0 <= i < universe.len() && a[i] && pkg_equiv(t[k], universe[i]);
        assert(0 <= i < universe.len() && pkg_equiv(t[k], universe[i]));
    }
    assert forall|r: int| 0 <= r < requested.len() implies identity_in(
        t,
        #[trigger] requested[r],
    ) by {
        assert(selected_with_identity(a, universe, requested[r]));
        let i = choose|i: int|
            0 <= i < universe.len() && a[i] && same_identity(universe[i], requested[r]);
        assert(selection_represented(t, universe, i));
        let k = choose|k: int| 0 <= k < t.len() && pkg_equiv(t[k], universe[i]);
        lemma_pkg_equiv_parts(t[k], universe[i]);
        assert(same_identity(t[k], requested[r]));
    }
    assert forall|k: int, d: int|
        0 <= k < t.len() && 0 <= d < deps_of(t[k]).len() implies requirement_satisfied_in(
        t,
        #[trigger] deps_of(t[k])[d],
    ) by {
        assert(selected_source(t, a, universe, k));
        let i = choose|i: int|
            0 <= i < universe.len() && a[i] && pkg_equiv(t[k], universe[i]);
        lemma_pkg_equiv_parts(t[k], universe[i]);
        assert(req_equiv(deps_of(t[k])[d], deps_of(universe[i])[d]));
        assert(selected_match(a, universe, deps_of(universe[i])[d]));
        let m = choose|m: int|
            0 <= m < universe.len() && a[m] && spec_requirement_matches(
                deps_of(universe[i])[d],
                universe[m],
            );
        assert(selection_represented(t, universe, m));
        let k2 = choose|k2: int| 0 <= k2 < t.len() && pkg_equiv(t[k2], universe[m]);
        lemma_equiv_same_matching(deps_of(t[k])[d], deps_of(universe[i])[d], t[k2], universe[m]);
        assert(0 <= k2 < t.len() && spec_requirement_matches(deps_of(t[k])[d], t[k2]));
    }
    assert forall|k: int, c: int, m: int|
        0 <= k < t.len() && 0 <= c < conflicts_of(t[k]).len() && 0 <= m
            < t.len() implies !spec_requirement_matches(
        #[trigger] conflicts_of(t[k])[c],
        #[trigger] t[m],
    ) by {
        if spec_requirement_matches(conflicts_of(t[k])[c], t[m]) {
            assert(selected_source(t, a, universe, k));
            assert(selected_source(t, a, universe, m));
            let i = choose|i: int|
                0 <= i < universe.len() && a[i] && pkg_equiv(t[k], universe[i]);
            let im = choose|im: int|
                0 <= im < universe.len() && a[im] && pkg_equiv(t[m], universe[im]);
            lemma_pkg_equiv_parts(t[k], universe[i]);
            assert(req_equiv(conflicts_of(t[k])[c], conflicts_of(universe[i])[c]));
            lemma_equiv_same_matching(
                conflicts_of(t[k])[c],
                conflicts_of(universe[i])[c],
                t[m],
                universe[im],
            );
            assert(spec_requirement_matches(conflicts_of(universe[i])[c], universe[im]));
            assert(false);
        }
    }
}

/// A sound transaction never contains a package together with one that
/// a conflict requirement of it matches: two mutually conflicting
/// packages cannot both be delivered.
pub proof fn lemma_mutual_conflict_excluded(t: Seq<Package>, k: int, c: int, m: int)
    requires
        transaction_conflict_free(t),
        0 <= k < t.len(),
        0 <= c < conflicts_of(t[k]).len(),
        0 <= m < t.len(),
    ensures
        !spec_requirement_matches(conflicts_of(t[k])[c], t[m]),
{
}

/// Requesting two packages one of which conflicts with the other can
/// never yield a sound transaction: any package list that contains both
/// by identity and draws its members from the request or the snapshot
/// violates conflict freedom, so resolution must report the
/// unsatisfiable-transaction error instead. The two final premises ask
/// that no second copy of the first package's identity with different
/// data stands in the request or the snapshot (no identity drift),
/// since the conflict list consulted is the delivered entry's own.
pub proof fn lemma_mutual_conflict_breaks_soundness(
    t: Seq<Package>,
    requested: Seq<Package>,
    repositories: Seq<Repository>,
    a: int,
    b: int,
    c: int,
)
    requires
        transaction_requested(t, requested),
        forall|k: int|
            0 <= k < t.len() ==> from_request_or_repositories(
                #[trigger] t[k],
                requested,
                repositories,
            ),
        0 <= a < requested.len(),
        0 <= b < requested.len(),
        0 <= c < conflicts_of(requested[a]).len(),
        spec_requirement_matches(conflicts_of(requested[a])[c], requested[b]),
        forall|j: int|
            0 <= j < requested.len() && same_identity(#[trigger] requested[j], requested[a])
                ==> pkg_equiv(requested[j], requested[a]),
        forall|r: int, j: int|
            0 <= r < repositories.len() && 0 <= j < repo_packages_of(repositories[r]).len()
                && same_identity(#[trigger] repo_packages_of(repositories[r])[j], requested[a])
                ==> pkg_equiv(repo_packages_of(repositories[r])[j], requested[a]),
    ensures
        !transaction_conflict_free(t),
{
    assert(identity_in(t, requested[a]));
    assert(identity_in(t, requested[b]));
    let wa = choose|wa: int| 0 <= wa < t.len() && same_identity(t[wa], requested[a]);
    let wb = choose|wb: int| 0 <= wb < t.len() && same_identity(t[wb], requested[b]);
    // The delivered entry with the first package's identity carries its
    // data: its source has the same identity, so the drift premises fix
    // the source's data.
    if exists|j: int| 0 <= j < requested.len() && pkg_equiv(t[wa], requested[j]) {
        let j = choose|j: int| 0 <= j < requested.len() && pkg_equiv(t[wa], requested[j]);
        lemma_pkg_equiv_parts(t[wa], requested[j]);
        assert(same_identity(requested[j], requested[a]));
        assert(pkg_equiv(requested[j], requested[a]));
        lemma_pkg_equiv_trans(t[wa], requested[j], requested[a]);
    } else {
        let (r, j) = choose|r: int, j: int|
            0 <= r < repositories.len() && 0 <= j < repo_packages_of(repositories[r]).len()
                && pkg_equiv(t[wa], repo_packages_of(repositories[r])[j]);
        lemma_pkg_equiv_parts(t[wa], repo_packages_of(repositories[r])[j]);
        assert(same_identity(repo_packages_of(repositories[r])[j], requested[a]));
        assert(pkg_equiv(repo_packages_of(repositories[r])[j], requested[a]));
        lemma_pkg_equiv_trans(t[wa], repo_packages_of(repositories[r])[j], requested[a]);
    }
    assert(pkg_equiv(t[wa], requested[a]));
    lemma_pkg_equiv_parts(t[wa], requested[a]);
    assert(req_equiv(conflicts_of(t[wa])[c], conflicts_of(requested[a])[c]));
    lemma_equiv_same_matching(
        conflicts_of(t[wa])[c],
        conflicts_of(requested[a])[c],
        requested[b],
        requested[b],
    );
    assert(spec_requirement_matches(conflicts_of(t[wa])[c], requested[b]));
    // Matching reads only the candidate's architecture, name and
    // version, which the second package's identity fixes.
    assert(spec_requirement_matches(conflicts_of(t[wa])[c], t[wb]));
    if transaction_conflict_free(t) {
        assert(!spec_requirement_matches(conflicts_of(t[wa])[c], t[wb]));
    }
}

/// Requesting two packages one of which conflicts with the other is
/// unsatisfiable: no consistent selection over any universe exists, so
/// resolution reports the unsatisfiable-transaction error rather than a
/// transaction containing both. The premise asks that universe entries
/// carrying the first package's identity carry its data too (no
/// identity drift), since the conflict list consulted is the entry's
/// own.
pub proof fn lemma_mutual_conflict_request_unsatisfiable(
    universe: Seq<Package>,
    requested: Seq<Package>,
    a: int,
    b: int,
    c: int,
)
    requires
        0 <= a < requested.len(),
        0 <= b < requested.len(),
        0 <= c < conflicts_of(requested[a]).len(),
        spec_requirement_matches(conflicts_of(requested[a])[c], requested[b]),
        forall|i: int|
            0 <= i < universe.len() && same_identity(#[trigger] universe[i], requested[a])
                ==> pkg_equiv(universe[i], requested[a]),
    ensures
        forall|sel: Seq<bool>| !consistent_selection(sel, universe, requested),
{
    assert forall|sel: Seq<bool>| !consistent_selection(sel, universe, requested) by {
        if consistent_selection(sel, universe, requested) {
            assert(selected_with_identity(sel, universe, requested[a]));
            assert(selected_with_identity(sel, universe, requested[b]));
            let ia = choose|ia: int|
                0 <= ia < universe.len() && sel[ia] && same_identity(universe[ia], requested[a]);
            let ib = choose|ib: int|
                0 <= ib < universe.len() && sel[ib] && same_identity(universe[ib], requested[b]);
            assert(pkg_equiv(universe[ia], requested[a]));
            lemma_pkg_equiv_parts(universe[ia], requested[a]);
            assert(req_equiv(conflicts_of(universe[ia])[c], conflicts_of(requested[a])[c]));
            // Matching reads only the candidate's architecture, name and
            // version, which its identity fixes.
            lemma_equiv_same_matching(
                conflicts_of(universe[ia])[c],
                conflicts_of(requested[a])[c],
                requested[b],
                requested[b],
            );
            assert(spec_requirement_matches(conflicts_of(universe[ia])[c], requested[b]));
            assert(spec_requirement_matches(conflicts_of(universe[ia])[c], universe[ib]));
            assert(!spec_requirement_matches(conflicts_of(universe[ia])[c], universe[ib]));
            assert(false);
        }
    }
}

/// Find the index of a universe entry with the identity of `p`.
fn find_identity_index(universe: &Vec<Package>, p: &Package) -> (r: Option<usize>)
    ensures
        match r {
            Option::Some(i) => 0 <= i < universe@.len() && same_identity(
                universe@[i as int],
                *p,
            ),
            Option::None => !identity_in(universe@, *p),
        },
{
    let mut i: usize = 0;
    while i < universe.len()
        invariant
            0 <= i <= universe@.len(),
            forall|j: int| 0 <= j < i ==> !same_identity(universe@[j], *p),
        decreases universe@.len() - i,
    {
        if universe[i].arch == p.arch && universe[i].name == p.name && universe[i].version
            == p.version {
            proof {
                assert(same_identity(universe@[i as int], *p));
            }
            return Option::Some(i);
        }
        i = i + 1;
    }
    Option::None
}

/// Appending a legitimately shaped clause keeps the formula well shaped.
pub proof fn lemma_clauses_ok_push(
    cs: Seq<Vec<Lit>>,
    x: Vec<Lit>,
    universe: Seq<Package>,
    requested: Seq<Package>,
)
    requires
        clauses_ok(cs, universe, requested),
        is_unit_clause(x@, universe, requested) || (exists|q: int, d: int|
            is_dep_clause(x@, universe, q, d)) || (exists|q: int| is_conflict_clause(x@, universe, q)),
    ensures
        clauses_ok(cs.push(x), universe, requested),
{
    assert forall|ci: int| 0 <= ci < cs.push(x).len() implies is_unit_clause(
        #[trigger] cs.push(x)[ci]@,
        universe,
        requested,
    ) || (exists|q: int, d: int| is_dep_clause(cs.push(x)[ci]@, universe, q, d)) || (exists|q: int|
        is_conflict_clause(cs.push(x)[ci]@, universe, q)) by {
        if ci < cs.len() {
            assert(cs.push(x)[ci] == cs[ci]);
            assert(is_unit_clause(cs[ci]@, universe, requested) || (exists|q: int, d: int|
                is_dep_clause(cs[ci]@, universe, q, d)) || (exists|q: int|
                is_conflict_clause(cs[ci]@, universe, q)));
        } else {
            assert(cs.push(x)[ci] == x);
        }
    }
}

/// Build the CNF encoding of the request over the universe: one unit
/// clause per requested package, one implication clause per dependency
/// requirement of every universe entry, one exclusion clause per
/// conflict candidate pair. Fails — definitively — when a requested
/// package has no universe entry of its identity.
#[verifier::loop_isolation(false)]
#[verifier::rlimit(100)]
#[verifier::spinoff_prover]
fn build_formula(packages: &Vec<Package>, universe: &Vec<Package>) -> (result: Result<
    Vec<Vec<Lit>>,
    PackageInstallationError,
>)
    ensures
        match result {
            Result::Ok(cs) => clauses_ok(cs@, universe@, packages@) && clauses_complete(
                cs@,
                universe@,
                packages@,
            ),
            Result::Err(e) => {
                &&& e == PackageInstallationError::UnableToSolveTransaction
                &&& forall|sel: Seq<bool>| !consistent_selection(sel, universe@, packages@)
            },
        },
{
    let mut clauses: Vec<Vec<Lit>> = Vec::new();
    // One unit clause per requested package: the user's explicit choices
    // are non-negotiable.
    let mut r: usize = 0;
    while r < packages.len()
        invariant
            0 <= r <= packages@.len(),
            clauses_ok(clauses@, universe@, packages@),
            forall|r2: int|
                0 <= r2 < r ==> has_unit_clause(clauses@, universe@, #[trigger] packages@[r2]),
        decreases packages@.len() - r,
    {
        match find_identity_index(universe, &packages[r]) {
            Option::Some(i) => {
                let mut cl: Vec<Lit> = Vec::new();
                cl.push(Lit { var: i, positive: true });
                proof {
                    assert(cl@[0] == Lit { var: i, positive: true });
                    assert(same_identity(universe@[i as int], packages@[r as int]));
                    assert(is_unit_clause(cl@, universe@, packages@));
                    lemma_clause_facts_push(clauses@, cl, universe@);
                    lemma_clauses_ok_push(clauses@, cl, universe@, packages@);
                }
                let ghost cs0 = clauses@;
                clauses.push(cl);
                proof {
                    assert(clauses@ == cs0.push(cl));
                    assert(clauses@[clauses@.len() - 1] == cl);
                    assert(has_unit_clause(clauses@, universe@, packages@[r as int]));
                }
            },
            Option::None => {
                proof {
                    assert forall|sel: Seq<bool>| !consistent_selection(
                        sel,
                        universe@,
                        packages@,
                    ) by {
                        if consistent_selection(sel, universe@, packages@) {
                            assert(selected_with_identity(sel, universe@, packages@[r as int]));
                            let i = choose|i: int|
                                0 <= i < universe@.len() && sel[i] && same_identity(
                                    universe@[i],
                                    packages@[r as int],
                                );
                            assert(identity_in(universe@, packages@[r as int]));
                            assert(false);
                        }
                    }
                }
                return Result::Err(PackageInstallationError::UnableToSolveTransaction);
            },
        }
        r = r + 1;
    }
    // Dependency and conflict clauses for every universe entry: any
    // entry could be pulled in transitively, so each is constrained.
    let mut q: usize = 0;
    while q < universe.len()
        invariant
            0 <= q <= universe@.len(),
            clauses_ok(clauses@, universe@, packages@),
            forall|r2: int|
                0 <= r2 < packages@.len() ==> has_unit_clause(
                    clauses@,
                    universe@,
                    #[trigger] packages@[r2],
                ),
            forall|q2: int, d2: int|
                0 <= q2 < q && 0 <= d2 < deps_of(universe@[q2]).len() ==> has_dep_clause(
                    clauses@,
                    universe@,
                    q2,
                    d2,
                ),
            forall|q2: int, c2: int, m2: int|
                0 <= q2 < q && 0 <= c2 < conflicts_of(universe@[q2]).len() && 0 <= m2
                    < universe@.len() && spec_requirement_matches(
                    #[trigger] conflicts_of(universe@[q2])[c2],
                    #[trigger] universe@[m2],
                ) ==> has_conflict_clause(clauses@, universe@, q2, m2),
        decreases universe@.len() - q,
    {
        match &universe[q].dependencies {
            Option::Some(dep_reqs) => {
                let mut d: usize = 0;
                while d < dep_reqs.len()
                    invariant
                        0 <= d <= dep_reqs@.len(),
                        0 <= q < universe@.len(),
                        dep_reqs@ == deps_of(universe@[q as int]),
                        clauses_ok(clauses@, universe@, packages@),
                        forall|r2: int|
                            0 <= r2 < packages@.len() ==> has_unit_clause(
                                clauses@,
                                universe@,
                                #[trigger] packages@[r2],
                            ),
                        forall|q2: int, d2: int|
                            0 <= q2 < q && 0 <= d2 < deps_of(universe@[q2]).len()
                                ==> has_dep_clause(clauses@, universe@, q2, d2),
                        forall|q2: int, c2: int, m2: int|
                            0 <= q2 < q && 0 <= c2 < conflicts_of(universe@[q2]).len() && 0 <= m2
                                < universe@.len() && spec_requirement_matches(
                                #[trigger] conflicts_of(universe@[q2])[c2],
                                #[trigger] universe@[m2],
                            ) ==> has_conflict_clause(clauses@, universe@, q2, m2),
                        forall|d2: int|
                            0 <= d2 < d ==> has_dep_clause(clauses@, universe@, q as int, d2),
                    decreases dep_reqs@.len() - d,
                {
                    let mut cl: Vec<Lit> = Vec::new();
                    cl.push(Lit { var: q, positive: false });
                    let mut m: usize = 0;
                    while m < universe.len()
                        invariant
                            0 <= m <= universe@.len(),
                            0 <= q < universe@.len(),
                            0 <= d < dep_reqs@.len(),
                            dep_reqs@ == deps_of(universe@[q as int]),
                            cl@.len() >= 1,
                            cl@[0].var == q,
                            !cl@[0].positive,
                            forall|k: int|
                                1 <= k < cl@.len() ==> (#[trigger] cl@[k]).positive && 0
                                    <= cl@[k].var < universe@.len() && spec_requirement_matches(
                                    deps_of(universe@[q as int])[d as int],
                                    universe@[cl@[k].var as int],
                                ),
                            forall|m2: int|
                                0 <= m2 < m && spec_requirement_matches(
                                    deps_of(universe@[q as int])[d as int],
                                    #[trigger] universe@[m2],
                                ) ==> exists|k: int| 1 <= k < cl@.len() && cl@[k].var == m2,
                        decreases universe@.len() - m,
                    {
                        let ghost cl0 = cl@;
                        if requirement_matches(&dep_reqs[d], &universe[m]) {
                            cl.push(Lit { var: m, positive: true });
                        }
                        proof {
                            assert forall|m2: int|
                                0 <= m2 < m + 1 && spec_requirement_matches(
                                    deps_of(universe@[q as int])[d as int],
                                    #[trigger] universe@[m2],
                                ) implies exists|k: int|
                                1 <= k < cl@.len() && cl@[k].var == m2 by {
                                if m2 < m {
                                    let k = choose|k: int| 1 <= k < cl0.len() && cl0[k].var == m2;
                                    assert(cl@[k] == cl0[k]);
                                } else {
                                    assert(cl@[cl@.len() - 1].var == m2);
                                }
                            }
                        }
                        m = m + 1;
                    }
                    proof {
                        assert(is_dep_clause(cl@, universe@, q as int, d as int));
                        lemma_clause_facts_push(clauses@, cl, universe@);
                        lemma_clauses_ok_push(clauses@, cl, universe@, packages@);
                    }
                    clauses.push(cl);
                    proof {
                        assert(clauses@[clauses@.len() - 1] == cl);
                        assert(has_dep_clause(clauses@, universe@, q as int, d as int));
                    }
                    d = d + 1;
                }
            },
            Option::None => {},
        }
        match &universe[q].conflicts {
            Option::Some(conflict_reqs) => {
                let mut c: usize = 0;
                while c < conflict_reqs.len()
                    invariant
                        0 <= c <= conflict_reqs@.len(),
                        0 <= q < universe@.len(),
                        conflict_reqs@ == conflicts_of(universe@[q as int]),
                        clauses_ok(clauses@, universe@, packages@),
                        forall|r2: int|
                            0 <= r2 < packages@.len() ==> has_unit_clause(
                                clauses@,
                                universe@,
                                #[trigger] packages@[r2],
                            ),
                        forall|q2: int, d2: int|
                            0 <= q2 < q + 1 && 0 <= d2 < deps_of(universe@[q2]).len()
                                ==> has_dep_clause(clauses@, universe@, q2, d2),
                        forall|q2: int, c2: int, m2: int|
                            0 <= q2 < q && 0 <= c2 < conflicts_of(universe@[q2]).len() && 0 <= m2
                                < universe@.len() && spec_requirement_matches(
                                #[trigger] conflicts_of(universe@[q2])[c2],
                                #[trigger] universe@[m2],
                            ) ==> has_conflict_clause(clauses@, universe@, q2, m2),
                        forall|c2: int, m2: int|
                            0 <= c2 < c && 0 <= m2 < universe@.len() && spec_requirement_matches(
                                #[trigger] conflicts_of(universe@[q as int])[c2],
                                #[trigger] universe@[m2],
                            ) ==> has_conflict_clause(clauses@, universe@, q as int, m2),
                    decreases conflict_reqs@.len() - c,
                {
                    let mut m: usize = 0;
                    while m < universe.len()
                        invariant
                            0 <= m <= universe@.len(),
                            0 <= q < universe@.len(),
                            0 <= c < conflict_reqs@.len(),
                            conflict_reqs@ == conflicts_of(universe@[q as int]),
                            clauses_ok(clauses@, universe@, packages@),
                            forall|r2: int|
                                0 <= r2 < packages@.len() ==> has_unit_clause(
                                    clauses@,
                                    universe@,
                                    #[trigger] packages@[r2],
                                ),
                            forall|q2: int, d2: int|
                                0 <= q2 < q + 1 && 0 <= d2 < deps_of(universe@[q2]).len()
                                    ==> has_dep_clause(clauses@, universe@, q2, d2),
                            forall|q2: int, c2: int, m2: int|
                                0 <= q2 < q && 0 <= c2 < conflicts_of(universe@[q2]).len() && 0
                                    <= m2 < universe@.len() && spec_requirement_matches(
                                    #[trigger] conflicts_of(universe@[q2])[c2],
                                    #[trigger] universe@[m2],
                                ) ==> has_conflict_clause(clauses@, universe@, q2, m2),
                            forall|c2: int, m2: int|
                                0 <= c2 < c && 0 <= m2 < universe@.len()
                                    && spec_requirement_matches(
                                    #[trigger] conflicts_of(universe@[q as int])[c2],
                                    #[trigger] universe@[m2],
                                ) ==> has_conflict_clause(clauses@, universe@, q as int, m2),
                            forall|m2: int|
                                0 <= m2 < m && spec_requirement_matches(
                                    conflicts_of(universe@[q as int])[c as int],
                                    #[trigger] universe@[m2],
                                ) ==> has_conflict_clause(clauses@, universe@, q as int, m2),
                        decreases universe@.len() - m,
                    {
                        if requirement_matches(&conflict_reqs[c], &universe[m]) {
                            let mut cl: Vec<Lit> = Vec::new();
                            cl.push(Lit { var: q, positive: false });
                            cl.push(Lit { var: m, positive: false });
                            proof {
                                assert(cl@.len() == 2);
                                assert(spec_requirement_matches(
                                    conflicts_of(universe@[q as int])[c as int],
                                    universe@[m as int],
                                ));
                                assert(is_conflict_clause(cl@, universe@, q as int));
                                lemma_clause_facts_push(clauses@, cl, universe@);
                                lemma_clauses_ok_push(clauses@, cl, universe@, packages@);
                            }
                            clauses.push(cl);
                            proof {
                                assert(clauses@[clauses@.len() - 1] == cl);
                                assert(has_conflict_clause(clauses@, universe@, q as int, m as int));
                            }
                        }
                        m = m + 1;
                    }
                    c = c + 1;
                }
            },
            Option::None => {},
        }
        q = q + 1;
    }
    Result::Ok(clauses)
}


/// One extraction step: appending the clone of selected entry `i` keeps
/// the extraction invariants.
proof fn lemma_extract_step(
    t0: Seq<Package>,
    p: Package,
    a: Seq<bool>,
    universe: Seq<Package>,
    i: int,
)
    requires
        0 <= i < universe.len(),
        a.len() == universe.len(),
        distinct_identities(universe),
        a[i],
        pkg_equiv(p, universe[i]),
        forall|k: int|
            0 <= k < t0.len() ==> #[trigger] selected_source_upto(t0, a, universe, k, i),
        forall|ii: int|
            0 <= ii < i && a[ii] ==> #[trigger] selection_represented(t0, universe, ii),
        distinct_identities(t0),
    ensures
        forall|k: int|
            0 <= k < t0.push(p).len() ==> #[trigger] selected_source_upto(
                t0.push(p),
                a,
                universe,
                k,
                i + 1,
            ),
        forall|ii: int|
            0 <= ii < i + 1 && a[ii] ==> #[trigger] selection_represented(
                t0.push(p),
                universe,
                ii,
            ),
        distinct_identities(t0.push(p)),
{
    let t1 = t0.push(p);
    assert forall|k: int| 0 <= k < t0.len() implies !same_identity(t0[k], p) by {
        assert(selected_source_upto(t0, a, universe, k, i));
        let ii = choose|ii: int| 0 <= ii < i && a[ii] && pkg_equiv(t0[k], universe[ii]);
        lemma_pkg_equiv_parts(t0[k], universe[ii]);
        lemma_pkg_equiv_parts(p, universe[i]);
        if same_identity(t0[k], p) {
            assert(same_identity(universe[ii], universe[i]));
            assert(false);
        }
    }
    assert forall|k: int| 0 <= k < t1.len() implies #[trigger] selected_source_upto(
        t1,
        a,
        universe,
        k,
        i + 1,
    ) by {
        if k < t0.len() {
            assert(t1[k] == t0[k]);
            assert(selected_source_upto(t0, a, universe, k, i));
            let ii = choose|ii: int| 0 <= ii < i && a[ii] && pkg_equiv(t0[k], universe[ii]);
            assert(0 <= ii < i + 1 && a[ii] && pkg_equiv(t1[k], universe[ii]));
        } else {
            assert(t1[k] == p);
            assert(0 <= i < i + 1 && a[i] && pkg_equiv(t1[k], universe[i]));
        }
    }
    assert forall|ii: int| 0 <= ii < i + 1 && a[ii] implies #[trigger] selection_represented(
        t1,
        universe,
        ii,
    ) by {
        if ii < i {
            assert(selection_represented(t0, universe, ii));
            let k = choose|k: int| 0 <= k < t0.len() && pkg_equiv(t0[k], universe[ii]);
            assert(t1[k] == t0[k]);
            assert(0 <= k < t1.len() && pkg_equiv(t1[k], universe[ii]));
        } else {
            assert(0 <= t1.len() - 1 < t1.len() && pkg_equiv(t1[t1.len() - 1], universe[ii]));
        }
    }
    assert forall|x: int, y: int| 0 <= x < y < t1.len() implies !same_identity(t1[x], t1[y]) by {
        if y < t0.len() {
            assert(t1[x] == t0[x] && t1[y] == t0[y]);
        } else {
            assert(t1[x] == t0[x] && t1[y] == p);
            assert(!same_identity(t0[x], p));
        }
    }
}

/// Read a satisfying assignment back as a package list: the clones of
/// exactly the universe entries whose variable is true.
#[verifier::rlimit(100)]
#[verifier::spinoff_prover]
fn extract_transaction(a: &Vec<bool>, universe: &Vec<Package>) -> (t: Vec<Package>)
    requires
        a@.len() == universe@.len(),
        distinct_identities(universe@),
    ensures
        forall|k: int| 0 <= k < t@.len() ==> #[trigger] selected_source(t@, a@, universe@, k),
        forall|i: int|
            0 <= i < universe@.len() && a@[i] ==> #[trigger] selection_represented(t@, universe@, i),
        distinct_identities(t@),
{
    let mut t: Vec<Package> = Vec::new();
    let mut i: usize = 0;
    while i < universe.len()
        invariant
            0 <= i <= universe@.len(),
            a@.len() == universe@.len(),
            distinct_identities(universe@),
            forall|k: int|
                0 <= k < t@.len() ==> #[trigger] selected_source_upto(
                    t@,
                    a@,
                    universe@,
                    k,
                    i as int,
                ),
            forall|ii: int|
                0 <= ii < i && a@[ii] ==> #[trigger] selection_represented(t@, universe@, ii),
            distinct_identities(t@),
        decreases universe@.len() - i,
    {
        let ghost t0 = t@;
        if a[i] {
            let p = universe[i].clone();
            proof {
                lemma_extract_step(t0, p, a@, universe@, i as int);
            }
            t.push(p);
            proof {
                assert(t@ == t0.push(p));
            }
        } else {
            proof {
                assert forall|k: int| 0 <= k < t@.len() implies #[trigger] selected_source_upto(
                    t@,
                    a@,
                    universe@,
                    k,
                    i + 1,
                ) by {
                    assert(selected_source_upto(t@, a@, universe@, k, i as int));
                    let ii = choose|ii: int|
                        0 <= ii < i && a@[ii] && pkg_equiv(t@[k], universe@[ii]);
                    assert(0 <= ii < i + 1 && a@[ii] && pkg_equiv(t@[k], universe@[ii]));
                }
            }
        }
        i = i + 1;
    }
    proof {
        assert forall|k: int| 0 <= k < t@.len() implies #[trigger] selected_source(
            t@,
            a@,
            universe@,
            k,
        ) by {
            assert(selected_source_upto(t@, a@, universe@, k, universe@.len() as int));
            let ii = choose|ii: int|
                0 <= ii < universe@.len() && a@[ii] && pkg_equiv(t@[k], universe@[ii]);
            assert(0 <= ii < universe@.len() && a@[ii] && pkg_equiv(t@[k], universe@[ii]));
        }
    }
    t
}

/// Determine whether a request can be installed consistently over an
/// already crawled universe.
///
/// Encodes the universe and the request as a CNF formula and interprets
/// the solver's verdict. `Ok` delivers the selected packages; `Err` is
/// definitive: no subset of the universe contains the request, satisfies
/// every dependency of its members and avoids every conflict. A
/// requested package without a universe entry of its identity (for
/// instance one for a foreign architecture) makes the request
/// unsatisfiable.
#[verifier::rlimit(100)]
#[verifier::spinoff_prover]
pub fn solve_universe(packages: &Vec<Package>, universe: &Vec<Package>) -> (result: Result<
    Vec<Package>,
    PackageInstallationError,
>)
    requires
        distinct_identities(universe@),
    ensures
        match result {
            Result::Ok(t) => {
                &&& transaction_from(t@, universe@)
                &&& transaction_requested(t@, packages@)
                &&& transaction_deps_satisfied(t@)
                &&& transaction_conflict_free(t@)
                &&& distinct_identities(t@)
            },
            Result::Err(e) => {
                &&& e == PackageInstallationError::UnableToSolveTransaction
                &&& forall|sel: Seq<bool>| !consistent_selection(sel, universe@, packages@)
            },
        },
{
    let clauses = match build_formula(packages, universe) {
        Result::Ok(cs) => cs,
        Result::Err(e) => {
            return Result::Err(e);
        },
    };
    proof {
        lemma_clauses_ok_wf(clauses@, universe@, packages@);
    }
    let ghost cs = clauses@;
    let num_vars = universe.len();
    let formula = CnfFormula { num_vars, clauses };
    proof {
        assert(formula.clauses@ == cs);
        assert(formula_wf(formula));
    }
    match solve(&formula) {
        Option::Some(a) => {
            proof {
                assert forall|ci: int|
                    0 <= ci < formula.clauses@.len() implies clause_satisfied(
                    a@,
                    #[trigger] formula.clauses@[ci]@,
                ) by {
                    assert(formula_satisfied(a@, formula));
                }
                lemma_model_gives_selection(a@, formula.clauses@, universe@, packages@);
            }
            let t = extract_transaction(&a, universe);
            proof {
                lemma_transaction_valid(t@, a@, universe@, packages@);
                assert(transaction_from(t@, universe@));
            }
            Result::Ok(t)
        },
        Option::None => {
            proof {
                assert forall|sel: Seq<bool>| !consistent_selection(
                    sel,
                    universe@,
                    packages@,
                ) by {
                    if consistent_selection(sel, universe@, packages@) {
                        lemma_selection_satisfies(sel, formula.clauses@, universe@, packages@);
                        assert(formula_satisfied(sel, formula));
                        assert(sel.len() == formula.num_vars);
                        assert(false);
                    }
                }
            }
            Result::Err(PackageInstallationError::UnableToSolveTransaction)
        },
    }
}


/// Determine how a set of packages can be installed without conflicts,
/// if possible.
///
/// Crawls the universe of packages reachable from the request through
/// dependency and conflict requirements against the given repository
/// snapshot, then solves for a consistent transaction. On success the
/// transaction honours the whole request, satisfies every dependency
/// requirement of every member within itself, violates no conflict
/// requirement, contains only packages for the target architecture and
/// no two packages of the same identity. The only failure is the
/// unsatisfiable-transaction error, reported when no consistent set
/// exists — including when a requested package is for a foreign
/// architecture and therefore cannot be installed at all.
pub fn solve_packages(
    packages: &Vec<Package>,
    repositories: &Vec<Repository>,
    target_arch: &String,
) -> (result: Result<Vec<Package>, PackageInstallationError>)
    ensures
        match result {
            Result::Ok(t) => {
                &&& transaction_requested(t@, packages@)
                &&& transaction_deps_satisfied(t@)
                &&& transaction_conflict_free(t@)
                &&& distinct_identities(t@)
                &&& forall|k: int| 0 <= k < t@.len() ==> (#[trigger] t@[k]).arch@ == target_arch@
                &&& forall|k: int|
                    0 <= k < t@.len() ==> from_request_or_repositories(
                        #[trigger] t@[k],
                        packages@,
                        repositories@,
                    )
                &&& forall|j: int|
                    0 <= j < packages@.len() ==> (#[trigger] packages@[j]).arch@ == target_arch@
                &&& exists|u: Seq<Package>|
                    #[trigger] crawl_universe_spec(u, packages@, repositories@, target_arch@)
                        && transaction_from(t@, u)
            },
            Result::Err(e) => {
                &&& e == PackageInstallationError::UnableToSolveTransaction
                &&& exists|u: Seq<Package>|
                    #[trigger] crawl_universe_spec(u, packages@, repositories@, target_arch@) && (
                    forall|sel: Seq<bool>| !consistent_selection(sel, u, packages@))
            },
        },
{
    let universe = crawl_package_tree(packages, repositories, target_arch);
    let result = solve_universe(packages, &universe);
    proof {
        assert(crawl_universe_spec(universe@, packages@, repositories@, target_arch@));
        if let Result::Err(e) = &result {
            assert(forall|sel: Seq<bool>| !consistent_selection(sel, universe@, packages@));
        }
        if let Result::Ok(t) = &result {
            assert(transaction_from(t@, universe@));
            assert forall|k: int| 0 <= k < t@.len() implies (#[trigger] t@[k]).arch@ == target_arch@
                && from_request_or_repositories(t@[k], packages@, repositories@) by {
                assert(in_universe(t@, universe@, k));
                let i = choose|i: int|
                    0 <= i < universe@.len() && pkg_equiv(t@[k], universe@[i]);
                lemma_from_request_equiv(t@[k], universe@[i], packages@, repositories@);
            }
            assert forall|j: int|
                0 <= j < packages@.len() implies (#[trigger] packages@[j]).arch@
                == target_arch@ by {
                assert(identity_in(t@, packages@[j]));
                let w = choose|w: int| 0 <= w < t@.len() && same_identity(t@[w], packages@[j]);
                assert(t@[w].arch@ == target_arch@);
            }
        }
    }
    result
}

} // verus!
