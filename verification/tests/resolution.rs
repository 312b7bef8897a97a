use gany::error::PackageInstallationError;
use gany::package::Package;
use gany::package::PackageRequirement;
use gany::package::crawl_package_tree;
use gany::package::get_candidate_packages;
use gany::repository::Repository;
use gany::solve::solve_packages;
use gany::version::Comparator;
use gany::version::ComparatorOp;
use gany::version::Version;
use gany::version::VersionReq;

const ARCH: &str = "x86_64";

fn v(major: u64, minor: u64, patch: u64) -> Version {
    Version { major, minor, patch }
}

fn req(name: &str, comparators: Vec<Comparator>) -> PackageRequirement {
    PackageRequirement {
        arch: ARCH.to_string(),
        name: name.to_string(),
        version: VersionReq::Valid(comparators),
        dependencies: None,
        conflicts: None,
    }
}

fn cmp(op: ComparatorOp, major: u64, minor: Option<u64>, patch: Option<u64>) -> Comparator {
    Comparator { op, major, minor, patch }
}

fn pkg(
    name: &str,
    version: Version,
    dependencies: Option<Vec<PackageRequirement>>,
    conflicts: Option<Vec<PackageRequirement>>,
) -> Package {
    Package {
        arch: ARCH.to_string(),
        name: name.to_string(),
        description: String::new(),
        version,
        dependencies,
        conflicts,
        files: vec![],
        keccak: None,
    }
}

fn repo(packages: Vec<Package>) -> Repository {
    Repository {
        name: "core".to_string(),
        description: String::new(),
        address: String::new(),
        packages: Some(packages),
    }
}

fn arch_string() -> String {
    ARCH.to_string()
}

fn contains(t: &[Package], name: &str, version: Version) -> bool {
    t.iter().any(|p| p.arch == ARCH && p.name == name && p.version == version)
}

#[test]
fn editor_scenario_picks_in_range_library() {
    let editor1 = pkg("editor", v(1, 0, 0), None, None);
    let editor2 = pkg(
        "editor",
        v(2, 0, 0),
        Some(vec![req(
            "lib",
            vec![
                cmp(ComparatorOp::GreaterEq, 1, Some(0), None),
                cmp(ComparatorOp::Less, 2, Some(0), None),
            ],
        )]),
        None,
    );
    let lib15 = pkg("lib", v(1, 5, 0), None, None);
    let lib20 = pkg("lib", v(2, 0, 0), None, None);
    let repos = vec![repo(vec![editor1, editor2.clone(), lib15, lib20])];
    let requested = vec![editor2];
    let result = solve_packages(&requested, &repos, &arch_string());
    let t = result.expect("the editor scenario must resolve");
    assert!(contains(&t, "editor", v(2, 0, 0)));
    assert!(contains(&t, "lib", v(1, 5, 0)));
    assert!(!contains(&t, "lib", v(2, 0, 0)));
    assert_eq!(t.len(), 2);
}

#[test]
fn conflicting_request_is_unsatisfiable() {
    let x = pkg("x", v(1, 0, 0), None, None);
    let app = pkg(
        "app",
        v(1, 0, 0),
        Some(vec![req("x", vec![cmp(ComparatorOp::Exact, 1, Some(0), Some(0))])]),
        None,
    );
    let y = pkg(
        "y",
        v(1, 0, 0),
        None,
        Some(vec![req("x", vec![cmp(ComparatorOp::Exact, 1, Some(0), Some(0))])]),
    );
    let repos = vec![repo(vec![x, app.clone(), y.clone()])];
    let requested = vec![app, y];
    let result = solve_packages(&requested, &repos, &arch_string());
    assert!(matches!(result, Err(PackageInstallationError::UnableToSolveTransaction)));
}

#[test]
fn mutual_conflict_is_unsatisfiable() {
    let a = pkg(
        "a",
        v(1, 0, 0),
        None,
        Some(vec![req("b", vec![])]),
    );
    let b = pkg(
        "b",
        v(1, 0, 0),
        None,
        Some(vec![req("a", vec![])]),
    );
    let repos = vec![repo(vec![a.clone(), b.clone()])];
    let result = solve_packages(&vec![a, b], &repos, &arch_string());
    assert!(matches!(result, Err(PackageInstallationError::UnableToSolveTransaction)));
}

#[test]
fn dependency_cycle_terminates_and_dedups() {
    let a = pkg("a", v(1, 0, 0), Some(vec![req("b", vec![])]), None);
    let b = pkg("b", v(1, 0, 0), Some(vec![req("a", vec![])]), None);
    let repos = vec![repo(vec![a.clone(), b.clone()])];
    let universe = crawl_package_tree(&vec![a.clone()], &repos, &arch_string());
    assert_eq!(universe.len(), 2);
    assert!(contains(&universe, "a", v(1, 0, 0)));
    assert!(contains(&universe, "b", v(1, 0, 0)));
    let t = solve_packages(&vec![a], &repos, &arch_string()).expect("cycle must resolve");
    assert!(contains(&t, "a", v(1, 0, 0)));
    assert!(contains(&t, "b", v(1, 0, 0)));
    assert_eq!(t.len(), 2);
}

#[test]
fn foreign_architecture_is_excluded() {
    let mut alien = pkg("tool", v(1, 0, 0), None, None);
    alien.arch = "riscv64".to_string();
    let native = pkg("app", v(1, 0, 0), Some(vec![req("tool", vec![])]), None);
    let repos = vec![repo(vec![alien.clone(), native.clone()])];
    let universe = crawl_package_tree(&vec![native.clone()], &repos, &arch_string());
    assert!(universe.iter().all(|p| p.arch == ARCH));
    assert!(!contains(&universe, "tool", v(1, 0, 0)));
    // The native package's requirement on the foreign-only tool cannot
    // be satisfied, so the request fails rather than installing it.
    let result = solve_packages(&vec![native], &repos, &arch_string());
    assert!(matches!(result, Err(PackageInstallationError::UnableToSolveTransaction)));
    // Requesting the foreign package itself fails too.
    let result = solve_packages(&vec![alien], &repos, &arch_string());
    assert!(matches!(result, Err(PackageInstallationError::UnableToSolveTransaction)));
}

#[test]
fn transaction_is_sound_and_honours_request() {
    let lib = pkg("lib", v(1, 0, 0), None, None);
    let app = pkg("app", v(1, 0, 0), Some(vec![req("lib", vec![])]), None);
    let repos = vec![repo(vec![lib, app.clone()])];
    let t = solve_packages(&vec![app.clone()], &repos, &arch_string()).expect("must resolve");
    // Every requested package appears.
    assert!(contains(&t, "app", v(1, 0, 0)));
    // Every dependency requirement of every member is satisfied within
    // the transaction, and no conflict requirement is.
    for p in &t {
        for d in p.dependencies.iter().flatten() {
            assert!(t.iter().any(|q| q.arch == d.arch && q.name == d.name));
        }
        for c in p.conflicts.iter().flatten() {
            assert!(!t.iter().any(|q| q.arch == c.arch && q.name == c.name));
        }
    }
}

#[test]
fn candidate_lookup_is_idempotent() {
    let lib15 = pkg("lib", v(1, 5, 0), None, None);
    let lib20 = pkg("lib", v(2, 0, 0), None, None);
    let other = pkg("other", v(1, 0, 0), None, None);
    let repos = vec![repo(vec![lib15, lib20, other])];
    let wanted = req("lib", vec![cmp(ComparatorOp::GreaterEq, 1, Some(0), None)]);
    let first = get_candidate_packages(&wanted, &repos);
    let second = get_candidate_packages(&wanted, &repos);
    assert_eq!(first.len(), second.len());
    for p in &first {
        assert!(contains(&second, &p.name, p.version));
    }
    assert_eq!(first.len(), 2);
}

#[test]
fn universe_deduplicates_by_identity() {
    // The same artifact in two repositories, with drifting incidental
    // fields, yields a single universe entry.
    let mut copy1 = pkg("lib", v(1, 0, 0), None, None);
    copy1.description = "from the first repository".to_string();
    let mut copy2 = pkg("lib", v(1, 0, 0), None, None);
    copy2.keccak = Some("00".to_string());
    let app = pkg("app", v(1, 0, 0), Some(vec![req("lib", vec![])]), None);
    let repos = vec![repo(vec![copy1, app.clone()]), repo(vec![copy2])];
    let universe = crawl_package_tree(&vec![app], &repos, &arch_string());
    let libs = universe
        .iter()
        .filter(|p| p.name == "lib" && p.version == v(1, 0, 0))
        .count();
    assert_eq!(libs, 1);
}

#[test]
fn empty_candidate_set_is_not_an_error() {
    let repos = vec![repo(vec![pkg("other", v(1, 0, 0), None, None)])];
    let wanted = req("missing", vec![]);
    let candidates = get_candidate_packages(&wanted, &repos);
    assert!(candidates.is_empty());
}

#[test]
fn self_conflict_forbids_installation() {
    // A package whose conflict requirement matches itself can never be
    // installed; this is legal input and must not panic.
    let selfish = pkg("selfish", v(1, 0, 0), None, Some(vec![req("selfish", vec![])]));
    let repos = vec![repo(vec![selfish.clone()])];
    let result = solve_packages(&vec![selfish], &repos, &arch_string());
    assert!(matches!(result, Err(PackageInstallationError::UnableToSolveTransaction)));
}

#[test]
fn crawl_collects_only_reachable_packages() {
    // A snapshot package no requirement reaches never enters the
    // universe, even though it has the target architecture.
    let lib = pkg("lib", v(1, 0, 0), None, None);
    let app = pkg("app", v(1, 0, 0), Some(vec![req("lib", vec![])]), None);
    let stray = pkg("stray", v(1, 0, 0), None, None);
    let repos = vec![repo(vec![lib, app.clone(), stray])];
    let universe = crawl_package_tree(&vec![app], &repos, &arch_string());
    assert_eq!(universe.len(), 2);
    assert!(contains(&universe, "app", v(1, 0, 0)));
    assert!(contains(&universe, "lib", v(1, 0, 0)));
    assert!(!contains(&universe, "stray", v(1, 0, 0)));
}
