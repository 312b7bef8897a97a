use gany::version::Comparator;
use gany::version::ComparatorOp;
use gany::version::Version;
use gany::version::VersionReq;
use gany::version::version_req_matches;

fn v(major: u64, minor: u64, patch: u64) -> Version {
    Version { major, minor, patch }
}

fn cmp(op: ComparatorOp, major: u64, minor: Option<u64>, patch: Option<u64>) -> Comparator {
    Comparator { op, major, minor, patch }
}

#[test]
fn exact_comparator() {
    let req = VersionReq::Valid(vec![cmp(ComparatorOp::Exact, 1, Some(2), Some(3))]);
    assert!(version_req_matches(&req, &v(1, 2, 3)));
    assert!(!version_req_matches(&req, &v(1, 2, 4)));
    let partial = VersionReq::Valid(vec![cmp(ComparatorOp::Exact, 1, None, None)]);
    assert!(version_req_matches(&partial, &v(1, 9, 9)));
    assert!(!version_req_matches(&partial, &v(2, 0, 0)));
}

#[test]
fn range_with_two_comparators() {
    // ">=1.0, <2.0"
    let req = VersionReq::Valid(vec![
        cmp(ComparatorOp::GreaterEq, 1, Some(0), None),
        cmp(ComparatorOp::Less, 2, Some(0), None),
    ]);
    assert!(version_req_matches(&req, &v(1, 5, 0)));
    assert!(version_req_matches(&req, &v(1, 0, 0)));
    assert!(!version_req_matches(&req, &v(2, 0, 0)));
    assert!(!version_req_matches(&req, &v(0, 9, 0)));
}

#[test]
fn caret_comparator() {
    // "^1.2.3"
    let req = VersionReq::Valid(vec![cmp(ComparatorOp::Caret, 1, Some(2), Some(3))]);
    assert!(version_req_matches(&req, &v(1, 2, 3)));
    assert!(version_req_matches(&req, &v(1, 9, 0)));
    assert!(!version_req_matches(&req, &v(2, 0, 0)));
    assert!(!version_req_matches(&req, &v(1, 2, 2)));
    // "^0.2.3": only patch may move
    let zero = VersionReq::Valid(vec![cmp(ComparatorOp::Caret, 0, Some(2), Some(3))]);
    assert!(version_req_matches(&zero, &v(0, 2, 4)));
    assert!(!version_req_matches(&zero, &v(0, 3, 0)));
    // "^0.0.3": exact
    let pin = VersionReq::Valid(vec![cmp(ComparatorOp::Caret, 0, Some(0), Some(3))]);
    assert!(version_req_matches(&pin, &v(0, 0, 3)));
    assert!(!version_req_matches(&pin, &v(0, 0, 4)));
}

#[test]
fn tilde_comparator() {
    // "~1.2.3"
    let req = VersionReq::Valid(vec![cmp(ComparatorOp::Tilde, 1, Some(2), Some(3))]);
    assert!(version_req_matches(&req, &v(1, 2, 3)));
    assert!(version_req_matches(&req, &v(1, 2, 9)));
    assert!(!version_req_matches(&req, &v(1, 3, 0)));
}

#[test]
fn wildcard_comparator() {
    // "1.*"
    let req = VersionReq::Valid(vec![cmp(ComparatorOp::Wildcard, 1, None, None)]);
    assert!(version_req_matches(&req, &v(1, 7, 7)));
    assert!(!version_req_matches(&req, &v(2, 0, 0)));
    // "1.2.*"
    let narrow = VersionReq::Valid(vec![cmp(ComparatorOp::Wildcard, 1, Some(2), None)]);
    assert!(version_req_matches(&narrow, &v(1, 2, 9)));
    assert!(!version_req_matches(&narrow, &v(1, 3, 0)));
}

#[test]
fn empty_range_matches_everything() {
    let req = VersionReq::Valid(vec![]);
    assert!(version_req_matches(&req, &v(0, 0, 0)));
    assert!(version_req_matches(&req, &v(9, 9, 9)));
}

#[test]
fn malformed_range_matches_nothing() {
    let req = VersionReq::Malformed;
    assert!(!version_req_matches(&req, &v(0, 0, 0)));
    assert!(!version_req_matches(&req, &v(1, 2, 3)));
}
