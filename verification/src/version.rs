//! Semantic versions and version requirements.
//!
//! A [`Version`] is the parsed version of a package; a [`VersionReq`] is the
//! range predicate a dependency or conflict places on candidate versions.
//! Matching is a total, deterministic predicate: a requirement whose range
//! could not be parsed matches nothing (it fails closed) and never panics.

use vstd::prelude::*;

verus! {

/// A parsed semantic version: major, minor and patch numbers.
#[derive(Clone, Copy, PartialEq, Eq, Structural, Debug)]
pub struct Version {
    pub major: u64,
    pub minor: u64,
    pub patch: u64,
}

/// The operator of a single version comparator.
#[derive(Clone, Copy, Debug)]
pub enum ComparatorOp {
    /// `=I.J.K` (or the partial forms `=I`, `=I.J`).
    Exact,
    /// `>I.J.K`.
    Greater,
    /// `>=I.J.K`.
    GreaterEq,
    /// `<I.J.K`.
    Less,
    /// `<=I.J.K`.
    LessEq,
    /// `~I.J.K`: same major and minor, patch at least `K`.
    Tilde,
    /// `^I.J.K`: compatible with `I.J.K` under semantic versioning.
    Caret,
    /// `I.*` or `I.J.*`.
    Wildcard,
}

/// One comparator of a version requirement, such as `>=2.0` or `^1.2.3`.
///
/// A missing minor (and then patch) number leaves the corresponding
/// position unconstrained, exactly as in a textual range such as `>=2`.
#[derive(Clone, Copy, Debug)]
pub struct Comparator {
    pub op: ComparatorOp,
    pub major: u64,
    pub minor: Option<u64>,
    pub patch: Option<u64>,
}

/// A version range predicate.
///
/// A well-formed range is the conjunction of its comparators; the empty
/// conjunction (`*`) matches every version. A range that could not be
/// parsed is kept as [`VersionReq::Malformed`] and matches no version at
/// all, so malformed repository data fails closed instead of panicking.
#[derive(Debug)]
pub enum VersionReq {
    Valid(Vec<Comparator>),
    Malformed,
}

/// The comparators of a requirement, or `None` for a malformed range.
pub open spec fn version_req_view(r: VersionReq) -> Option<Seq<Comparator>> {
    match r {
        VersionReq::Valid(cs) => Some(cs@),
        VersionReq::Malformed => None,
    }
}

pub open spec fn spec_matches_exact(c: Comparator, v: Version) -> bool {
    &&& v.major == c.major
    &&& match c.minor {
        Some(m) => v.minor == m,
        None => true,
    }
    &&& match (c.minor, c.patch) {
        (Some(_), Some(p)) => v.patch == p,
        _ => true,
    }
}

pub open spec fn spec_matches_greater(c: Comparator, v: Version) -> bool {
    match (c.minor, c.patch) {
        (None, _) => v.major > c.major,
        (Some(m), None) => v.major > c.major || (v.major == c.major && v.minor > m),
        (Some(m), Some(p)) => v.major > c.major || (v.major == c.major && (v.minor > m || (
        v.minor == m && v.patch > p))),
    }
}

pub open spec fn spec_matches_greater_eq(c: Comparator, v: Version) -> bool {
    match (c.minor, c.patch) {
        (None, _) => v.major >= c.major,
        (Some(m), None) => v.major > c.major || (v.major == c.major && v.minor >= m),
        (Some(m), Some(p)) => v.major > c.major || (v.major == c.major && (v.minor > m || (
        v.minor == m && v.patch >= p))),
    }
}

pub open spec fn spec_matches_less(c: Comparator, v: Version) -> bool {
    match (c.minor, c.patch) {
        (None, _) => v.major < c.major,
        (Some(m), None) => v.major < c.major || (v.major == c.major && v.minor < m),
        (Some(m), Some(p)) => v.major < c.major || (v.major == c.major && (v.minor < m || (
        v.minor == m && v.patch < p))),
    }
}

pub open spec fn spec_matches_less_eq(c: Comparator, v: Version) -> bool {
    match (c.minor, c.patch) {
        (None, _) => v.major <= c.major,
        (Some(m), None) => v.major < c.major || (v.major == c.major && v.minor <= m),
        (Some(m), Some(p)) => v.major < c.major || (v.major == c.major && (v.minor < m || (
        v.minor == m && v.patch <= p))),
    }
}

pub open spec fn spec_matches_tilde(c: Comparator, v: Version) -> bool {
    match (c.minor, c.patch) {
        (None, _) => v.major == c.major,
        (Some(m), None) => v.major == c.major && v.minor == m,
        (Some(m), Some(p)) => v.major == c.major && v.minor == m && v.patch >= p,
    }
}

pub open spec fn spec_matches_caret(c: Comparator, v: Version) -> bool {
    match (c.minor, c.patch) {
        (None, _) => v.major == c.major,
        (Some(m), None) => if c.major == 0 {
            v.major == 0 && v.minor == m
        } else {
            v.major == c.major && v.minor >= m
        },
        (Some(m), Some(p)) => if c.major > 0 {
            v.major == c.major && (v.minor > m || (v.minor == m && v.patch >= p))
        } else if m > 0 {
            v.major == 0 && v.minor == m && v.patch >= p
        } else {
            v.major == 0 && v.minor == 0 && v.patch == p
        },
    }
}

pub open spec fn spec_matches_wildcard(c: Comparator, v: Version) -> bool {
    match c.minor {
        None => v.major == c.major,
        Some(m) => v.major == c.major && v.minor == m,
    }
}

/// Whether version `v` satisfies the single comparator `c`.
pub open spec fn spec_comparator_matches(c: Comparator, v: Version) -> bool {
    match c.op {
        ComparatorOp::Exact => spec_matches_exact(c, v),
        ComparatorOp::Greater => spec_matches_greater(c, v),
        ComparatorOp::GreaterEq => spec_matches_greater_eq(c, v),
        ComparatorOp::Less => spec_matches_less(c, v),
        ComparatorOp::LessEq => spec_matches_less_eq(c, v),
        ComparatorOp::Tilde => spec_matches_tilde(c, v),
        ComparatorOp::Caret => spec_matches_caret(c, v),
        ComparatorOp::Wildcard => spec_matches_wildcard(c, v),
    }
}

/// Whether version `v` satisfies every comparator in `cs`.
pub open spec fn spec_comparators_match(cs: Seq<Comparator>, v: Version) -> bool {
    forall|i: int| 0 <= i < cs.len() ==> spec_comparator_matches(cs[i], v)
}

/// Whether version `v` satisfies the range `r`; a malformed range
/// matches nothing.
pub open spec fn spec_version_req_matches(r: VersionReq, v: Version) -> bool {
    match version_req_view(r) {
        Some(cs) => spec_comparators_match(cs, v),
        None => false,
    }
}

/// Decide whether version `v` satisfies the single comparator `c`.
pub fn comparator_matches(c: &Comparator, v: &Version) -> (b: bool)
    ensures
        b == spec_comparator_matches(*c, *v),
{
    match c.op {
        ComparatorOp::Exact => {
            let minor_ok = match c.minor {
                Some(m) => v.minor == m,
                None => true,
            };
            let patch_ok = match (c.minor, c.patch) {
                (Some(_), Some(p)) => v.patch == p,
                _ => true,
            };
            v.major == c.major && minor_ok && patch_ok
        },
        ComparatorOp::Greater => match (c.minor, c.patch) {
            (None, _) => v.major > c.major,
            (Some(m), None) => v.major > c.major || (v.major == c.major && v.minor > m),
            (Some(m), Some(p)) => v.major > c.major || (v.major == c.major && (v.minor > m || (
            v.minor == m && v.patch > p))),
        },
        ComparatorOp::GreaterEq => match (c.minor, c.patch) {
            (None, _) => v.major >= c.major,
            (Some(m), None) => v.major > c.major || (v.major == c.major && v.minor >= m),
            (Some(m), Some(p)) => v.major > c.major || (v.major == c.major && (v.minor > m || (
            v.minor == m && v.patch >= p))),
        },
        ComparatorOp::Less => match (c.minor, c.patch) {
            (None, _) => v.major < c.major,
            (Some(m), None) => v.major < c.major || (v.major == c.major && v.minor < m),
            (Some(m), Some(p)) => v.major < c.major || (v.major == c.major && (v.minor < m || (
            v.minor == m && v.patch < p))),
        },
        ComparatorOp::LessEq => match (c.minor, c.patch) {
            (None, _) => v.major <= c.major,
            (Some(m), None) => v.major < c.major || (v.major == c.major && v.minor <= m),
            (Some(m), Some(p)) => v.major < c.major || (v.major == c.major && (v.minor < m || (
            v.minor == m && v.patch <= p))),
        },
        ComparatorOp::Tilde => match (c.minor, c.patch) {
            (None, _) => v.major == c.major,
            (Some(m), None) => v.major == c.major && v.minor == m,
            (Some(m), Some(p)) => v.major == c.major && v.minor == m && v.patch >= p,
        },
        ComparatorOp::Caret => match (c.minor, c.patch) {
            (None, _) => v.major == c.major,
            (Some(m), None) => if c.major == 0 {
                v.major == 0 && v.minor == m
            } else {
                v.major == c.major && v.minor >= m
            },
            (Some(m), Some(p)) => if c.major > 0 {
                v.major == c.major && (v.minor > m || (v.minor == m && v.patch >= p))
            } else if m > 0 {
                v.major == 0 && v.minor == m && v.patch >= p
            } else {
                v.major == 0 && v.minor == 0 && v.patch == p
            },
        },
        ComparatorOp::Wildcard => match c.minor {
            None => v.major == c.major,
            Some(m) => v.major == c.major && v.minor == m,
        },
    }
}

/// Decide whether version `v` satisfies the range `r`.
///
/// Total for every input: a malformed range simply yields `false`.
pub fn version_req_matches(r: &VersionReq, v: &Version) -> (b: bool)
    ensures
        b == spec_version_req_matches(*r, *v),
{
    match r {
        VersionReq::Valid(cs) => {
            let mut i: usize = 0;
            while i < cs.len()
                invariant
                    0 <= i <= cs@.len(),
                    version_req_view(*r) == Some(cs@),
                    forall|j: int| 0 <= j < i ==> spec_comparator_matches(cs@[j], *v),
                decreases cs@.len() - i,
            {
                if !comparator_matches(&cs[i], v) {
                    proof {
                        assert(!spec_comparator_matches(cs@[i as int], *v));
                    }
                    return false;
                }
                i = i + 1;
            }
            true
        },
        VersionReq::Malformed => false,
    }
}

impl Clone for VersionReq {
    /// Cloning keeps the comparators of the range exactly.
    fn clone(&self) -> (r: Self)
        ensures
            version_req_view(r) == version_req_view(*self),
    {
        match self {
            VersionReq::Valid(cs) => {
                let mut out: Vec<Comparator> = Vec::new();
                let mut i: usize = 0;
                while i < cs.len()
                    invariant
                        0 <= i <= cs@.len(),
                        out@ == cs@.subrange(0, i as int),
                    decreases cs@.len() - i,
                {
                    out.push(cs[i]);
                    i = i + 1;
                }
                proof {
                    assert(out@ =~= cs@);
                }
                VersionReq::Valid(out)
            },
            VersionReq::Malformed => VersionReq::Malformed,
        }
    }
}

} // verus!
