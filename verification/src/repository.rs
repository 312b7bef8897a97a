//! Repositories: named, read-only sources of packages.
//!
//! A repository snapshot is handed to the resolver as an already
//! materialised, immutable in-memory value; the resolver never fetches
//! data itself and never mutates a repository.

use vstd::prelude::*;

use crate::package::Package;
use crate::package::pkg_equiv;

verus! {

/// The data associated with a repository.
#[derive(Debug)]
pub struct Repository {
    /// The name of the repository.
    pub name: String,
    /// The description of the repository.
    pub description: String,
    /// The address (URL or IP) of the repository.
    pub address: String,
    /// The packages within this repository; may be absent.
    pub packages: Option<Vec<Package>>,
}

/// The packages of a repository, an empty sequence when the field is
/// absent.
pub open spec fn repo_packages_of(r: Repository) -> Seq<Package> {
    match r.packages {
        Option::Some(v) => v@,
        Option::None => Seq::empty(),
    }
}

impl Clone for Repository {
    /// Cloning keeps the repository's name, description, address and the
    /// data of every package.
    fn clone(&self) -> (out: Self)
        ensures
            out.name@ == self.name@,
            out.description@ == self.description@,
            out.address@ == self.address@,
            repo_packages_of(out).len() == repo_packages_of(*self).len(),
            forall|i: int|
                0 <= i < repo_packages_of(*self).len() ==> pkg_equiv(
                    repo_packages_of(out)[i],
                    repo_packages_of(*self)[i],
                ),
    {
        let packages = match &self.packages {
            Option::Some(v) => {
                let mut out: Vec<Package> = Vec::new();
                let mut i: usize = 0;
                while i < v.len()
                    invariant
                        0 <= i <= v@.len(),
                        out@.len() == i,
                        forall|j: int| 0 <= j < i ==> pkg_equiv(out@[j], v@[j]),
                    decreases v@.len() - i,
                {
                    out.push(v[i].clone());
                    i = i + 1;
                }
                Option::Some(out)
            },
            Option::None => Option::None,
        };
        Repository {
            name: self.name.clone(),
            description: self.description.clone(),
            address: self.address.clone(),
            packages,
        }
    }
}

} // verus!
