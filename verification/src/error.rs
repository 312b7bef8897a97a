//! Error types of the resolver and of the repository store boundary.

use vstd::prelude::*;

verus! {

/// Failure when fetching repository data from its store: the snapshot
/// could not be read, decoded or downloaded. Never swallowed — a
/// resolution run does not proceed without a snapshot, since a silently
/// shrunken candidate universe could produce a wrong transaction.
#[derive(Debug)]
pub enum FetchRepositoriesError {
    /// The repository list could not be read.
    UnableToReadRepositoryList,
    /// The repository list could not be deserialised.
    UnableToDeserialiseRepositoryList,
    /// Repository data could not be downloaded from the given address.
    UnableToDownloadRepositoryData(String),
    /// Repository data could not be read from the filesystem.
    UnableToReadRepositoryData,
    /// Repository data from the filesystem could not be deserialised.
    UnableToDeserialiseRepositoryDataFilesystem,
    /// Repository data from the given address could not be deserialised.
    UnableToDeserialiseRepositoryDataInternet(String),
}

/// Failure of a resolution attempt: terminal for the attempt, with no
/// partial install and no retry.
#[derive(Clone, Copy, PartialEq, Eq, Structural, Debug)]
pub enum PackageInstallationError {
    /// The requested packages cannot all be installed without leaving a
    /// dependency unsatisfied or a conflict in place.
    UnableToSolveTransaction,
}

} // verus!
