use vstd::prelude::*;

verus! {

/// Fatal failures: they abort a walk task with no partial output.
///
/// Opening the walked directory and the existing-records lookup during the
/// final diff are the only two operations whose failure is fatal.
#[derive(Clone, PartialEq, Eq, Debug)]
pub enum IndexerError {
    /// The walked directory could not be opened for reading.
    FileIO(String),
    /// The existing-records lookup failed while segregating creates from
    /// updates; proceeding could assign duplicate identities.
    Database(String),
}

/// Non-fatal, per-item failures: recorded and surfaced beside partial
/// results, never aborting the enclosing task.
#[derive(Clone, PartialEq, Eq, Debug)]
pub enum NonCriticalIndexerError {
    /// One entry of the directory stream could not be read.
    FailedDirectoryEntry(String),
    /// A discovered path could not be stat'ed.
    Metadata(String),
    /// The rule engine failed on one entry.
    IndexerRule(String),
    /// A canonical, location-relative path could not be built.
    IsoFilePath(String),
    /// Observed metadata could not be converted for persistence.
    FilePathMetadata(String),
    /// The removal-candidate lookup failed; the walk proceeds with an
    /// empty removal set.
    FetchFilePathsToRemove(String),
    /// A queued subdirectory could not be turned into a child task.
    DispatchKeepWalking(String),
}


/// The mathematical content of a non-fatal error.
pub enum NonCriticalV {
    FailedDirectoryEntry(Seq<char>),
    Metadata(Seq<char>),
    IndexerRule(Seq<char>),
    IsoFilePath(Seq<char>),
    FilePathMetadata(Seq<char>),
    FetchFilePathsToRemove(Seq<char>),
    DispatchKeepWalking(Seq<char>),
}

impl View for NonCriticalIndexerError {
    type V = NonCriticalV;

    open spec fn view(&self) -> NonCriticalV {
        match self {
            NonCriticalIndexerError::FailedDirectoryEntry(m) => NonCriticalV::FailedDirectoryEntry(
                m@,
            ),
            NonCriticalIndexerError::Metadata(m) => NonCriticalV::Metadata(m@),
            NonCriticalIndexerError::IndexerRule(m) => NonCriticalV::IndexerRule(m@),
            NonCriticalIndexerError::IsoFilePath(m) => NonCriticalV::IsoFilePath(m@),
            NonCriticalIndexerError::FilePathMetadata(m) => NonCriticalV::FilePathMetadata(m@),
            NonCriticalIndexerError::FetchFilePathsToRemove(m)
                => NonCriticalV::FetchFilePathsToRemove(m@),
            NonCriticalIndexerError::DispatchKeepWalking(m) => NonCriticalV::DispatchKeepWalking(
                m@,
            ),
        }
    }
}

/// The views of a sequence of non-fatal errors.
pub open spec fn err_views(s: Seq<NonCriticalIndexerError>) -> Seq<NonCriticalV> {
    Seq::new(s.len(), |i: int| s[i]@)
}
} // verus!
