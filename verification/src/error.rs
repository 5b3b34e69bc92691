use vstd::prelude::*;

verus! {

/// Every way in which a store operation can fail.
#[derive(Clone, Copy, Debug, PartialEq, Eq, Structural)]
pub enum StoreError {
    /// The identifier is malformed or would leave the root.
    InvalidId,
    /// The identifier does not denote an existing entry.
    NotFound,
    /// The folder that should receive a new entry does not exist.
    ParentNotFound,
    /// A note was asked for, the entry is something else.
    NotAFile,
    /// A folder was asked for, the entry is something else.
    NotADirectory,
    /// An entry of that name is already there.
    AlreadyExists,
    /// The folder has children and the deletion was not recursive.
    NotEmpty,
    /// Source and destination do not lie under the same root.
    CrossRootNotAllowed,
    /// A move between volumes was interrupted after copying began.
    PartialMove,
    /// Any other failure of the filesystem, with the system's error code
    /// (0 where the system gave none).
    IoError(i32),
}

/// What the filesystem reported when a step failed.
#[derive(Clone, Copy, Debug, PartialEq, Eq, Structural)]
pub enum IoFailure {
    /// The entry, or a directory on the way to it, is missing.
    Missing,
    /// The name is taken.
    Exists,
    /// A directory stands where a file was expected.
    IsDirectory,
    /// Something else stands where a directory was expected.
    NotDirectory,
    /// The directory still has entries.
    DirectoryNotEmpty,
    /// Source and destination are on different volumes.
    CrossesVolumes,
    /// A directory was to be moved into itself.
    IntoItself,
    /// Anything else, with the system's error code (0 where there is none).
    Other(i32),
}

/// The store error that a filesystem failure is reported as.
pub open spec fn failure_kind(f: IoFailure) -> StoreError {
    match f {
        IoFailure::Missing => StoreError::NotFound,
        IoFailure::Exists => StoreError::AlreadyExists,
        IoFailure::IsDirectory => StoreError::NotAFile,
        IoFailure::NotDirectory => StoreError::NotADirectory,
        IoFailure::DirectoryNotEmpty => StoreError::NotEmpty,
        IoFailure::CrossesVolumes => StoreError::CrossRootNotAllowed,
        IoFailure::IntoItself => StoreError::InvalidId,
        IoFailure::Other(code) => StoreError::IoError(code),
    }
}

impl StoreError {
    /// Reports a failure of the filesystem as a store error, so that a
    /// drift of the disk between observation and step (an entry that
    /// appeared or vanished meanwhile) surfaces as the same kind that the
    /// observation would have given.
    pub fn from_failure(f: IoFailure) -> (e: StoreError)
        ensures
            e == failure_kind(f),
    {
        match f {
            IoFailure::Missing => StoreError::NotFound,
            IoFailure::Exists => StoreError::AlreadyExists,
            IoFailure::IsDirectory => StoreError::NotAFile,
            IoFailure::NotDirectory => StoreError::NotADirectory,
            IoFailure::DirectoryNotEmpty => StoreError::NotEmpty,
            IoFailure::CrossesVolumes => StoreError::CrossRootNotAllowed,
            IoFailure::IntoItself => StoreError::InvalidId,
        IoFailure::IntoItself => StoreError::InvalidId,
            IoFailure::Other(code) => StoreError::IoError(code),
        }
    }

    /// A short message for the user.
    pub fn message(&self) -> (s: &'static str)
        ensures
            s@ == error_text(*self),
    {
        match self {
            StoreError::InvalidId => "invalid identifier",
            StoreError::NotFound => "no such note or folder",
            StoreError::ParentNotFound => "the containing folder does not exist",
            StoreError::NotAFile => "not a note",
            StoreError::NotADirectory => "not a folder",
            StoreError::AlreadyExists => "an entry with that name already exists",
            StoreError::NotEmpty => "the folder is not empty",
            StoreError::CrossRootNotAllowed => "cannot move across roots",
            StoreError::PartialMove => "the move was interrupted; source and partial copy both remain",
            StoreError::IoError(_) => "disk error",
        }
    }
}

/// The text of [`StoreError::message`].
pub open spec fn error_text(e: StoreError) -> Seq<char> {
    match e {
        StoreError::InvalidId => "invalid identifier"@,
        StoreError::NotFound => "no such note or folder"@,
        StoreError::ParentNotFound => "the containing folder does not exist"@,
        StoreError::NotAFile => "not a note"@,
        StoreError::NotADirectory => "not a folder"@,
        StoreError::AlreadyExists => "an entry with that name already exists"@,
        StoreError::NotEmpty => "the folder is not empty"@,
        StoreError::CrossRootNotAllowed => "cannot move across roots"@,
        StoreError::PartialMove => "the move was interrupted; source and partial copy both remain"@,
        StoreError::IoError(_) => "disk error"@,
    }
}

} // verus!
