use vstd::prelude::*;
use crate::path::MPath;

verus! {

/// The failures this library reports. Every variant is terminal for the
/// operation that raised it; nothing here is retried.
#[derive(Debug, Clone, PartialEq, Eq)]
pub enum ErrorKind {
    /// A baseline manifest hash did not resolve in the blobstore.
    ManifestMissing(u64),
    /// Path navigation could not reach the addressed location.
    PathNotFound(MPath),
    /// A directory-only mutation was attempted on a non-tree entry.
    NotADirectory,
    /// A subtree that still contains a conflict was saved or merged again.
    UnresolvedConflicts,
    /// A merge-tagged node with no new content was saved.
    UnchangedManifest,
    /// A node that already carries two parents was merged again.
    ManifestAlreadyAMerge(u64, u64),
    /// A flat path map could not be turned into a manifest tree.
    InvalidPathMap,
    /// A byte string was not a well-formed path.
    InvalidPath,
    /// The blobstore refused a write.
    StoreFailure,
}

impl ErrorKind {
    /// A short description, in place of a `Display` impl.
    pub fn describe(&self) -> String {
        match self {
            ErrorKind::ManifestMissing(_) => "manifest missing from the blobstore".to_string(),
            ErrorKind::PathNotFound(_) => "path not found".to_string(),
            ErrorKind::NotADirectory => "not a directory".to_string(),
            ErrorKind::UnresolvedConflicts => "unresolved conflicts".to_string(),
            ErrorKind::UnchangedManifest => "unchanged manifest".to_string(),
            ErrorKind::ManifestAlreadyAMerge(_, _) => "manifest is already a merge".to_string(),
            ErrorKind::InvalidPathMap => "invalid path map".to_string(),
            ErrorKind::InvalidPath => "invalid path".to_string(),
            ErrorKind::StoreFailure => "the blobstore refused a write".to_string(),
        }
    }
}

} // verus!
