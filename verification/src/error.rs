use vstd::prelude::*;

verus! {

/// The failures a storage operation can surface.
///
/// Path-valued context is carried as a plain `String` so that callers can
/// report which file or directory an operation was about.
#[derive(Debug, PartialEq, Eq)]
pub enum E {
    /// An underlying read, write, create or delete failed; the payload is a
    /// human-readable description supplied by the caller that did the I/O.
    IO(String),
    /// A value, index table or trailer table could not be encoded or decoded.
    Bincode,
    /// `open` was asked for a directory that does not exist.
    PathIsNotFolder(String),
    /// A record's file name could not be derived from its path.
    InvalidPath(String),
    /// `unpack` was asked for an archive file that does not exist.
    PackageFileDoesNotExist(String),
    /// The archive is malformed: too short to hold the leading trailer
    /// pointer, or a payload range runs past the end of the archive.
    PackageFileInvalid(String),
    /// The parent directory of an archive file could not be determined.
    NoParentOfStorageFile,
    /// A bookkeeping limit was exceeded, such as a payload offset that does
    /// not fit in the archive's 64-bit offset fields.
    Unknown,
}

} // verus!
