use vstd::prelude::*;

pub mod client;
pub mod cursor;
pub mod tree;
pub mod codec;
pub mod decode;
pub mod encode;
pub mod packet;

verus! {

/// Failure conditions reported by the archive layer.
#[derive(Clone, Copy, Debug, PartialEq, Eq, Structural)]
pub enum ArchiveError {
    /// The header's magic bytes or a count field are not plausible.
    MalformedHeader,
    /// The header stream ended before the format said it would.
    UnexpectedEndOfData,
    /// No file or folder in the tree matched the path walked.
    PathNotFound,
    /// The requested range would pass the end of the blob file.
    DataOutOfBounds { offset: u64, length: u64, available: u64 },
    /// The blob file handed back fewer bytes than the entry promised.
    IncompleteRead,
}

} // verus!
