use vstd::prelude::*;

verus! {

/// The ways in which an operation of the store can fail.
#[derive(Clone, Copy, Debug, PartialEq, Eq, Structural)]
pub enum StoreError {
    /// The file system refused an open, read, write or sync.
    IoError,
    /// A segment does not consist of whole frames.
    CorruptSegment,
    /// A value is longer than the four-byte length prefix can express.
    ValueTooLarge,
}

} // verus!
