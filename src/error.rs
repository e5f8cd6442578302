use vstd::prelude::*;

verus! {

/// The kinds of failure the store surfaces to its callers.
#[derive(Debug, Clone, Copy, PartialEq, Eq, Structural)]
pub enum StoreError {
    /// A filesystem read or write failed.
    IoError,
    /// Block header or entry bytes fail to parse.
    CorruptBlock,
    /// The entry index is not below the block's entry count.
    NoSuchEntry,
    /// A block file stem is not a non-negative integer.
    BadFilename,
    /// The store has no dictionary file.
    NoDictionary,
    /// A read was attempted before the dictionary was loaded.
    StoreNotOpen,
    /// Dictionary training failed.
    TrainFailed,
    /// A textual reference did not parse.
    BadRef,
    /// The XML event stream reported an error.
    XmlError,
}

} // verus!
