//! Errors of the deduplication pipeline. Format-invariant violations are
//! fatal to the caller; end-of-data is never represented as an error.
use vstd::prelude::*;

verus! {

/// A fatal pipeline error.
#[derive(Clone, Copy, Debug, PartialEq, Eq, Structural)]
pub enum DedupError {
    /// A writer was handed rows for a different column than before.
    ColumnMismatch,
    /// A run file's payload is not a whole number of records.
    CorruptRunFile,
    /// A run file's records are not in natural order.
    UnsortedRunFile,
    /// The compressor or decompressor failed.
    CompressionFailed,
    /// The duplicates-groups payload does not parse.
    CorruptGroupsFile,
    /// A meta payload does not parse.
    CorruptMetaFile,
    /// A filter payload is not a whole number of hashes.
    CorruptFilterFile,
}

} // verus!
