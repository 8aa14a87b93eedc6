//! Errors of reading and writing a REGF hive.

use vstd::prelude::*;

verus! {

/// Errors of reading and writing a REGF hive.
#[derive(Debug, Clone, PartialEq, Eq)]
pub enum RegError {
    /// Base block signature missing ("regf" expected).
    BadSignature,
    /// Invalid header checksum.
    BadChecksum { expected: u32, found: u32 },
    /// Truncated buffer: out-of-bounds read at the given offset.
    Truncated { offset: usize },
    /// Inconsistent cell (size or signature).
    CorruptCell { offset: usize },
    /// No key at the requested path.
    KeyNotFound(String),
    /// No value of that name under the requested key.
    ValueNotFound(String),
    /// Write refused: the hive was not cleanly closed (diverging sequence
    /// numbers, pending transaction log).
    DirtyHive,
    /// Value data too large for the writer (big-data segments are not
    /// produced when writing).
    ValueTooLarge { size: usize, max: usize },
}

/// Result type of the crate.
pub type Result<T> = core::result::Result<T, RegError>;

} // verus!
