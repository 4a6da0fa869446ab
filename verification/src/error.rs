//! The error taxonomy of the store.

use vstd::prelude::*;

verus! {

/// Why a store operation could not do its work.
///
/// A typed mutation applied to a value of the wrong variant is *not* an
/// error: it is the "no change" outcome, reported as `None` in the
/// optional-record return shape.
#[derive(Clone, Copy, Debug, PartialEq, Eq, Structural)]
pub enum Error {
    /// A mutation named a key that is not in the key index.
    NotFound,
    /// An insert would violate key uniqueness.
    KeyExists,
    /// An increment or decrement would leave the signed 64-bit range.
    ArithmeticOverflow,
    /// A snapshot payload failed decompression, parsing, or the
    /// cross-structure consistency check during restore.
    SnapshotCorrupt,
}

impl Error {
    /// A short stable name for the error, for an outer layer to log or map.
    pub fn name(&self) -> (r: &'static str)
        ensures
            r@ == match self {
                Error::NotFound => "not_found"@,
                Error::KeyExists => "key_exists"@,
                Error::ArithmeticOverflow => "arithmetic_overflow"@,
                Error::SnapshotCorrupt => "snapshot_corrupt"@,
            },
    {
        match self {
            Error::NotFound => "not_found",
            Error::KeyExists => "key_exists",
            Error::ArithmeticOverflow => "arithmetic_overflow",
            Error::SnapshotCorrupt => "snapshot_corrupt",
        }
    }
}

} // verus!
