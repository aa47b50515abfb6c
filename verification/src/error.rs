//! The error taxonomy of the engine.

use vstd::prelude::*;

verus! {

/// Errors the engine reports.
#[derive(Clone, Copy, PartialEq, Eq, Structural, Debug)]
pub enum Error {
    /// A filesystem read, write or sync failed.
    Io,
    /// An entry cannot be serialized (a length does not fit its field).
    Serialize,
    /// On-disk bytes do not parse back; the segment is corrupt.
    Deserialize,
    /// A compressed block does not decompress; the segment is corrupt.
    Decompress,
}

impl Error {
    /// A short description, one per kind.
    pub fn describe(&self) -> (r: &'static str)
        ensures
            self is Io ==> r@ == "i/o error"@,
            self is Serialize ==> r@ == "serialization failed"@,
            self is Deserialize ==> r@ == "deserialization failed"@,
            self is Decompress ==> r@ == "decompression failed"@,
    {
        match self {
            Error::Io => "i/o error",
            Error::Serialize => "serialization failed",
            Error::Deserialize => "deserialization failed",
            Error::Decompress => "decompression failed",
        }
    }
}

} // verus!
