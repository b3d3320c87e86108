//! The ways in which decoding can fail.

use vstd::prelude::*;

verus! {

/// Why a byte buffer was refused. Every error ends the decoding call that
/// met it; nothing is retried and no partial result is handed out.
#[derive(Clone, Copy, Debug, PartialEq, Eq, Structural)]
pub enum DecodeError {
    /// The input ended before a field or a declared length was satisfied.
    UnexpectedEnd,
    /// The first four bytes are not the class-file sentinel.
    BadMagic,
    /// A constant-pool entry starts with a tag outside the known set. Holds
    /// the tag and the offset of the tag byte in the input.
    UnsupportedConstantTag(u8, usize),
    /// A constant-pool index is zero, lies beyond the pool, or names the
    /// unusable second slot of an eight-byte constant.
    InvalidConstantIndex,
    /// An attribute's name index resolves to an entry that is not `Utf8`.
    InvalidAttributeName,
    /// A structured attribute's fields do not fill its declared length
    /// exactly.
    MalformedAttribute,
    /// `Code` attributes are nested more deeply than the decoder allows.
    RecursionLimitExceeded,
}

} // verus!
