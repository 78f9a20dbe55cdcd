//! The ways in which decoding and encoding fail.

use vstd::prelude::*;

verus! {

/// Why a byte stream could not be decoded.
#[derive(Debug, Clone, Copy, PartialEq, Eq, Structural)]
pub enum DecodeError {
    /// Fewer bytes remain than a fixed-width field, a length prefix or a
    /// declared count asks for.
    Truncation,
    /// The bytes of a name or a string are not valid UTF-8.
    MalformedText,
    /// A type id outside 1 to 12 stands where a value is expected.
    UnknownTypeId,
    /// A list or an array declares fewer than one element, or the root of a
    /// document is not a compound.
    StructuralViolation,
}

/// Why a tag could not be encoded.
#[derive(Debug, Clone, Copy, PartialEq, Eq, Structural)]
pub enum EncodeError {
    /// A list has no element, so its element type cannot be told.
    StructuralViolation,
    /// A payload writer was handed a tag of another variant, or the
    /// terminator was handed in as a value.
    VariantMismatch,
}

} // verus!
