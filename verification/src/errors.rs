//! The error values the library's own logic can produce.

use vstd::prelude::*;

verus! {

/// Why a decode or a grid write failed.
#[derive(Clone, Copy, Debug, PartialEq, Eq, Structural)]
pub enum AmuletError {
    /// A byte at the start of a multi-byte sequence fits no recognised
    /// UTF-8 lead-byte pattern.
    InvalidEncoding,
    /// A multi-byte sequence began well but is not the encoding of exactly
    /// one scalar value, or the input ended inside it.
    DecodeError,
    /// A write would run past the bottom edge of the grid.
    GridOverflow,
    /// The input ended where more bytes were owed.
    IOError,
}

} // verus!
