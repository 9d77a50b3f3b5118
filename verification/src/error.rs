//! The ways in which a conversion request can be rejected.

use vstd::prelude::*;

verus! {

/// Why a base token or a number literal was rejected.
#[derive(Clone, Copy, Debug, PartialEq, Eq, Structural)]
pub enum ConvertError {
    /// The base token is neither a known alias nor a decimal integer that
    /// fits the machine integer.
    UnparsableBase,
    /// The base token names the integer `base`, which lies outside the
    /// supported range of 2 to 36.
    UnsupportedBase { base: i32 },
    /// The symbol at `position`, counted from the left and starting at zero,
    /// is not a digit of the numeral system in use.
    InvalidDigit { position: usize },
    /// The value of the literal does not fit the machine integer.
    Overflow,
}

} // verus!
