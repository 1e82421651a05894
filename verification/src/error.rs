//! What can go wrong.

use vstd::prelude::*;

verus! {

/// A subtraction whose result would lie below zero.
#[derive(Clone, Copy, Debug, PartialEq, Eq, Structural)]
pub enum ArithmeticError {
    Underflow,
}

/// A text that is not a numeral.
#[derive(Clone, Copy, Debug, PartialEq, Eq, Structural)]
pub enum FormatError {
    /// The text holds a character outside ASCII.
    NotAscii,
    /// A packet of the text does not read as a number of one limb in the
    /// base: it has no digit, a character that is no digit of the base, or
    /// a value that one limb cannot hold.
    InvalidPacket,
}

} // verus!
