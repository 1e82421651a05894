//! Arbitrary-precision unsigned integers stored as little-endian sequences of
//! 64-bit limbs, with verified addition, subtraction, comparison,
//! multiplication and radix parsing.
//!
//! `model` says what number a sequence of limbs stands for; `limb` holds the
//! arithmetic on single limbs; `grou` holds the number, its borrowed window
//! and their operations; `block_iterator` walks a number block by block;
//! `numeral` and `radix_convert` read numbers from text; `laws` states what
//! holds of the operations together.

pub mod block_iterator;
pub mod error;
pub mod grou;
pub mod laws;
pub mod limb;
pub mod model;
pub mod numeral;
pub mod radix_convert;
