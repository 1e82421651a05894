//! Arithmetic on single limbs, with the carry that links one limb to the next.

use crate::model::base;
use vstd::prelude::*;

verus! {

/// A carry or borrow flag as a number.
pub open spec fn bit(flag: bool) -> nat {
    if flag {
        1
    } else {
        0
    }
}

/// A flag times a number is the number or zero.
pub proof fn lemma_bit_product(flag: bool, w: nat)
    ensures
        bit(flag) * w == (if flag {
            w
        } else {
            0
        }),
{
    if flag {
        assert(1 * w == w);
    } else {
        assert(0 * w == 0);
    }
}

/// Adds two limbs and an incoming carry; gives the low limb of the sum and
/// the outgoing carry.
pub fn limb_add_with_carry(a: u64, b: u64, carry: bool) -> (r: (u64, bool))
    ensures
        r.0 as nat + bit(r.1) * base() == a as nat + b as nat + bit(carry),
{
    let c: u128 = if carry {
        1
    } else {
        0
    };
    let total: u128 = a as u128 + b as u128 + c;
    if total >= 0x1_0000_0000_0000_0000u128 {
        ((total - 0x1_0000_0000_0000_0000u128) as u64, true)
    } else {
        (total as u64, false)
    }
}

/// Subtracts a limb and an incoming borrow from a limb; gives the low limb
/// of the difference and the outgoing borrow.
pub fn limb_sub_with_borrow(a: u64, b: u64, borrow: bool) -> (r: (u64, bool))
    ensures
        r.0 as int - bit(r.1) * base() == a as int - b as int - bit(borrow),
{
    let c: u128 = if borrow {
        1
    } else {
        0
    };
    let taken: u128 = b as u128 + c;
    if a as u128 >= taken {
        ((a as u128 - taken) as u64, false)
    } else {
        ((a as u128 + 0x1_0000_0000_0000_0000u128 - taken) as u64, true)
    }
}

/// Multiplies two limbs and adds an incoming carry; gives the low limb of
/// the result and the outgoing carry, which is the high limb.
pub fn limb_mul_with_carry(a: u64, b: u64, carry: u64) -> (r: (u64, u64))
    ensures
        r.0 as nat + r.1 as nat * base() == a as nat * b as nat + carry as nat,
{
    assert(a as nat * b as nat <= 0xffff_ffff_ffff_ffff * 0xffff_ffff_ffff_ffff) by (nonlinear_arith)
        requires
            a <= 0xffff_ffff_ffff_ffff,
            b <= 0xffff_ffff_ffff_ffff,
    ;
    let total: u128 = a as u128 * b as u128 + carry as u128;
    let low: u128 = total % 0x1_0000_0000_0000_0000u128;
    let high: u128 = total / 0x1_0000_0000_0000_0000u128;
    (low as u64, high as u64)
}

} // verus!
