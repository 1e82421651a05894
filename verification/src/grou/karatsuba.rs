//! Karatsuba multiplication: three half-size products in place of four.

use crate::grou::add::{add_limbs, add_slices, lemma_add_limbs_value, longer};
use crate::grou::multiply::{
    can_multiply, lemma_mul_limbs_value, lemma_shift_value, mul_limbs, product_limbs, shift_limbs,
};
use crate::grou::split::{block_of, chunk_len};
use crate::grou::sub::{
    distance_limbs, lemma_distance_value, signed_difference_slices, sub_ordered_slices,
};
use crate::grou::{Grou, GrouSubset};
use crate::model::{
    lemma_canonical, lemma_limb_count_upper, lemma_trimmed_canonical, lemma_value_bound,
    lemma_value_concat, lemma_weight_add, lemma_weight_monotonic, limbs_value, weight, zeros,
};
use vstd::prelude::*;

verus! {

/// The length of the low half when two numbers of `m` and `n` limbs are
/// halved together: half the longer length, rounded up.
pub open spec fn half_len(m: nat, n: nat) -> nat {
    chunk_len(longer(m, n), 2)
}

/// The low `k` limbs.
pub open spec fn low_half(s: Seq<u64>, k: nat) -> Seq<u64> {
    block_of(s, k, 0)
}

/// The limbs above the low half, `k` at most.
pub open spec fn high_half(s: Seq<u64>, k: nat) -> Seq<u64> {
    block_of(s, k, low_half(s, k).len())
}

/// The outer term as the combination builds it, with `high` and `low` the
/// products of the high and of the low halves:
/// `high * weight(2k) + low + (high + low) * weight(k)`.
spec fn karatsuba_outer(a: Seq<u64>, b: Seq<u64>) -> Seq<u64> {
    let k = half_len(a.len(), b.len());
    let high = mul_limbs(high_half(b, k), high_half(a, k));
    let low = mul_limbs(low_half(b, k), low_half(a, k));
    let t0 = shift_limbs(add_limbs(high, low), k);
    let t1 = add_limbs(shift_limbs(high, 2 * k), low);
    add_limbs(t0, t1)
}

/// The middle term as the combination builds it: the product of the
/// distances between the halves of each operand, moved up by `k` places.
spec fn karatsuba_middle(a: Seq<u64>, b: Seq<u64>) -> Seq<u64> {
    let k = half_len(a.len(), b.len());
    let delta_a = distance_limbs(high_half(a, k), low_half(a, k));
    let delta_b = distance_limbs(high_half(b, k), low_half(b, k));
    shift_limbs(mul_limbs(delta_a, delta_b), k)
}

/// The halves of a sequence are no longer than the half length, and the
/// high half is no longer than what the low half leaves.
proof fn lemma_half_lengths(s: Seq<u64>, k: nat)
    ensures
        low_half(s, k).len() <= k,
        high_half(s, k).len() <= k,
        low_half(s, k).len() + high_half(s, k).len() <= s.len(),
        high_half(s, k).len() + k <= longer(s.len(), k),
        limbs_value(low_half(s, k)) < weight(k),
        limbs_value(high_half(s, k)) < weight(k),
{
    lemma_value_bound(low_half(s, k));
    lemma_value_bound(high_half(s, k));
    lemma_weight_monotonic(low_half(s, k).len(), k);
    lemma_weight_monotonic(high_half(s, k).len(), k);
}

/// The distance between two numbers below `weight(k)` has at most `k`
/// limbs, or one where `k` is zero.
proof fn lemma_distance_len(x: Seq<u64>, y: Seq<u64>, k: nat)
    requires
        limbs_value(x) < weight(k),
        limbs_value(y) < weight(k),
    ensures
        1 <= distance_limbs(x, y).len() <= longer(k, 1),
{
    let v = if limbs_value(x) >= limbs_value(y) {
        (limbs_value(x) - limbs_value(y)) as nat
    } else {
        (limbs_value(y) - limbs_value(x)) as nat
    };
    lemma_canonical(v);
    lemma_weight_monotonic(k, longer(k, 1));
    lemma_limb_count_upper(v, longer(k, 1));
}

/// The products of the halves can be indexed whatever the lengths are.
proof fn lemma_halves_can_multiply(m: nat, n: nat, a0: nat, a1: nat, b0: nat, b1: nat)
    requires
        m <= usize::MAX,
        n <= usize::MAX,
        a0 <= half_len(m, n),
        b0 <= half_len(m, n),
        a1 + half_len(m, n) <= longer(m, half_len(m, n)),
        b1 + half_len(m, n) <= longer(n, half_len(m, n)),
    ensures
        can_multiply(b1, a1),
        can_multiply(b0, a0),
        2 * longer(half_len(m, n), 1) - 1 <= usize::MAX,
{
    let top = longer(m, n);
    let k = half_len(m, n);
    assert(2 * k == top || 2 * k == top + 1);
}

/// A number of at most `2k` limbs is its low half plus `weight(k)` times
/// its high half.
proof fn lemma_halves_value(s: Seq<u64>, k: nat)
    requires
        s.len() <= 2 * k,
    ensures
        limbs_value(s) == limbs_value(low_half(s, k)) + weight(k) * limbs_value(high_half(s, k)),
{
    let low = low_half(s, k);
    let high = high_half(s, k);
    assert(s =~= low + high);
    lemma_value_concat(low, high);
    if s.len() <= k {
        assert(high.len() == 0);
        assert(weight(k) * 0 == 0);
        assert(weight(low.len()) * 0 == 0);
    }
}

/// The identity that Karatsuba multiplication rests on.
proof fn lemma_karatsuba_identity(a0: int, a1: int, b0: int, b1: int, w: int)
    ensures
        (a0 + w * a1) * (b0 + w * b1) == (a1 * b1) * (w * w) + a0 * b0 + (a1 * b1 + a0 * b0 - (a1
            - a0) * (b1 - b0)) * w,
{
    assert((a0 + w * a1) * (b0 + w * b1) == a0 * b0 + a0 * (w * b1) + (w * a1) * b0 + (w * a1) * (w
        * b1)) by (nonlinear_arith);
    assert((w * a1) * (w * b1) == (a1 * b1) * (w * w)) by (nonlinear_arith);
    assert(a0 * (w * b1) == (a0 * b1) * w) by (nonlinear_arith);
    assert((w * a1) * b0 == (a1 * b0) * w) by (nonlinear_arith);
    assert((a1 - a0) * (b1 - b0) == a1 * b1 - a1 * b0 - a0 * b1 + a0 * b0) by (nonlinear_arith);
    assert((a1 * b1 + a0 * b0 - (a1 * b1 - a1 * b0 - a0 * b1 + a0 * b0)) * w == (a0 * b1) * w + (a1
        * b0) * w) by (nonlinear_arith);
}

/// The product of the distances is the product of the differences where
/// these have one sign or one is zero, and its negative where they have
/// opposite signs.
proof fn lemma_distance_product(da: int, db: int, x: int, y: int)
    requires
        da == x || da == -x,
        da >= 0,
        db == y || db == -y,
        db >= 0,
    ensures
        ((x >= 0 && y >= 0) || (x <= 0 && y <= 0)) ==> da * db == x * y,
        ((x > 0 && y < 0) || (x < 0 && y > 0)) ==> da * db == -(x * y) && da * db > 0,
{
    assert((-x) * (-y) == x * y) by (nonlinear_arith);
    assert((-x) * y == -(x * y)) by (nonlinear_arith);
    assert(x * (-y) == -(x * y)) by (nonlinear_arith);
    if x > 0 && y < 0 {
        assert(x * (-y) > 0) by (nonlinear_arith)
            requires
                x > 0,
                -y > 0,
        ;
    }
    if x < 0 && y > 0 {
        assert((-x) * y > 0) by (nonlinear_arith)
            requires
                -x > 0,
                y > 0,
        ;
    }
    if x == 0 {
        assert(0 * y == 0);
        assert(0 * db == 0);
    }
    if y == 0 {
        assert(x * 0 == 0);
        assert(da * 0 == 0);
    }
}

/// What the two terms of the combination stand for: with `w = weight(k)`,
/// `high` and `low` the products of the high and of the low halves, the
/// outer term is `high * w * w + low + (high + low) * w`, and the middle
/// term is the product of the distances between the halves times `w`.
proof fn lemma_karatsuba_terms(a: Seq<u64>, b: Seq<u64>)
    ensures
        ({
            let k = half_len(a.len(), b.len());
            let w = weight(k);
            let a0 = limbs_value(low_half(a, k));
            let a1 = limbs_value(high_half(a, k));
            let b0 = limbs_value(low_half(b, k));
            let b1 = limbs_value(high_half(b, k));
            let da = limbs_value(distance_limbs(high_half(a, k), low_half(a, k)));
            let db = limbs_value(distance_limbs(high_half(b, k), low_half(b, k)));
            &&& limbs_value(karatsuba_outer(a, b)) == (a1 * b1) * (w * w) + a0 * b0 + (a1 * b1 + a0
                * b0) * w
            &&& limbs_value(karatsuba_middle(a, b)) == (da * db) * w
            &&& karatsuba_middle(a, b).len() >= 1
        }),
{
    let k = half_len(a.len(), b.len());
    let w = weight(k);
    let a0 = limbs_value(low_half(a, k));
    let a1 = limbs_value(high_half(a, k));
    let b0 = limbs_value(low_half(b, k));
    let b1 = limbs_value(high_half(b, k));
    let high = mul_limbs(high_half(b, k), high_half(a, k));
    let low = mul_limbs(low_half(b, k), low_half(a, k));
    lemma_mul_limbs_value(high_half(b, k), high_half(a, k));
    lemma_mul_limbs_value(low_half(b, k), low_half(a, k));
    assert(b1 * a1 == a1 * b1) by (nonlinear_arith);
    assert(b0 * a0 == a0 * b0) by (nonlinear_arith);
    let sum = add_limbs(high, low);
    lemma_add_limbs_value(high, low);
    let t0 = shift_limbs(sum, k);
    lemma_shift_value(sum, k);
    let moved = shift_limbs(high, 2 * k);
    lemma_shift_value(high, 2 * k);
    lemma_weight_add(k, k);
    let t1 = add_limbs(moved, low);
    lemma_add_limbs_value(moved, low);
    lemma_add_limbs_value(t0, t1);
    assert(w * (a1 * b1 + a0 * b0) == (a1 * b1 + a0 * b0) * w) by (nonlinear_arith);
    assert((w * w) * (a1 * b1) == (a1 * b1) * (w * w)) by (nonlinear_arith);

    let delta_a = distance_limbs(high_half(a, k), low_half(a, k));
    let delta_b = distance_limbs(high_half(b, k), low_half(b, k));
    lemma_distance_value(high_half(a, k), low_half(a, k));
    lemma_distance_value(high_half(b, k), low_half(b, k));
    let mid = mul_limbs(delta_a, delta_b);
    lemma_mul_limbs_value(delta_a, delta_b);
    lemma_canonical(limbs_value(delta_a) * limbs_value(delta_b));
    lemma_shift_value(mid, k);
    assert(w * (limbs_value(delta_a) * limbs_value(delta_b)) == (limbs_value(delta_a)
        * limbs_value(delta_b)) * w) by (nonlinear_arith);
}

/// The halves at half the longer length cover both operands.
proof fn lemma_half_len_covers(m: nat, n: nat)
    ensures
        m <= 2 * half_len(m, n),
        n <= 2 * half_len(m, n),
{
}

/// The combination gives the product. Where the high half is the smaller
/// in exactly one operand, the outer term plus the middle term is the
/// product; otherwise the middle term is not the larger, and the outer term
/// minus the middle term is the product.
proof fn lemma_karatsuba_product(a: Seq<u64>, b: Seq<u64>)
    ensures
        ({
            let k = half_len(a.len(), b.len());
            let below_a = limbs_value(high_half(a, k)) < limbs_value(low_half(a, k));
            let below_b = limbs_value(high_half(b, k)) < limbs_value(low_half(b, k));
            let outer = limbs_value(karatsuba_outer(a, b));
            let middle = limbs_value(karatsuba_middle(a, b));
            let product = limbs_value(a) * limbs_value(b);
            &&& karatsuba_middle(a, b).len() >= 1
            &&& below_a != below_b ==> outer + middle == product
            &&& below_a == below_b ==> outer >= middle && outer - middle == product
        }),
{
    let k = half_len(a.len(), b.len());
    let w = weight(k) as int;
    let a0 = limbs_value(low_half(a, k)) as int;
    let a1 = limbs_value(high_half(a, k)) as int;
    let b0 = limbs_value(low_half(b, k)) as int;
    let b1 = limbs_value(high_half(b, k)) as int;
    let da = limbs_value(distance_limbs(high_half(a, k), low_half(a, k))) as int;
    let db = limbs_value(distance_limbs(high_half(b, k), low_half(b, k))) as int;
    lemma_half_len_covers(a.len(), b.len());
    lemma_halves_value(a, k);
    lemma_halves_value(b, k);
    lemma_karatsuba_terms(a, b);
    lemma_distance_value(high_half(a, k), low_half(a, k));
    lemma_distance_value(high_half(b, k), low_half(b, k));
    lemma_karatsuba_identity(a0, a1, b0, b1, w);
    lemma_distance_product(da, db, a1 - a0, b1 - b0);
    let outer = limbs_value(karatsuba_outer(a, b)) as int;
    let middle = limbs_value(karatsuba_middle(a, b)) as int;
    let product = limbs_value(a) as int * limbs_value(b) as int;
    let cross = (a1 - a0) * (b1 - b0);
    assert(product == (a0 + w * a1) * (b0 + w * b1));
    assert(outer - cross * w == product) by {
        assert((a1 * b1 + a0 * b0 - cross) * w == (a1 * b1 + a0 * b0) * w - cross * w)
            by (nonlinear_arith);
    }
    if (a1 < a0) != (b1 < b0) {
        assert(da * db == -cross) by {
            if a1 == a0 {
                assert(0 * (b1 - b0) == 0);
            }
            if b1 == b0 {
                assert((a1 - a0) * 0 == 0);
            }
        }
        assert((-cross) * w == -(cross * w)) by (nonlinear_arith);
    } else {
        assert(da * db == cross);
    }
}

/// The outer terms of the combination, from the products of the high and
/// of the low halves: `high * weight(2k) + low + (high + low) * weight(k)`.
fn outer_term(high: Grou, low: &Grou, block_length: usize) -> (r: Grou)
    ensures
        r@ == add_limbs(
            shift_limbs(add_limbs(high@, low@), block_length as nat),
            add_limbs(shift_limbs(high@, 2 * block_length as nat), low@),
        ),
{
    let ghost k = block_length as nat;
    let mut t0 = add_slices(high.as_slice(), low.as_slice());
    let mut t1 = high;
    t1.move_vec_elements_right(block_length);
    t1.move_vec_elements_right(block_length);
    assert(t1@ =~= shift_limbs(high@, 2 * k)) by {
        assert(zeros(k) + (zeros(k) + high@) =~= zeros(2 * k) + high@);
    }
    let t1 = add_slices(t1.as_slice(), low.as_slice());
    t0.move_vec_elements_right(block_length);
    add_slices(t0.as_slice(), t1.as_slice())
}

/// The middle term of the combination, from the halves of both operands,
/// and whether it is added: the signs of the two differences between high
/// and low half are not the same.
fn middle_term(
    a0: &GrouSubset<'_>,
    a1: &GrouSubset<'_>,
    b0: &GrouSubset<'_>,
    b1: &GrouSubset<'_>,
    block_length: usize,
) -> (r: (bool, Grou))
    requires
        limbs_value(a0@) < weight(block_length as nat),
        limbs_value(a1@) < weight(block_length as nat),
        limbs_value(b0@) < weight(block_length as nat),
        limbs_value(b1@) < weight(block_length as nat),
        2 * longer(block_length as nat, 1) - 1 <= usize::MAX,
    ensures
        r.0 == ((limbs_value(a1@) < limbs_value(a0@)) != (limbs_value(b1@) < limbs_value(b0@))),
        r.1@ == shift_limbs(
            mul_limbs(distance_limbs(a1@, a0@), distance_limbs(b1@, b0@)),
            block_length as nat,
        ),
{
    let (sign_a, delta_a) = signed_difference_slices(a1.data, a0.data);
    let (sign_b, delta_b) = signed_difference_slices(b1.data, b0.data);
    proof {
        lemma_distance_len(a1@, a0@, block_length as nat);
        lemma_distance_len(b1@, b0@, block_length as nat);
    }
    let mut t2 = delta_a.subset_all().multiply_straight(&delta_b.subset_all());
    t2.move_vec_elements_right(block_length);
    (sign_a ^ sign_b, t2)
}

impl Grou {
    /// Multiplies two numbers by the Karatsuba combination. Both are cut at
    /// half the longer length `k`, rounded up. With `high` and `low` the
    /// products of the high and of the low halves and `mid` the product of
    /// the distances between the halves of each operand, the outer term is
    /// `high * weight(2k) + low + (high + low) * weight(k)`. The middle term
    /// `mid * weight(k)` is subtracted from it where the differences between
    /// high and low half have one sign in both operands, and added to it
    /// otherwise. The result is the product in canonical form, which is what
    /// the schoolbook product gives for operands that have limbs.
    pub fn karatsuba_mul(&self, rhs: &Grou) -> (r: Grou)
        ensures
            r@ == product_limbs(self@, rhs@),
            limbs_value(r@) == limbs_value(self@) * limbs_value(rhs@),
            (self@.len() > 0 && rhs@.len() > 0) ==> r@ == mul_limbs(self@, rhs@),
    {
        let longest: usize = if self.data.len() >= rhs.data.len() {
            self.data.len()
        } else {
            rhs.data.len()
        };
        let block_length: usize = longest / 2 + longest % 2;
        let ghost k = block_length as nat;
        assert(k == half_len(self@.len(), rhs@.len()));
        let a0 = self.split_off_block(block_length, 0);
        let a1 = self.split_off_block(block_length, a0.data.len());
        let b0 = rhs.split_off_block(block_length, 0);
        let b1 = rhs.split_off_block(block_length, b0.data.len());
        proof {
            lemma_half_lengths(self@, k);
            lemma_half_lengths(rhs@, k);
            lemma_halves_can_multiply(
                self@.len(),
                rhs@.len(),
                a0@.len(),
                a1@.len(),
                b0@.len(),
                b1@.len(),
            );
        }
        let high = b1.multiply_straight(&a1);
        let low = b0.multiply_straight(&a0);
        let outer = outer_term(high, &low, block_length);
        let (sign, middle) = middle_term(&a0, &a1, &b0, &b1, block_length);
        proof {
            assert(outer@ == karatsuba_outer(self@, rhs@));
            assert(middle@ == karatsuba_middle(self@, rhs@));
            lemma_karatsuba_product(self@, rhs@);
            lemma_canonical(limbs_value(self@) * limbs_value(rhs@));
        }
        if sign {
            let mut sum = add_slices(outer.as_slice(), middle.as_slice());
            proof {
                lemma_add_limbs_value(outer@, middle@);
                lemma_trimmed_canonical(sum@);
            }
            sum.trim();
            sum
        } else {
            sub_ordered_slices(outer.as_slice(), middle.as_slice())
        }
    }
}

} // verus!
