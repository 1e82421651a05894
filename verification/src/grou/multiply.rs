//! Multiplication: by one limb, multiply-accumulate, and the schoolbook
//! product of two windows.

use crate::grou::add::longer;
use crate::grou::{Grou, GrouSubset};
use crate::limb::{bit, lemma_bit_product, limb_add_with_carry, limb_mul_with_carry};
use crate::model::{
    base, canonical, fit_limbs, lemma_canonical_unique, lemma_fit_determined, lemma_value_concat,
    lemma_value_empty, lemma_value_push, lemma_value_take_step, lemma_value_update,
    lemma_value_zeros, lemma_weight_add, lemma_weight_positive, lemma_weight_step, limbs_value,
    weight, zeros,
};
use vstd::prelude::*;
use vstd::std_specs::ops::MulSpecImpl;

verus! {

/// The limbs of a number times one limb: as many as the number has, and
/// one more exactly when the product does not fit in them.
pub open spec fn scale_limbs(a: Seq<u64>, x: u64) -> Seq<u64> {
    fit_limbs(limbs_value(a) * x as nat, a.len())
}

/// The number that multiply-accumulate leaves in the target:
/// `t + l * x * weight(offset)`.
pub open spec fn mul_add_value(t: Seq<u64>, l: Seq<u64>, x: u64, offset: nat) -> nat {
    limbs_value(t) + limbs_value(l) * x as nat * weight(offset)
}

/// The limbs that multiply-accumulate leaves in the target. The target is
/// first grown with zero limbs to reach the top of the shifted window, and
/// gets one limb more exactly when the result does not fit.
pub open spec fn mul_add_limbs(t: Seq<u64>, l: Seq<u64>, x: u64, offset: nat) -> Seq<u64> {
    let reach = if l.len() == 0 {
        t.len()
    } else {
        longer(t.len(), offset + l.len())
    };
    fit_limbs(mul_add_value(t, l, x, offset), reach)
}

/// The limbs of a number moved up by `shift` places.
pub open spec fn shift_limbs(a: Seq<u64>, shift: nat) -> Seq<u64> {
    zeros(shift) + a
}

/// The product of two numbers in canonical form.
pub open spec fn product_limbs(a: Seq<u64>, b: Seq<u64>) -> Seq<u64> {
    canonical(limbs_value(a) * limbs_value(b))
}

/// The limbs of the schoolbook product of two numbers: the product in
/// canonical form, and no limbs where an operand has none.
pub open spec fn mul_limbs(a: Seq<u64>, b: Seq<u64>) -> Seq<u64> {
    if a.len() == 0 || b.len() == 0 {
        Seq::<u64>::empty()
    } else {
        product_limbs(a, b)
    }
}

/// Whether the places of a product of `m` by `n` limbs can be indexed:
/// the highest place that multiply-accumulate starts from, `n - 1`, plus
/// `m` must fit in a `usize`.
pub open spec fn can_multiply(m: nat, n: nat) -> bool {
    n == 0 || m + n - 1 <= usize::MAX
}

/// Moving a number up by `shift` places multiplies it by `weight(shift)`.
pub proof fn lemma_shift_value(a: Seq<u64>, shift: nat)
    ensures
        limbs_value(shift_limbs(a, shift)) == weight(shift) * limbs_value(a),
        shift_limbs(a, shift).len() == shift + a.len(),
{
    lemma_value_concat(zeros(shift), a);
    lemma_value_zeros(shift);
}

/// One place of a multiplication by a limb: the invariant of the carry
/// loop moves on.
proof fn lemma_scale_step(done: nat, v: nat, cout: nat, d: nat, x: nat, cin: nat, w: nat, prefix: nat)
    requires
        done + cin * w == prefix * x,
        v + cout * base() == d * x + cin,
    ensures
        done + v * w + cout * (base() * w) == (prefix + d * w) * x,
{
    assert((v + cout * base()) * w == v * w + cout * (base() * w)) by (nonlinear_arith);
    assert((d * x + cin) * w == d * w * x + cin * w) by (nonlinear_arith);
    assert((prefix + d * w) * x == prefix * x + d * w * x) by (nonlinear_arith);
}

/// The high limb of `p * q + c` leaves room for one more carry unless the
/// low limb is zero.
proof fn lemma_product_carry_room(p: nat, q: nat, c: nat, low: nat, high: nat)
    requires
        p < base(),
        q < base(),
        c < base(),
        low < base(),
        low + high * base() == p * q + c,
    ensures
        high < base(),
        high + 1 == base() ==> low == 0,
{
    assert(p * q <= (base() - 1) * (base() - 1)) by (nonlinear_arith)
        requires
            p <= base() - 1,
            q <= base() - 1,
    ;
    assert(high * base() <= (base() - 1) * base()) by (nonlinear_arith)
        requires
            low + high * base() == p * q + c,
            p * q <= (base() - 1) * (base() - 1),
            c <= base() - 1,
            low >= 0,
    ;
    assert(high <= base() - 1) by (nonlinear_arith)
        requires
            high * base() <= (base() - 1) * base(),
    ;
    if high + 1 == base() {
        assert(high * base() == (base() - 1) * base()) by (nonlinear_arith)
            requires
                high == base() - 1,
        ;
        assert((base() - 1) * (base() - 1) + (base() - 1) == (base() - 1) * base())
            by (nonlinear_arith);
    }
}

/// One place of multiply-accumulate: the product's low limb goes into the
/// target, and the two carries move on together.
proof fn lemma_mul_add_step(
    v: nat,
    v2: nat,
    d: nat,
    s: nat,
    c2: nat,
    low: nat,
    high: nat,
    p: nat,
    x: nat,
    cin: nat,
    we: nat,
    wo: nat,
    wi: nat,
    t: nat,
    prefix: nat,
)
    requires
        we == wo * wi,
        v + cin * we == t + prefix * x * wo,
        v2 + d * we == v + s * we,
        s + c2 * base() == d + low,
        low + high * base() == p * x + cin,
    ensures
        v2 + (high + c2) * (base() * we) == t + (prefix + p * wi) * x * wo,
{
    assert((s + c2 * base()) * we == s * we + c2 * (base() * we)) by (nonlinear_arith);
    assert((d + low) * we == d * we + low * we) by (nonlinear_arith);
    assert((low + high * base()) * we == low * we + high * (base() * we)) by (nonlinear_arith);
    assert((p * x + cin) * we == p * x * we + cin * we) by (nonlinear_arith);
    assert((high + c2) * (base() * we) == high * (base() * we) + c2 * (base() * we))
        by (nonlinear_arith);
    assert((prefix + p * wi) * x * wo == prefix * x * wo + p * x * we) by (nonlinear_arith)
        requires
            we == wo * wi,
    ;
}

/// One place of the carry that is left after the window.
proof fn lemma_carry_on_step(v: nat, v2: nat, d: nat, s: nat, cout: nat, cin: nat, w: nat, total: nat)
    requires
        v + cin * w == total,
        v2 + d * w == v + s * w,
        s + cout * base() == d + cin,
    ensures
        v2 + cout * (base() * w) == total,
{
    assert((s + cout * base()) * w == s * w + cout * (base() * w)) by (nonlinear_arith);
    assert((d + cin) * w == d * w + cin * w) by (nonlinear_arith);
}

impl Grou {
    /// Multiplies the number by one limb in place; the last carry becomes a
    /// new top limb unless it is zero.
    pub fn multiply_small(&mut self, rhs: u64)
        ensures
            final(self)@ == scale_limbs(old(self)@, rhs),
            limbs_value(final(self)@) == limbs_value(old(self)@) * rhs as nat,
    {
        let n: usize = self.data.len();
        let mut carry: u64 = 0;
        let mut i: usize = 0;
        proof {
            assert(self.data@.take(0) =~= Seq::<u64>::empty());
            assert(0 * weight(0) == 0);
            assert(0 * rhs as nat == 0);
        }
        while i < n
            invariant
                i <= n,
                n == self.data@.len(),
                n == old(self)@.len(),
                forall|j: int| i <= j < n ==> self.data@[j] == old(self)@[j],
                limbs_value(self.data@.take(i as int)) + carry as nat * weight(i as nat)
                    == limbs_value(old(self)@.take(i as int)) * rhs as nat,
            decreases n - i,
        {
            let (value, next) = limb_mul_with_carry(self.data[i], rhs, carry);
            proof {
                let after = self.data@.update(i as int, value);
                assert(after.take(i + 1) =~= self.data@.take(i as int).push(value));
                lemma_value_push(self.data@.take(i as int), value);
                lemma_value_take_step(old(self)@, i as int);
                lemma_weight_step(i as nat);
                lemma_scale_step(
                    limbs_value(self.data@.take(i as int)),
                    value as nat,
                    next as nat,
                    old(self)@[i as int] as nat,
                    rhs as nat,
                    carry as nat,
                    weight(i as nat),
                    limbs_value(old(self)@.take(i as int)),
                );
            }
            self.data.set(i, value);
            carry = next;
            i += 1;
        }
        proof {
            assert(self.data@.take(n as int) =~= self.data@);
            assert(old(self)@.take(n as int) =~= old(self)@);
        }
        if carry > 0 {
            proof {
                lemma_value_push(self.data@, carry);
                let w = weight(n as nat);
                assert(carry as nat * w >= w) by (nonlinear_arith)
                    requires
                        carry >= 1,
                ;
            }
            self.data.push(carry);
        } else {
            assert(0 * weight(n as nat) == 0);
        }
        proof {
            lemma_fit_determined(self.data@, limbs_value(old(self)@) * rhs as nat, n as nat);
        }
    }

    /// Multiplies the window `lhs` by the limb `rhs` and adds the product,
    /// moved up by `offset` places, to the number. The number grows with
    /// zero limbs to reach the top of the moved window, and by one limb more
    /// when the last carry runs off the top. The carry out of the product and
    /// the carry out of the addition into the target are combined at every
    /// place; together they never exceed one limb.
    pub fn add_multiply_result(&mut self, lhs: &GrouSubset<'_>, rhs: u64, offset: usize)
        requires
            offset + lhs@.len() <= usize::MAX,
        ensures
            final(self)@ == mul_add_limbs(old(self)@, lhs@, rhs, offset as nat),
            limbs_value(final(self)@) == mul_add_value(old(self)@, lhs@, rhs, offset as nat),
    {
        let n: usize = lhs.data.len();
        let ghost start: nat = old(self)@.len();
        let ghost base_value: nat = limbs_value(old(self)@);
        let ghost total: nat = mul_add_value(old(self)@, lhs@, rhs, offset as nat);
        let mut carry: u64 = 0;
        let mut i: usize = 0;
        proof {
            assert(lhs@.take(0) =~= Seq::<u64>::empty());
            assert(0 * weight(offset as nat) == 0);
            assert(0 * rhs as nat * weight(offset as nat) == 0) by (nonlinear_arith);
        }
        while i < n
            invariant
                i <= n,
                n == lhs@.len(),
                offset + n <= usize::MAX,
                i == 0 ==> carry == 0,
                self.data@.len() == (if i == 0 {
                    start
                } else {
                    longer(start, (offset + i) as nat)
                }),
                limbs_value(self.data@) + carry as nat * weight((offset + i) as nat) == base_value
                    + limbs_value(lhs@.take(i as int)) * rhs as nat * weight(offset as nat),
            decreases n - i,
        {
            let effective_ind: usize = offset + i;
            while self.data.len() <= effective_ind
                invariant
                    effective_ind == offset + i,
                    start <= self.data@.len() <= longer(start, (effective_ind + 1) as nat),
                    i > 0 ==> self.data@.len() >= offset + i,
                    limbs_value(self.data@) + carry as nat * weight((offset + i) as nat)
                        == base_value + limbs_value(lhs@.take(i as int)) * rhs as nat * weight(
                        offset as nat,
                    ),
                decreases effective_ind + 1 - self.data@.len(),
            {
                proof {
                    lemma_value_push(self.data@, 0);
                    assert(0 * weight(self.data@.len()) == 0);
                }
                self.data.push(0);
            }
            let (low, high) = limb_mul_with_carry(lhs.data[i], rhs, carry);
            let (value, extra) = limb_add_with_carry(self.data[effective_ind], low, false);
            proof {
                lemma_product_carry_room(
                    lhs@[i as int] as nat,
                    rhs as nat,
                    carry as nat,
                    low as nat,
                    high as nat,
                );
                lemma_bit_product(extra, base());
                lemma_value_update(self.data@, effective_ind as int, value);
                lemma_value_take_step(lhs@, i as int);
                lemma_weight_add(offset as nat, i as nat);
                lemma_weight_step((offset + i) as nat);
                lemma_mul_add_step(
                    limbs_value(self.data@),
                    limbs_value(self.data@.update(effective_ind as int, value)),
                    self.data@[effective_ind as int] as nat,
                    value as nat,
                    bit(extra),
                    low as nat,
                    high as nat,
                    lhs@[i as int] as nat,
                    rhs as nat,
                    carry as nat,
                    weight((offset + i) as nat),
                    weight(offset as nat),
                    weight(i as nat),
                    base_value,
                    limbs_value(lhs@.take(i as int)),
                );
            }
            self.data.set(effective_ind, value);
            carry = if extra {
                high + 1
            } else {
                high
            };
            i += 1;
        }
        let ghost reach: nat = if n == 0 {
            start
        } else {
            longer(start, (offset + n) as nat)
        };
        proof {
            assert(lhs@.take(n as int) =~= lhs@);
        }
        let mut current_index: usize = offset + n;
        while carry > 0
            invariant
                carry > 0 ==> current_index <= self.data@.len(),
                carry > 0 ==> self.data@.len() == reach,
                self.data@.len() == reach || self.data@.len() == reach + 1,
                self.data@.len() == reach + 1 ==> total >= weight(reach),
                limbs_value(self.data@) + carry as nat * weight(current_index as nat) == total,
            decreases reach + 1 - current_index, carry,
        {
            let ghost grown = self.data@.len() == current_index;
            if self.data.len() == current_index {
                proof {
                    lemma_value_push(self.data@, 0);
                    assert(0 * weight(self.data@.len()) == 0);
                }
                self.data.push(0);
            }
            let (value, next) = limb_add_with_carry(self.data[current_index], carry, false);
            proof {
                lemma_bit_product(next, base());
                lemma_value_update(self.data@, current_index as int, value);
                lemma_weight_step(current_index as nat);
                lemma_carry_on_step(
                    limbs_value(self.data@),
                    limbs_value(self.data@.update(current_index as int, value)),
                    self.data@[current_index as int] as nat,
                    value as nat,
                    bit(next),
                    carry as nat,
                    weight(current_index as nat),
                    total,
                );
                if grown {
                    assert(!next);
                    let w = weight(reach);
                    lemma_value_push(self.data@.update(current_index as int, value).drop_last(), value);
                    assert(self.data@.update(current_index as int, value) =~= self.data@.update(
                        current_index as int,
                        value,
                    ).drop_last().push(value));
                    assert(value as nat * w >= w) by (nonlinear_arith)
                        requires
                            value >= 1,
                    ;
                    assert(0 * (base() * w) == 0);
                }
            }
            self.data.set(current_index, value);
            assert(current_index < self.data.len());
            carry = if next {
                1
            } else {
                0
            };
            current_index += 1;
        }
        proof {
            assert(0 * weight(current_index as nat) == 0);
            lemma_fit_determined(self.data@, total, reach);
        }
    }

    /// Moves the limbs up by `shift` places and fills the low places with
    /// zero limbs: the number is multiplied by `weight(shift)`.
    pub fn move_vec_elements_right(&mut self, shift: usize)
        ensures
            final(self)@ == shift_limbs(old(self)@, shift as nat),
            limbs_value(final(self)@) == weight(shift as nat) * limbs_value(old(self)@),
    {
        let n: usize = self.data.len();
        let mut moved: Vec<u64> = Vec::new();
        let mut i: usize = 0;
        while i < shift
            invariant
                i <= shift,
                moved@ == zeros(i as nat),
            decreases shift - i,
        {
            moved.push(0);
            assert(moved@ =~= zeros((i + 1) as nat));
            i += 1;
        }
        let mut j: usize = 0;
        while j < n
            invariant
                j <= n,
                n == self.data@.len(),
                moved@ == zeros(shift as nat) + self.data@.take(j as int),
            decreases n - j,
        {
            moved.push(self.data[j]);
            assert(moved@ =~= zeros(shift as nat) + self.data@.take(j + 1));
            j += 1;
        }
        proof {
            assert(self.data@.take(n as int) =~= self.data@);
            lemma_shift_value(self.data@, shift as nat);
        }
        self.data = moved;
    }
}

/// One limb of the right operand more: the product so far grows by the
/// left operand times that limb at its place.
proof fn lemma_straight_step(va: nat, vb: nat, d: nat, w: nat, before: nat)
    requires
        before == va * vb,
    ensures
        before + va * d * w == va * (vb + d * w),
{
    assert(va * (vb + d * w) == va * vb + va * d * w) by (nonlinear_arith);
}

impl<'a> GrouSubset<'a> {
    /// The schoolbook product: every limb of `rhs` times the whole of
    /// `self`, accumulated at the place of that limb, and trimmed at the end.
    pub fn multiply_straight(&self, rhs: &GrouSubset<'_>) -> (r: Grou)
        requires
            can_multiply(self@.len(), rhs@.len()),
        ensures
            r@ == mul_limbs(self@, rhs@),
            limbs_value(r@) == limbs_value(self@) * limbs_value(rhs@),
    {
        let m: usize = rhs.data.len();
        let room: usize = if m <= usize::MAX - self.data.len() {
            self.data.len() + m
        } else {
            usize::MAX
        };
        let mut ret_grou = Grou::empty(room);
        let mut ind: usize = 0;
        proof {
            assert(rhs@.take(0) =~= Seq::<u64>::empty());
            lemma_value_empty();
            assert(limbs_value(self@) * 0 == 0);
        }
        while ind < m
            invariant
                ind <= m,
                m == rhs@.len(),
                can_multiply(self@.len(), m as nat),
                limbs_value(ret_grou@) == limbs_value(self@) * limbs_value(rhs@.take(ind as int)),
                (ind == 0 || self@.len() == 0) ==> ret_grou@.len() == 0,
                (ind > 0 && self@.len() > 0) ==> ret_grou@.len() > 0,
            decreases m - ind,
        {
            let ghost before = ret_grou@;
            proof {
                lemma_value_take_step(rhs@, ind as int);
                lemma_straight_step(
                    limbs_value(self@),
                    limbs_value(rhs@.take(ind as int)),
                    rhs@[ind as int] as nat,
                    weight(ind as nat),
                    limbs_value(before),
                );
                if self@.len() == 0 {
                    assert(0 * rhs@[ind as int] as nat * weight(ind as nat) == 0)
                        by (nonlinear_arith);
                }
            }
            ret_grou.add_multiply_result(self, rhs.data[ind], ind);
            ind += 1;
        }
        proof {
            assert(rhs@.take(m as int) =~= rhs@);
            crate::model::lemma_trimmed(ret_grou@);
            if ret_grou@.len() > 0 {
                lemma_canonical_unique(crate::model::trimmed(ret_grou@));
            }
            if m == 0 {
                assert(limbs_value(rhs@) == 0);
            }
        }
        ret_grou.trim();
        ret_grou
    }
}

impl<'a, 'b, 'c> core::ops::Mul<&'c GrouSubset<'b>> for &'a GrouSubset<'a> {
    type Output = Grou;

    /// The product of the numbers in two windows, as a number of its own.
    fn mul(self, rhs: &'c GrouSubset<'b>) -> (r: Grou)
        ensures
            r@ == mul_limbs(self@, rhs@),
    {
        self.multiply_straight(rhs)
    }
}

impl<'a, 'b, 'c> MulSpecImpl<&'c GrouSubset<'b>> for &'a GrouSubset<'a> {
    /// Two numbers with the same limbs need not be the same value of the
    /// type, so what `*` returns is fixed by the postcondition of `mul`.
    open spec fn obeys_mul_spec() -> bool {
        false
    }

    open spec fn mul_req(self, rhs: &'c GrouSubset<'b>) -> bool {
        can_multiply(self@.len(), rhs@.len())
    }

    open spec fn mul_spec(self, rhs: &'c GrouSubset<'b>) -> Grou {
        choose|g: Grou| g@ == mul_limbs(self@, rhs@)
    }
}

impl core::ops::Mul<u64> for Grou {
    type Output = Grou;

    /// The product of a number and one limb.
    fn mul(self, rhs: u64) -> (r: Grou)
        ensures
            r@ == scale_limbs(self@, rhs),
    {
        let mut product = self;
        product.multiply_small(rhs);
        product
    }
}

impl MulSpecImpl<u64> for Grou {
    /// Two numbers with the same limbs need not be the same value of the
    /// type, so what `*` returns is fixed by the postcondition of `mul`.
    open spec fn obeys_mul_spec() -> bool {
        false
    }

    open spec fn mul_req(self, rhs: u64) -> bool {
        true
    }

    open spec fn mul_spec(self, rhs: u64) -> Grou {
        choose|g: Grou| g@ == scale_limbs(self@, rhs)
    }
}

impl core::ops::MulAssign<u64> for Grou {
    /// Multiplies the number by one limb in place.
    fn mul_assign(&mut self, rhs: u64)
        ensures
            final(self)@ == scale_limbs(old(self)@, rhs),
    {
        self.multiply_small(rhs);
    }
}

/// A limb sequence times one limb stands for the product of the numbers.
pub proof fn lemma_scale_limbs_value(a: Seq<u64>, x: u64)
    ensures
        limbs_value(scale_limbs(a, x)) == limbs_value(a) * x as nat,
        scale_limbs(a, x).len() == a.len() || scale_limbs(a, x).len() == a.len() + 1,
{
    let n = a.len();
    let v = limbs_value(a);
    let w = weight(n);
    crate::model::lemma_value_bound(a);
    lemma_weight_step(n);
    assert(v * x as nat <= base() * w) by (nonlinear_arith)
        requires
            v < w,
            (x as nat) < base(),
    ;
    assert(v * x as nat != base() * w) by (nonlinear_arith)
        requires
            v < w,
            (x as nat) < base(),
    ;
    crate::model::lemma_fit_value(v * x as nat, n);
}

/// The product of two limb sequences stands for the product of their
/// numbers.
pub proof fn lemma_mul_limbs_value(a: Seq<u64>, b: Seq<u64>)
    ensures
        limbs_value(mul_limbs(a, b)) == limbs_value(a) * limbs_value(b),
{
    if a.len() == 0 {
        assert(0 * limbs_value(b) == 0);
    } else if b.len() == 0 {
        assert(limbs_value(a) * 0 == 0);
    } else {
        crate::model::lemma_canonical(limbs_value(a) * limbs_value(b));
    }
}

} // verus!
