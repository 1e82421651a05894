//! Addition with carry propagation.

use crate::grou::{Grou, GrouSubset};
use crate::limb::{bit, lemma_bit_product, limb_add_with_carry};
use crate::model::{
    base, fit_limbs, lemma_fit_determined, lemma_fit_value, lemma_value_bound,
    lemma_weight_monotonic, lemma_value_empty, lemma_value_push,
    lemma_value_single, lemma_value_take_step, lemma_value_update, lemma_weight_positive,
    lemma_weight_step, limbs_value, weight,
};
use vstd::std_specs::ops::AddSpecImpl;
use vstd::prelude::*;

verus! {

/// The larger of two lengths.
pub open spec fn longer(m: nat, n: nat) -> nat {
    if m >= n {
        m
    } else {
        n
    }
}

/// The limbs of the sum of two numbers: as many as the longer operand has,
/// and one more exactly when the sum does not fit in them.
pub open spec fn add_limbs(a: Seq<u64>, b: Seq<u64>) -> Seq<u64> {
    fit_limbs(limbs_value(a) + limbs_value(b), longer(a.len(), b.len()))
}

/// One place of an addition: the invariant of the carry loop moves on.
proof fn lemma_add_step(acc: nat, x: nat, cout: nat, p: nat, q: nat, cin: nat, w: nat, va: nat, vb: nat)
    requires
        acc + cin * w == va + vb,
        x + cout * base() == p + q + cin,
    ensures
        acc + x * w + cout * (base() * w) == (va + p * w) + (vb + q * w),
{
    assert((x + cout * base()) * w == x * w + cout * (base() * w)) by (nonlinear_arith);
    assert((p + q + cin) * w == p * w + q * w + cin * w) by (nonlinear_arith);
}

/// Adds two limb sequences.
pub fn add_slices(a: &[u64], b: &[u64]) -> (r: Grou)
    ensures
        r@ == add_limbs(a@, b@),
        limbs_value(r@) == limbs_value(a@) + limbs_value(b@),
{
    let (large, small) = if a.len() > b.len() {
        (a, b)
    } else {
        (b, a)
    };
    let n: usize = large.len();
    let m: usize = small.len();
    let mut result: Vec<u64> = Vec::with_capacity(n);
    let mut carry = false;
    let mut i: usize = 0;
    while i < m
        invariant
            i <= m <= n,
            n == large@.len(),
            m == small@.len(),
            result@.len() == i,
            limbs_value(result@) + bit(carry) * weight(i as nat) == limbs_value(
                large@.take(i as int),
            ) + limbs_value(small@.take(i as int)),
        decreases m - i,
    {
        let (value, next) = limb_add_with_carry(large[i], small[i], carry);
        proof {
            lemma_value_push(result@, value);
            lemma_value_take_step(large@, i as int);
            lemma_value_take_step(small@, i as int);
            lemma_add_step(
                limbs_value(result@),
                value as nat,
                bit(next),
                large@[i as int] as nat,
                small@[i as int] as nat,
                bit(carry),
                weight(i as nat),
                limbs_value(large@.take(i as int)),
                limbs_value(small@.take(i as int)),
            );
        }
        result.push(value);
        carry = next;
        i += 1;
    }
    assert(small@.take(m as int) =~= small@);
    while i < n
        invariant
            m <= i <= n,
            n == large@.len(),
            result@.len() == i,
            limbs_value(result@) + bit(carry) * weight(i as nat) == limbs_value(
                large@.take(i as int),
            ) + limbs_value(small@),
        decreases n - i,
    {
        let (value, next) = if carry {
            limb_add_with_carry(large[i], 0, carry)
        } else {
            (large[i], false)
        };
        proof {
            lemma_value_push(result@, value);
            lemma_value_take_step(large@, i as int);
            lemma_add_step(
                limbs_value(result@),
                value as nat,
                bit(next),
                large@[i as int] as nat,
                0,
                bit(carry),
                weight(i as nat),
                limbs_value(large@.take(i as int)),
                limbs_value(small@),
            );
        }
        result.push(value);
        carry = next;
        i += 1;
    }
    assert(large@.take(n as int) =~= large@);
    if carry {
        proof {
            lemma_value_push(result@, 1);
            lemma_weight_positive(n as nat);
        }
        result.push(1);
    }
    proof {
        assert(longer(a@.len(), b@.len()) == n);
        lemma_fit_determined(result@, limbs_value(a@) + limbs_value(b@), n as nat);
    }
    Grou { data: result }
}

impl<'a, 'b> core::ops::Add<&'b Grou> for &'a Grou {
    type Output = Grou;

    /// The sum of two numbers, as a number of its own.
    fn add(self, other: &'b Grou) -> (r: Grou)
        ensures
            r@ == add_limbs(self@, other@),
    {
        add_slices(self.data.as_slice(), other.data.as_slice())
    }
}

impl<'a, 'b> AddSpecImpl<&'b Grou> for &'a Grou {
    /// Two numbers with the same limbs need not be the same value of the
    /// type, so what `+` returns is fixed by the postcondition of `add`.
    open spec fn obeys_add_spec() -> bool {
        false
    }

    open spec fn add_req(self, other: &'b Grou) -> bool {
        true
    }

    open spec fn add_spec(self, other: &'b Grou) -> Grou {
        choose|g: Grou| g@ == add_limbs(self@, other@)
    }
}

/// One place of an addition in place: the limb is replaced and the carry
/// moves on.
proof fn lemma_add_small_step(v: nat, v2: nat, d: nat, x: nat, cout: nat, pending: nat, w: nat, total: nat)
    requires
        v + pending * w == total,
        v2 + d * w == v + x * w,
        x + cout * base() == d + pending,
    ensures
        v2 + cout * (base() * w) == total,
{
    assert((x + cout * base()) * w == x * w + cout * (base() * w)) by (nonlinear_arith);
    assert((d + pending) * w == d * w + pending * w) by (nonlinear_arith);
}

impl Grou {
    /// Adds one limb to the number in place. The carry runs up only as far
    /// as it lasts; a limb 1 is appended when it runs off the top.
    pub fn addition_small(&mut self, rhs: u64)
        ensures
            final(self)@ == add_limbs(old(self)@, seq![rhs]),
            limbs_value(final(self)@) == limbs_value(old(self)@) + rhs,
    {
        let n: usize = self.data.len();
        proof {
            lemma_value_single(rhs);
            lemma_weight_step(0);
        }
        if n == 0 {
            self.data.push(rhs);
            proof {
                assert(self.data@ =~= seq![rhs]);
                lemma_value_empty();
                assert(old(self)@ =~= Seq::<u64>::empty());
                lemma_fit_determined(self.data@, rhs as nat, 1);
            }
            return ;
        }
        let ghost total: nat = limbs_value(old(self)@) + rhs as nat;
        let mut carry = false;
        let mut i: usize = 0;
        while i < n && (i == 0 || carry)
            invariant
                i <= n,
                n == self.data@.len(),
                n == old(self)@.len(),
                i == 0 ==> !carry,
                limbs_value(self.data@) + (if i == 0 {
                    rhs as nat
                } else {
                    bit(carry)
                }) * weight(i as nat) == total,
            decreases n - i,
        {
            let local_rhs: u64 = if i == 0 {
                rhs
            } else {
                0
            };
            let (value, next) = limb_add_with_carry(self.data[i], local_rhs, carry);
            proof {
                lemma_value_update(self.data@, i as int, value);
                lemma_weight_step(i as nat);
                lemma_add_small_step(
                    limbs_value(self.data@),
                    limbs_value(self.data@.update(i as int, value)),
                    self.data@[i as int] as nat,
                    value as nat,
                    bit(next),
                    local_rhs as nat + bit(carry),
                    weight(i as nat),
                    total,
                );
            }
            self.data.set(i, value);
            carry = next;
            i += 1;
        }
        proof {
            lemma_bit_product(carry, weight(i as nat));
        }
        if carry {
            proof {
                lemma_value_push(self.data@, 1);
                lemma_weight_positive(n as nat);
                assert(1 * weight(n as nat) == weight(n as nat));
            }
            self.data.push(1);
        }
        proof {
            assert(longer(old(self)@.len(), seq![rhs].len()) == n);
            lemma_fit_determined(self.data@, total, n as nat);
        }
    }
}

impl<'a> core::ops::AddAssign<&'a Grou> for Grou {
    /// Replaces the number by its sum with `other`.
    fn add_assign(&mut self, other: &'a Grou)
        ensures
            final(self)@ == add_limbs(old(self)@, other@),
    {
        let sum = add_slices(self.data.as_slice(), other.data.as_slice());
        *self = sum;
    }
}

impl core::ops::Add<u64> for Grou {
    type Output = Grou;

    /// The sum of a number and one limb.
    fn add(self, rhs: u64) -> (r: Grou)
        ensures
            r@ == add_limbs(self@, seq![rhs]),
    {
        let mut sum = self;
        sum.addition_small(rhs);
        sum
    }
}

impl AddSpecImpl<u64> for Grou {
    /// Two numbers with the same limbs need not be the same value of the
    /// type, so what `+` returns is fixed by the postcondition of `add`.
    open spec fn obeys_add_spec() -> bool {
        false
    }

    open spec fn add_req(self, rhs: u64) -> bool {
        true
    }

    open spec fn add_spec(self, rhs: u64) -> Grou {
        choose|g: Grou| g@ == add_limbs(self@, seq![rhs])
    }
}

impl core::ops::AddAssign<u64> for Grou {
    /// Adds one limb to the number in place.
    fn add_assign(&mut self, rhs: u64)
        ensures
            final(self)@ == add_limbs(old(self)@, seq![rhs]),
    {
        self.addition_small(rhs);
    }
}

impl<'a, 'b, 'c> core::ops::Add<&'c GrouSubset<'b>> for &'a GrouSubset<'a> {
    type Output = Grou;

    /// The sum of the numbers in two windows, as a number of its own.
    fn add(self, other: &'c GrouSubset<'b>) -> (r: Grou)
        ensures
            r@ == add_limbs(self@, other@),
    {
        add_slices(self.data, other.data)
    }
}

impl<'a, 'b, 'c> AddSpecImpl<&'c GrouSubset<'b>> for &'a GrouSubset<'a> {
    /// Two numbers with the same limbs need not be the same value of the
    /// type, so what `+` returns is fixed by the postcondition of `add`.
    open spec fn obeys_add_spec() -> bool {
        false
    }

    open spec fn add_req(self, other: &'c GrouSubset<'b>) -> bool {
        true
    }

    open spec fn add_spec(self, other: &'c GrouSubset<'b>) -> Grou {
        choose|g: Grou| g@ == add_limbs(self@, other@)
    }
}

impl<'a, 'b, 'c> core::ops::Add<&'c Grou> for &'a GrouSubset<'b> {
    type Output = Grou;

    /// The sum of the number in a window and a number, as a number of its
    /// own.
    fn add(self, other: &'c Grou) -> (r: Grou)
        ensures
            r@ == add_limbs(self@, other@),
    {
        add_slices(self.data, other.data.as_slice())
    }
}

impl<'a, 'b, 'c> AddSpecImpl<&'c Grou> for &'a GrouSubset<'b> {
    /// Two numbers with the same limbs need not be the same value of the
    /// type, so what `+` returns is fixed by the postcondition of `add`.
    open spec fn obeys_add_spec() -> bool {
        false
    }

    open spec fn add_req(self, other: &'c Grou) -> bool {
        true
    }

    open spec fn add_spec(self, other: &'c Grou) -> Grou {
        choose|g: Grou| g@ == add_limbs(self@, other@)
    }
}

impl<'a, 'b, 'c> core::ops::Add<&'c GrouSubset<'b>> for &'a Grou {
    type Output = Grou;

    /// The sum of a number and the number in a window, as a number of its
    /// own.
    fn add(self, other: &'c GrouSubset<'b>) -> (r: Grou)
        ensures
            r@ == add_limbs(self@, other@),
    {
        add_slices(self.data.as_slice(), other.data)
    }
}

impl<'a, 'b, 'c> AddSpecImpl<&'c GrouSubset<'b>> for &'a Grou {
    /// Two numbers with the same limbs need not be the same value of the
    /// type, so what `+` returns is fixed by the postcondition of `add`.
    open spec fn obeys_add_spec() -> bool {
        false
    }

    open spec fn add_req(self, other: &'c GrouSubset<'b>) -> bool {
        true
    }

    open spec fn add_spec(self, other: &'c GrouSubset<'b>) -> Grou {
        choose|g: Grou| g@ == add_limbs(self@, other@)
    }
}

/// The sum of two limb sequences stands for the sum of their numbers, and
/// is as long as the longer of them or one limb longer.
pub proof fn lemma_add_limbs_value(a: Seq<u64>, b: Seq<u64>)
    ensures
        limbs_value(add_limbs(a, b)) == limbs_value(a) + limbs_value(b),
        add_limbs(a, b).len() == longer(a.len(), b.len()) || add_limbs(a, b).len() == longer(
            a.len(),
            b.len(),
        ) + 1,
{
    let n = longer(a.len(), b.len());
    lemma_value_bound(a);
    lemma_value_bound(b);
    lemma_weight_monotonic(a.len(), n);
    lemma_weight_monotonic(b.len(), n);
    lemma_weight_step(n);
    lemma_fit_value(limbs_value(a) + limbs_value(b), n);
}

} // verus!
