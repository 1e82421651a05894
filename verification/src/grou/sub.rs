//! Subtraction with borrow propagation.

use crate::error::ArithmeticError;
use crate::grou::compare::{compare_slices, Order};
use crate::grou::{Grou, GrouSubset};
use crate::limb::{bit, lemma_bit_product, limb_sub_with_borrow};
use crate::model::{
    base, canonical, lemma_canonical, lemma_canonical_unique, lemma_limbs_determined,
    lemma_trimmed, lemma_value_bound, lemma_value_push, lemma_value_single, lemma_value_split,
    lemma_value_take_step, lemma_weight_positive, limbs_value, to_limbs, trimmed, weight,
};
use vstd::prelude::*;
use vstd::std_specs::ops::SubSpecImpl;

verus! {

/// The limbs of the difference of two numbers, in canonical form.
pub open spec fn sub_limbs(a: Seq<u64>, b: Seq<u64>) -> Seq<u64>
    recommends
        limbs_value(a) >= limbs_value(b),
{
    canonical((limbs_value(a) - limbs_value(b)) as nat)
}

/// The limbs of the distance between two numbers, in canonical form.
pub open spec fn distance_limbs(a: Seq<u64>, b: Seq<u64>) -> Seq<u64> {
    if limbs_value(a) >= limbs_value(b) {
        sub_limbs(a, b)
    } else {
        sub_limbs(b, a)
    }
}

/// One place of a subtraction: the invariant of the borrow loop moves on.
proof fn lemma_sub_step(acc: int, x: int, bout: int, p: int, q: int, bin: int, w: int, va: int, vb: int)
    requires
        acc - bin * w == va - vb,
        x - bout * base() == p - q - bin,
    ensures
        acc + x * w - bout * (base() * w) == (va + p * w) - (vb + q * w),
{
    assert((x - bout * base()) * w == x * w - bout * (base() * w)) by (nonlinear_arith);
    assert((p - q - bin) * w == p * w - q * w - bin * w) by (nonlinear_arith);
}

/// A number below `weight(n)` has no limb set from place `n` on.
proof fn lemma_short_value(s: Seq<u64>, n: int)
    requires
        0 <= n <= s.len(),
        limbs_value(s) < weight(n as nat),
    ensures
        limbs_value(s.take(n)) == limbs_value(s),
{
    lemma_value_split(s, n);
    let w = weight(n as nat);
    let h = limbs_value(s.skip(n));
    assert(h == 0) by (nonlinear_arith)
        requires
            w * h < w,
    ;
    assert(w * 0 == 0);
}

/// Subtracts `b` from `a`, of which `a` stands for the number that is not
/// the smaller, limb by limb over the length of `a`, and trims the result.
pub fn sub_slices(a: &[u64], b: &[u64]) -> (r: Grou)
    requires
        limbs_value(a@) >= limbs_value(b@),
    ensures
        r@ == trimmed(to_limbs((limbs_value(a@) - limbs_value(b@)) as nat, a@.len())),
        limbs_value(r@) == limbs_value(a@) - limbs_value(b@),
        a@.len() > 0 ==> r@ == sub_limbs(a@, b@),
{
    let n: usize = a.len();
    let m: usize = if b.len() < n {
        b.len()
    } else {
        n
    };
    let mut result: Vec<u64> = Vec::with_capacity(n);
    let mut borrow = false;
    let mut i: usize = 0;
    proof {
        assert(a@.take(0) =~= Seq::<u64>::empty());
        assert(b@.take(0) =~= Seq::<u64>::empty());
        assert(bit(false) * weight(0) == 0);
    }
    while i < m
        invariant
            i <= m <= n,
            n == a@.len(),
            m <= b@.len(),
            result@.len() == i,
            limbs_value(result@) - bit(borrow) * weight(i as nat) == limbs_value(
                a@.take(i as int),
            ) - limbs_value(b@.take(i as int)),
        decreases m - i,
    {
        let (value, next) = limb_sub_with_borrow(a[i], b[i], borrow);
        proof {
            lemma_value_push(result@, value);
            lemma_value_take_step(a@, i as int);
            lemma_value_take_step(b@, i as int);
            lemma_sub_step(
                limbs_value(result@) as int,
                value as int,
                bit(next) as int,
                a@[i as int] as int,
                b@[i as int] as int,
                bit(borrow) as int,
                weight(i as nat) as int,
                limbs_value(a@.take(i as int)) as int,
                limbs_value(b@.take(i as int)) as int,
            );
        }
        result.push(value);
        borrow = next;
        i += 1;
    }
    let ghost low = limbs_value(b@.take(m as int));
    while i < n
        invariant
            m <= i <= n,
            n == a@.len(),
            result@.len() == i,
            limbs_value(result@) - bit(borrow) * weight(i as nat) == limbs_value(
                a@.take(i as int),
            ) - low,
        decreases n - i,
    {
        let (value, next) = if borrow {
            limb_sub_with_borrow(a[i], 0, borrow)
        } else {
            (a[i], false)
        };
        proof {
            lemma_value_push(result@, value);
            lemma_value_take_step(a@, i as int);
            lemma_sub_step(
                limbs_value(result@) as int,
                value as int,
                bit(next) as int,
                a@[i as int] as int,
                0,
                bit(borrow) as int,
                weight(i as nat) as int,
                limbs_value(a@.take(i as int)) as int,
                low as int,
            );
        }
        result.push(value);
        borrow = next;
        i += 1;
    }
    proof {
        let diff = (limbs_value(a@) - limbs_value(b@)) as nat;
        assert(a@.take(n as int) =~= a@);
        lemma_value_bound(a@);
        if b@.len() <= n {
            assert(b@.take(m as int) =~= b@);
        } else {
            lemma_short_value(b@, n as int);
        }
        lemma_value_bound(result@);
        lemma_weight_positive(n as nat);
        lemma_bit_product(borrow, weight(n as nat));
        assert(!borrow);
        lemma_limbs_determined(result@, diff, n as nat);
        lemma_trimmed(result@);
        if n > 0 {
            lemma_canonical_unique(trimmed(result@));
        }
    }
    let mut g = Grou { data: result };
    g.trim();
    g
}

/// Subtracts `b` from `a` where that is possible.
pub fn checked_sub_slices(a: &[u64], b: &[u64]) -> (r: Result<Grou, ArithmeticError>)
    ensures
        limbs_value(a@) >= limbs_value(b@) ==> r is Ok && r->Ok_0@ == sub_limbs(a@, b@),
        limbs_value(a@) < limbs_value(b@) ==> r == Err::<Grou, ArithmeticError>(
            ArithmeticError::Underflow,
        ),
{
    match compare_slices(a, b) {
        Order::Less => Err(ArithmeticError::Underflow),
        Order::Equal => {
            proof {
                lemma_zero_canonical();
            }
            Ok(Grou::from(0))
        },
        Order::Greater => {
            proof {
                lemma_value_bound(a@);
                if a@.len() == 0 {
                    assert(limbs_value(a@) == 0);
                }
            }
            Ok(sub_slices(a, b))
        },
    }
}

/// Subtracts `b` from `a`, of which `a` stands for the number that is not
/// the smaller. Equal numbers give the single limb 0 without a pass over the
/// limbs.
pub fn sub_ordered_slices(a: &[u64], b: &[u64]) -> (r: Grou)
    requires
        limbs_value(a@) >= limbs_value(b@),
    ensures
        r@ == sub_limbs(a@, b@),
        limbs_value(r@) == limbs_value(a@) - limbs_value(b@),
{
    proof {
        lemma_canonical((limbs_value(a@) - limbs_value(b@)) as nat);
    }
    match compare_slices(a, b) {
        Order::Equal => {
            proof {
                lemma_zero_canonical();
            }
            Grou::from(0)
        },
        _ => {
            proof {
                if a@.len() == 0 {
                    assert(limbs_value(a@) == 0);
                }
            }
            sub_slices(a, b)
        },
    }
}

/// The difference of two numbers as a sign and a magnitude: whether `a` is
/// the smaller, and the distance between the two.
pub fn signed_difference_slices(a: &[u64], b: &[u64]) -> (r: (bool, Grou))
    ensures
        r.0 == (limbs_value(a@) < limbs_value(b@)),
        r.1@ == distance_limbs(a@, b@),
{
    match compare_slices(a, b) {
        Order::Less => {
            proof {
                if b@.len() == 0 {
                    assert(limbs_value(b@) == 0);
                }
            }
            (true, sub_slices(b, a))
        },
        Order::Equal => {
            proof {
                lemma_zero_canonical();
            }
            (false, Grou::from(0))
        },
        Order::Greater => {
            proof {
                if a@.len() == 0 {
                    assert(limbs_value(a@) == 0);
                }
            }
            (false, sub_slices(a, b))
        },
    }
}

/// The distance between two numbers, and whether they differ.
pub fn sub_with_sign_slices(a: &[u64], b: &[u64]) -> (r: (bool, Grou))
    ensures
        r.0 == (limbs_value(a@) != limbs_value(b@)),
        r.1@ == distance_limbs(a@, b@),
{
    match compare_slices(a, b) {
        Order::Less => {
            proof {
                if b@.len() == 0 {
                    assert(limbs_value(b@) == 0);
                }
            }
            (true, sub_slices(b, a))
        },
        Order::Equal => {
            proof {
                lemma_zero_canonical();
            }
            (false, Grou::from(0))
        },
        Order::Greater => {
            proof {
                if a@.len() == 0 {
                    assert(limbs_value(a@) == 0);
                }
            }
            (true, sub_slices(a, b))
        },
    }
}

/// The canonical form of zero is the single limb 0.
pub proof fn lemma_zero_canonical()
    ensures
        canonical(0) == seq![0u64],
{
    lemma_value_single(0);
    lemma_canonical_unique(seq![0u64]);
}

impl Grou {
    /// The difference `self - other`, or the underflow error where `other`
    /// is the larger number.
    pub fn checked_sub(&self, other: &Grou) -> (r: Result<Grou, ArithmeticError>)
        ensures
            limbs_value(self@) >= limbs_value(other@) ==> r is Ok && r->Ok_0@ == sub_limbs(
                self@,
                other@,
            ),
            limbs_value(self@) < limbs_value(other@) ==> r == Err::<Grou, ArithmeticError>(
                ArithmeticError::Underflow,
            ),
    {
        checked_sub_slices(self.data.as_slice(), other.data.as_slice())
    }

    /// The distance between the two numbers, and whether they differ.
    pub fn sub_with_sign(&self, other: &Grou) -> (r: (bool, Grou))
        ensures
            r.0 == (limbs_value(self@) != limbs_value(other@)),
            r.1@ == distance_limbs(self@, other@),
    {
        sub_with_sign_slices(self.data.as_slice(), other.data.as_slice())
    }
}

impl<'a> GrouSubset<'a> {
    /// The distance between the two numbers, and whether they differ.
    pub fn sub_with_sign(&self, other: &GrouSubset<'_>) -> (r: (bool, Grou))
        ensures
            r.0 == (limbs_value(self@) != limbs_value(other@)),
            r.1@ == distance_limbs(self@, other@),
    {
        sub_with_sign_slices(self.data, other.data)
    }
}

impl<'a, 'b> core::ops::Sub<&'b Grou> for &'a Grou {
    type Output = Grou;

    /// The difference of two numbers of which the first is not the smaller.
    fn sub(self, other: &'b Grou) -> (r: Grou)
        ensures
            r@ == sub_limbs(self@, other@),
    {
        sub_ordered_slices(self.data.as_slice(), other.data.as_slice())
    }
}

impl<'a, 'b> SubSpecImpl<&'b Grou> for &'a Grou {
    /// Two numbers with the same limbs need not be the same value of the
    /// type, so what `-` returns is fixed by the postcondition of `sub`.
    open spec fn obeys_sub_spec() -> bool {
        false
    }

    open spec fn sub_req(self, other: &'b Grou) -> bool {
        limbs_value(self@) >= limbs_value(other@)
    }

    open spec fn sub_spec(self, other: &'b Grou) -> Grou {
        choose|g: Grou| g@ == sub_limbs(self@, other@)
    }
}

/// The distance between two numbers stands for their difference without
/// its sign.
pub proof fn lemma_distance_value(x: Seq<u64>, y: Seq<u64>)
    ensures
        limbs_value(x) >= limbs_value(y) ==> limbs_value(distance_limbs(x, y)) == limbs_value(x)
            - limbs_value(y),
        limbs_value(x) < limbs_value(y) ==> limbs_value(distance_limbs(x, y)) == limbs_value(y)
            - limbs_value(x),
        distance_limbs(x, y).len() >= 1,
{
    if limbs_value(x) >= limbs_value(y) {
        lemma_canonical((limbs_value(x) - limbs_value(y)) as nat);
    } else {
        lemma_canonical((limbs_value(y) - limbs_value(x)) as nat);
    }
}

} // verus!
