//! The total order on numbers, which looks through high-order zero limbs.

use crate::grou::{Grou, GrouSubset};
use crate::model::{
    lemma_value_bound, lemma_value_lower_bound, lemma_value_order_by_top, lemma_value_strip,
    lemma_weight_monotonic, limbs_value,
};
use core::cmp::Ordering;
use vstd::prelude::*;

verus! {

/// How one number stands to another.
#[derive(Clone, Copy, Debug, PartialEq, Eq, Structural)]
pub enum Order {
    Less,
    Equal,
    Greater,
}

/// The order of two natural numbers.
pub open spec fn order_of(x: nat, y: nat) -> Order {
    if x < y {
        Order::Less
    } else if x == y {
        Order::Equal
    } else {
        Order::Greater
    }
}

/// The number of limbs of `s` that are left when its high-order zero limbs
/// are stripped.
fn strip_high_zeros(s: &[u64]) -> (n: usize)
    ensures
        n <= s@.len(),
        n > 0 ==> s@[n - 1] != 0,
        forall|i: int| n <= i < s@.len() ==> s@[i] == 0,
{
    let mut n = s.len();
    while n > 0 && s[n - 1] == 0
        invariant
            n <= s@.len(),
            forall|i: int| n <= i < s@.len() ==> s@[i] == 0,
        decreases n,
    {
        n -= 1;
    }
    n
}

/// Compares the numbers that two limb sequences stand for: first by the
/// lengths that are left without high-order zero limbs, then limb by limb
/// from the most significant down.
pub fn compare_slices(a: &[u64], b: &[u64]) -> (r: Order)
    ensures
        r == order_of(limbs_value(a@), limbs_value(b@)),
{
    let la = strip_high_zeros(a);
    let lb = strip_high_zeros(b);
    let ghost sa = a@.take(la as int);
    let ghost sb = b@.take(lb as int);
    proof {
        lemma_value_strip(a@, la as int);
        lemma_value_strip(b@, lb as int);
        lemma_value_bound(sa);
        lemma_value_bound(sb);
    }
    if la < lb {
        proof {
            lemma_value_lower_bound(sb);
            lemma_weight_monotonic(la as nat, (lb - 1) as nat);
        }
        return Order::Less;
    }
    if la > lb {
        proof {
            lemma_value_lower_bound(sa);
            lemma_weight_monotonic(lb as nat, (la - 1) as nat);
        }
        return Order::Greater;
    }
    let mut i = la;
    while i > 0
        invariant
            i <= la,
            la == lb,
            la <= a@.len(),
            lb <= b@.len(),
            sa == a@.take(la as int),
            sb == b@.take(lb as int),
            sa.skip(i as int) == sb.skip(i as int),
            limbs_value(sa) == limbs_value(a@),
            limbs_value(sb) == limbs_value(b@),
        decreases i,
    {
        let x = a[i - 1];
        let y = b[i - 1];
        if x < y {
            proof {
                lemma_value_order_by_top(sa, sb, i - 1);
            }
            return Order::Less;
        }
        if x > y {
            proof {
                lemma_value_order_by_top(sb, sa, i - 1);
            }
            return Order::Greater;
        }
        assert(sa.skip(i - 1) =~= seq![x] + sa.skip(i as int));
        assert(sb.skip(i - 1) =~= seq![y] + sb.skip(i as int));
        i -= 1;
    }
    assert(sa =~= sa.skip(0));
    assert(sb =~= sb.skip(0));
    Order::Equal
}

impl PartialOrd for Grou {
    /// The order of the numbers, whatever high-order zero limbs they carry.
    fn partial_cmp(&self, other: &Grou) -> (r: Option<Ordering>) {
        match compare_slices(self.as_slice(), other.as_slice()) {
            Order::Less => Some(Ordering::Less),
            Order::Equal => Some(Ordering::Equal),
            Order::Greater => Some(Ordering::Greater),
        }
    }
}

impl vstd::std_specs::cmp::PartialOrdSpecImpl for Grou {
    open spec fn obeys_partial_cmp_spec() -> bool {
        true
    }

    open spec fn partial_cmp_spec(&self, other: &Grou) -> Option<Ordering> {
        if limbs_value(self@) < limbs_value(other@) {
            Some(Ordering::Less)
        } else if limbs_value(self@) == limbs_value(other@) {
            Some(Ordering::Equal)
        } else {
            Some(Ordering::Greater)
        }
    }
}

impl<'a> PartialOrd for GrouSubset<'a> {
    /// The order of the numbers, whatever high-order zero limbs they carry.
    fn partial_cmp(&self, other: &GrouSubset<'a>) -> (r: Option<Ordering>) {
        match compare_slices(self.data, other.data) {
            Order::Less => Some(Ordering::Less),
            Order::Equal => Some(Ordering::Equal),
            Order::Greater => Some(Ordering::Greater),
        }
    }
}

impl<'a> vstd::std_specs::cmp::PartialOrdSpecImpl for GrouSubset<'a> {
    open spec fn obeys_partial_cmp_spec() -> bool {
        true
    }

    open spec fn partial_cmp_spec(&self, other: &GrouSubset<'a>) -> Option<Ordering> {
        if limbs_value(self@) < limbs_value(other@) {
            Some(Ordering::Less)
        } else if limbs_value(self@) == limbs_value(other@) {
            Some(Ordering::Equal)
        } else {
            Some(Ordering::Greater)
        }
    }
}

} // verus!
