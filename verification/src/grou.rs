//! The number type and its borrowed window.

use crate::model::{is_trimmed, lemma_trimmed, limbs_value, trimmed};
use vstd::prelude::*;

pub mod add;
pub mod compare;
pub mod karatsuba;
pub mod multiply;
pub mod split;
pub mod sub;

verus! {

/// An unsigned integer of arbitrary size: limbs of 64 bits, least
/// significant first. Any sequence of limbs is a number; high-order zero
/// limbs are allowed and are kept until `trim` removes them.
#[derive(Debug)]
pub struct Grou {
    data: Vec<u64>,
}

impl View for Grou {
    type V = Seq<u64>;

    closed spec fn view(&self) -> Seq<u64> {
        self.data@
    }
}

/// A borrowed window onto consecutive limbs of a number.
#[derive(Clone, Copy, Debug)]
pub struct GrouSubset<'a> {
    /// The limbs in the window, least significant first.
    pub data: &'a [u64],
}

impl<'a> View for GrouSubset<'a> {
    type V = Seq<u64>;

    open spec fn view(&self) -> Seq<u64> {
        self.data@
    }
}

/// Whether two limb sequences are the same, limb for limb.
pub fn same_limbs(a: &[u64], b: &[u64]) -> (r: bool)
    ensures
        r == (a@ == b@),
{
    if a.len() != b.len() {
        return false;
    }
    let mut i: usize = 0;
    while i < a.len()
        invariant
            i <= a@.len(),
            a@.len() == b@.len(),
            a@.take(i as int) == b@.take(i as int),
        decreases a@.len() - i,
    {
        if a[i] != b[i] {
            return false;
        }
        assert(a@.take(i + 1) =~= a@.take(i as int).push(a@[i as int]));
        assert(b@.take(i + 1) =~= b@.take(i as int).push(b@[i as int]));
        i += 1;
    }
    assert(a@ =~= a@.take(i as int));
    assert(b@ =~= b@.take(i as int));
    true
}

impl Clone for Grou {
    /// A number of its own with the same limbs.
    fn clone(&self) -> (r: Grou)
        ensures
            r@ == self@,
    {
        let data = self.data.clone();
        assert(data@ =~= self.data@);
        Grou { data }
    }
}

impl PartialEq for Grou {
    /// Structural equality: the same limbs in the same places.
    fn eq(&self, other: &Grou) -> (r: bool) {
        same_limbs(self.data.as_slice(), other.data.as_slice())
    }
}

impl vstd::std_specs::cmp::PartialEqSpecImpl for Grou {
    open spec fn obeys_eq_spec() -> bool {
        true
    }

    open spec fn eq_spec(&self, other: &Grou) -> bool {
        self@ == other@
    }
}

impl Eq for Grou {

}

impl<'a> PartialEq for GrouSubset<'a> {
    /// Structural equality: the same limbs in the same places.
    fn eq(&self, other: &GrouSubset<'a>) -> (r: bool) {
        same_limbs(self.data, other.data)
    }
}

impl<'a> vstd::std_specs::cmp::PartialEqSpecImpl for GrouSubset<'a> {
    open spec fn obeys_eq_spec() -> bool {
        true
    }

    open spec fn eq_spec(&self, other: &GrouSubset<'a>) -> bool {
        self@ == other@
    }
}

impl From<u64> for Grou {
    /// The number of one limb.
    fn from(small_num: u64) -> (r: Grou)
        ensures
            r@ == seq![small_num],
    {
        let mut data: Vec<u64> = Vec::with_capacity(1);
        data.push(small_num);
        assert(data@ =~= seq![small_num]);
        Grou { data }
    }
}

impl vstd::std_specs::convert::FromSpecImpl<u64> for Grou {
    /// Two numbers with the same limbs need not be the same value of the
    /// type, so what `from` returns is fixed by its own postcondition.
    open spec fn obeys_from_spec() -> bool {
        false
    }

    open spec fn from_spec(small_num: u64) -> Grou {
        choose|g: Grou| g@ == seq![small_num]
    }
}

impl From<Vec<u64>> for Grou {
    /// The number whose limbs are `num`, least significant first.
    fn from(num: Vec<u64>) -> (r: Grou)
        ensures
            r@ == num@,
    {
        Grou { data: num }
    }
}

impl vstd::std_specs::convert::FromSpecImpl<Vec<u64>> for Grou {
    /// Two numbers with the same limbs need not be the same value of the
    /// type, so what `from` returns is fixed by its own postcondition.
    open spec fn obeys_from_spec() -> bool {
        false
    }

    open spec fn from_spec(num: Vec<u64>) -> Grou {
        choose|g: Grou| g@ == num@
    }
}

impl Grou {
    /// A number without limbs; `size` only reserves room.
    pub fn empty(size: usize) -> (r: Grou)
        ensures
            r@ == Seq::<u64>::empty(),
    {
        Grou { data: Vec::with_capacity(size) }
    }

    /// The number of limbs.
    pub fn len(&self) -> (n: usize)
        ensures
            n == self@.len(),
    {
        self.data.len()
    }

    /// The limbs as a slice.
    pub fn as_slice(&self) -> (s: &[u64])
        ensures
            s@ == self@,
    {
        self.data.as_slice()
    }

    /// Drops the high-order zero limbs, of which one stays when the number
    /// has no other limb. The number it stands for is unchanged.
    pub fn trim(&mut self)
        ensures
            final(self)@ == trimmed(old(self)@),
            limbs_value(final(self)@) == limbs_value(old(self)@),
            is_trimmed(final(self)@),
    {
        let mut final_length: usize = self.data.len();
        assert(self.data@.take(final_length as int) =~= self.data@);
        while final_length > 1 && self.data[final_length - 1] == 0
            invariant
                final_length <= self.data@.len(),
                trimmed(self.data@) == trimmed(self.data@.take(final_length as int)),
            decreases final_length,
        {
            assert(self.data@.take(final_length as int).drop_last() =~= self.data@.take(
                final_length - 1,
            ));
            final_length -= 1;
        }
        proof {
            lemma_trimmed(self.data@);
            assert(self.data@.take(self.data@.len() as int) =~= self.data@);
        }
        self.data.truncate(final_length);
    }
}

} // verus!
