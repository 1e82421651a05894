//! Windows onto a number: ranges, blocks and near-equal parts.

use crate::grou::{Grou, GrouSubset};
use vstd::arithmetic::div_mod::{
    lemma_div_pos_is_pos, lemma_fundamental_div_mod, lemma_mod_bound,
};
use vstd::prelude::*;
use vstd::slice::slice_subrange;

verus! {

/// The block of at most `length` limbs of `s` that begins at `start`: cut
/// short where the limbs run out, and empty where `start` is past the end.
pub open spec fn block_of(s: Seq<u64>, length: nat, start: nat) -> Seq<u64> {
    if s.len() <= start {
        Seq::<u64>::empty()
    } else if s.len() - start < length {
        s.subrange(start as int, s.len() as int)
    } else {
        s.subrange(start as int, (start + length) as int)
    }
}

/// The length of each part when `len` limbs are cut into `parts` parts:
/// `len / parts`, rounded up.
pub open spec fn chunk_len(len: nat, parts: nat) -> nat
    recommends
        parts > 0,
{
    if len % parts == 0 {
        len / parts
    } else {
        len / parts + 1
    }
}

impl Grou {
    /// The window onto the limbs from `start` up to `end`.
    pub fn subset<'a>(&'a self, start: usize, end: usize) -> (r: GrouSubset<'a>)
        requires
            start <= end <= self@.len(),
        ensures
            r@ == self@.subrange(start as int, end as int),
    {
        GrouSubset { data: slice_subrange(self.data.as_slice(), start, end) }
    }

    /// The window onto all the limbs.
    pub fn subset_all<'a>(&'a self) -> (r: GrouSubset<'a>)
        ensures
            r@ == self@,
    {
        GrouSubset { data: self.data.as_slice() }
    }

    /// The window onto at most `length` limbs that begins at `start`.
    pub fn split_off_block<'a>(&'a self, length: usize, start: usize) -> (r: GrouSubset<'a>)
        ensures
            r@ == block_of(self@, length as nat, start as nat),
    {
        let n: usize = self.data.len();
        if n <= start {
            GrouSubset { data: slice_subrange(self.data.as_slice(), 0, 0) }
        } else if n - start < length {
            GrouSubset { data: slice_subrange(self.data.as_slice(), start, n) }
        } else {
            GrouSubset { data: slice_subrange(self.data.as_slice(), start, start + length) }
        }
    }

    /// The length of each part when the number is cut into `n` parts.
    pub fn chunk_length(&self, n: usize) -> (r: usize)
        requires
            n > 0,
        ensures
            r == chunk_len(self@.len(), n as nat),
    {
        let len: usize = self.data.len();
        if len % n == 0 {
            len / n
        } else {
            proof {
                let q = len as int / n as int;
                lemma_fundamental_div_mod(len as int, n as int);
                lemma_mod_bound(len as int, n as int);
                lemma_div_pos_is_pos(len as int, n as int);
                assert(n >= 2);
                assert(2 * q <= n * q) by (nonlinear_arith)
                    requires
                        n >= 2,
                        q >= 0,
                ;
            }
            len / n + 1
        }
    }

    /// The low and the high half of the number; the low half has the odd
    /// limb.
    pub fn split_2<'a>(&'a self) -> (r: (GrouSubset<'a>, GrouSubset<'a>))
        ensures
            r.0@ == block_of(self@, chunk_len(self@.len(), 2), 0),
            r.1@ == block_of(self@, chunk_len(self@.len(), 2), chunk_len(self@.len(), 2)),
            r.0@ + r.1@ == self@,
            r.0@.len() == chunk_len(self@.len(), 2),
    {
        let k: usize = self.chunk_length(2);
        let parts = (self.split_off_block(k, 0), self.split_off_block(k, k));
        assert(parts.0@ + parts.1@ =~= self@);
        parts
    }

    /// The three parts of the number, low to high, each of
    /// `chunk_len(len, 3)` limbs while the limbs last.
    pub fn split_3<'a>(&'a self) -> (r: (GrouSubset<'a>, GrouSubset<'a>, GrouSubset<'a>))
        ensures
            r.0@ == block_of(self@, chunk_len(self@.len(), 3), 0),
            r.1@ == block_of(self@, chunk_len(self@.len(), 3), chunk_len(self@.len(), 3)),
            r.2@ == block_of(self@, chunk_len(self@.len(), 3), 2 * chunk_len(self@.len(), 3)),
            r.0@ + r.1@ + r.2@ == self@,
    {
        let k: usize = self.chunk_length(3);
        let n: usize = self.data.len();
        assert(k <= n / 3 + 1);
        assert(usize::MAX >= 0xffff_ffff);
        let parts = (
            self.split_off_block(k, 0),
            self.split_off_block(k, k),
            self.split_off_block(k, 2 * k),
        );
        assert(parts.0@ + parts.1@ + parts.2@ =~= self@);
        parts
    }
}

} // verus!
