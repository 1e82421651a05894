//! Walking a number block by block.

use crate::grou::add::longer;
use crate::grou::split::{block_of, chunk_len};
use crate::grou::{Grou, GrouSubset};
use vstd::arithmetic::div_mod::{lemma_div_pos_is_pos, lemma_fundamental_div_mod, lemma_mod_bound};
use vstd::prelude::*;

verus! {

/// A single pass over a number in blocks of one length, low to high. The
/// last block has what is left. A pass over a number without limbs hands
/// out one empty block; a pass with blocks of no length hands out nothing.
pub struct BlockIterator<'iter> {
    number: &'iter Grou,
    block_length: usize,
    current_index: usize,
    finished: bool,
}

impl<'iter> BlockIterator<'iter> {
    /// The limbs of the number that is walked.
    pub closed spec fn limbs(&self) -> Seq<u64> {
        self.number@
    }

    /// The length of a block.
    pub closed spec fn block_len(&self) -> nat {
        self.block_length as nat
    }

    /// The place at which the next block begins.
    pub closed spec fn offset(&self) -> nat {
        self.current_index as nat
    }

    /// Whether the pass is over.
    pub closed spec fn is_finished(&self) -> bool {
        self.finished
    }

    /// What holds of every pass: blocks have a length while the pass lasts,
    /// and the next block begins inside the number, or at its start.
    pub closed spec fn well_formed(&self) -> bool {
        &&& !self.finished ==> self.block_length > 0
        &&& self.current_index <= self.number@.len()
        &&& !self.finished && self.current_index > 0 ==> self.current_index < self.number@.len()
    }

    /// A pass over `number` in blocks of `block_length` limbs, at its start.
    pub fn new(number: &'iter Grou, block_length: usize) -> (r: BlockIterator<'iter>)
        ensures
            r.well_formed(),
            r.limbs() == number@,
            r.block_len() == block_length,
            r.offset() == 0,
            r.is_finished() == (block_length == 0),
    {
        BlockIterator { number, block_length, current_index: 0, finished: block_length == 0 }
    }

    /// The length of a block.
    pub fn len(&self) -> (n: usize)
        ensures
            n == self.block_len(),
    {
        self.block_length
    }

    /// The next block, or nothing when the pass is over. The block begins
    /// where the one before ended; the pass is over once a block has reached
    /// the end of the number.
    pub fn next(&mut self) -> (r: Option<GrouSubset<'iter>>)
        requires
            old(self).well_formed(),
        ensures
            final(self).well_formed(),
            final(self).limbs() == old(self).limbs(),
            final(self).block_len() == old(self).block_len(),
            old(self).is_finished() ==> r.is_none() && final(self).is_finished() && final(self).offset() == old(self).offset(),
            !old(self).is_finished() ==> r.is_some() && r.unwrap()@ == block_of(
                old(self).limbs(),
                old(self).block_len(),
                old(self).offset(),
            ),
            !old(self).is_finished() ==> final(self).is_finished() == (old(self).offset() + old(self).block_len() >= old(self).limbs().len()),
            !old(self).is_finished() && !final(self).is_finished() ==> final(self).offset() == old(self).offset() + old(self).block_len(),
    {
        if self.finished {
            None
        } else {
            let ret_val = self.number.split_off_block(self.block_length, self.current_index);
            let rest: usize = self.number.len() - self.current_index;
            if self.block_length >= rest {
                self.finished = true;
            } else {
                self.current_index = self.current_index + self.block_length;
            }
            Some(ret_val)
        }
    }

    /// The next block of a pass that is not over.
    pub fn unwrap_next(&mut self) -> (r: GrouSubset<'iter>)
        requires
            old(self).well_formed(),
            !old(self).is_finished(),
        ensures
            final(self).well_formed(),
            final(self).limbs() == old(self).limbs(),
            final(self).block_len() == old(self).block_len(),
            r@ == block_of(old(self).limbs(), old(self).block_len(), old(self).offset()),
            final(self).is_finished() == (old(self).offset() + old(self).block_len() >= old(self).limbs().len()),
            !final(self).is_finished() ==> final(self).offset() == old(self).offset() + old(self).block_len(),
    {
        self.next().unwrap()
    }
}

/// The length of a block when the longer of two numbers is cut into
/// `nblocks` blocks: its length divided by `nblocks`, rounded up.
pub fn calculate_block_length(nblocks: usize, g1: &Grou, g2: &Grou) -> (r: usize)
    requires
        nblocks > 0,
    ensures
        r == chunk_len(longer(g1@.len(), g2@.len()), nblocks as nat),
{
    let max_length: usize = if g1.len() >= g2.len() {
        g1.len()
    } else {
        g2.len()
    };
    if max_length % nblocks != 0 {
        proof {
            let q = max_length as int / nblocks as int;
            lemma_fundamental_div_mod(max_length as int, nblocks as int);
            lemma_mod_bound(max_length as int, nblocks as int);
            lemma_div_pos_is_pos(max_length as int, nblocks as int);
            assert(nblocks >= 2);
            assert(2 * q <= nblocks * q) by (nonlinear_arith)
                requires
                    nblocks >= 2,
                    q >= 0,
            ;
        }
        max_length / nblocks + 1
    } else {
        max_length / nblocks
    }
}

} // verus!
