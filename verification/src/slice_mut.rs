//! Views of bit sets through which bits can be changed.
use crate::block::{
    bit, block_count, blocks_for, div_rem, lemma_below, lemma_blocks_for, lemma_change_bit,
    lemma_scale, lemma_split, lemma_test_bit, Block,
};
use crate::slice::FixedBitSlice;
use crate::storage::{block_set, lemma_member, lemma_put_word};
use vstd::prelude::*;
use vstd::set_lib::set_int_range;

verus! {

/// A mutably borrowed set of bit positions below a fixed bound.
///
/// Changes reach the borrowed words; the fields are public so that contracts can
/// speak of what those words are in the end.
#[derive(Debug)]
pub struct FixedBitSliceMut<'a> {
    /// The words in which the bits are stored.
    pub data: &'a mut [Block],
    /// The number of bits.
    pub bits: usize,
}

/// The set `s` with `i` as a member or not.
pub open spec fn assigned(s: Set<int>, i: int, enabled: bool) -> Set<int> {
    if enabled {
        s.insert(i)
    } else {
        s.remove(i)
    }
}

/// The set `s` with the membership of `i` inverted.
pub open spec fn toggled(s: Set<int>, i: int) -> Set<int> {
    assigned(s, i, !s.contains(i))
}

impl<'a> View for FixedBitSliceMut<'a> {
    type V = Set<int>;

    /// The positions of the set bits; all lie below the length.
    open spec fn view(&self) -> Set<int> {
        self.stored().intersect(set_int_range(0, self.bits as int))
    }
}

impl<'a> FixedBitSliceMut<'a> {
    /// The stored words.
    pub open spec fn blocks(&self) -> Seq<Block> {
        self.data@
    }

    /// The positions of all stored bits that are set, those past the length
    /// included.
    pub open spec fn stored(&self) -> Set<int> {
        block_set(self.blocks())
    }

    /// The words are as many as the bits need.
    pub open spec fn wf(&self) -> bool {
        self.blocks().len() == blocks_for(self.bits as int)
    }

    /// The first `bits` bits of `data`. The words of `data` that hold them end
    /// up as they are left in the slice; the others stay as they are.
    pub fn from_raw_parts(data: &'a mut [Block], bits: usize) -> (r: FixedBitSliceMut<'a>)
        requires
            bits <= old(data)@.len() * Block::BITS,
        ensures
            r.wf(),
            r.bits == bits,
            r.blocks() == old(data)@.take(blocks_for(bits as int)),
            final(data)@ == final(r.data)@ + old(data)@.skip(blocks_for(bits as int)),
    {
        let count: usize = block_count(bits);
        proof {
            lemma_blocks_for(bits as int);
            lemma_scale(data@.len() as int, count - 1);
        }
        let (head, _) = data.split_at_mut(count);
        FixedBitSliceMut { data: head, bits }
    }

    /// The same set, read only.
    pub fn as_readonly(&self) -> (r: FixedBitSlice<'_>)
        requires
            self.wf(),
        ensures
            r.wf(),
            r.blocks() == self.blocks(),
            r.len() == self.bits,
    {
        proof {
            lemma_blocks_for(self.bits as int);
        }
        let r = FixedBitSlice::from_raw_parts(&*self.data, self.bits);
        assert(self.blocks().take(self.blocks().len() as int) =~= self.blocks());
        r
    }

    /// The word of a position below the length is stored.
    proof fn lemma_word_of(&self, i: int)
        requires
            self.wf(),
            0 <= i < self.bits,
        ensures
            0 <= i / (Block::BITS as int) < self.blocks().len(),
            0 <= i % (Block::BITS as int) < Block::BITS,
            i < self.blocks().len() * Block::BITS,
            self@.contains(i) == bit(
                self.blocks()[i / (Block::BITS as int)],
                i % (Block::BITS as int),
            ),
    {
        lemma_blocks_for(self.bits as int);
        lemma_split(i);
        lemma_below(i, self.blocks().len() as int);
        lemma_member(self.blocks(), i);
    }

    /// Changing one bit in its word changes one member.
    proof fn lemma_write(&self, after: Self, i: int)
        requires
            self.wf(),
            0 <= i < self.bits,
            after.bits == self.bits,
            after.blocks() == self.blocks().update(
                i / (Block::BITS as int),
                after.blocks()[i / (Block::BITS as int)],
            ),
            forall|j: int|
                0 <= j < Block::BITS && j != i % (Block::BITS as int) ==> #[trigger] bit(
                    after.blocks()[i / (Block::BITS as int)],
                    j,
                ) == bit(self.blocks()[i / (Block::BITS as int)], j),
        ensures
            ({
                let enabled = bit(
                    after.blocks()[i / (Block::BITS as int)],
                    i % (Block::BITS as int),
                );
                &&& after.stored() == assigned(self.stored(), i, enabled)
                &&& after@ == assigned(self@, i, enabled)
            }),
    {
        let enabled = bit(after.blocks()[i / (Block::BITS as int)], i % (Block::BITS as int));
        self.lemma_word_of(i);
        lemma_put_word(self.blocks(), i, after.blocks()[i / (Block::BITS as int)]);
        assert(after@ =~= assigned(self@, i, enabled));
    }

    /// Sets a bit to the provided `enabled` value.
    ///
    /// `bit` must be less than the length.
    pub fn set(&mut self, bit: usize, enabled: bool)
        requires
            old(self).wf(),
            bit < old(self).bits,
        ensures
            final(self).wf(),
            final(self).bits == old(self).bits,
            final(final(self).data)@ == final(old(self).data)@,
            final(self).stored() == assigned(old(self).stored(), bit as int, enabled),
            final(self)@ == assigned(old(self)@, bit as int, enabled),
    {
        self.set_unchecked(bit, enabled)
    }

    /// Sets a bit to the provided `enabled` value without doing any bounds checking.
    ///
    /// `bit` must be less than the length.
    pub fn set_unchecked(&mut self, bit: usize, enabled: bool)
        requires
            old(self).wf(),
            bit < old(self).bits,
        ensures
            final(self).wf(),
            final(self).bits == old(self).bits,
            final(final(self).data)@ == final(old(self).data)@,
            final(self).stored() == assigned(old(self).stored(), bit as int, enabled),
            final(self)@ == assigned(old(self)@, bit as int, enabled),
    {
        proof {
            self.lemma_word_of(bit as int);
        }
        let (block, i) = div_rem(bit, Block::BITS as usize);
        let ghost before = *self;
        proof {
            lemma_change_bit(self.blocks()[block as int], i);
        }
        if enabled {
            self.data[block] = self.data[block] | (1usize << i);
        } else {
            self.data[block] = self.data[block] & !(1usize << i);
        }
        proof {
            before.lemma_write(*self, bit as int);
        }
    }

    /// Enable `bit`.
    ///
    /// `bit` must be less than the length.
    pub fn insert(&mut self, bit: usize)
        requires
            old(self).wf(),
            bit < old(self).bits,
        ensures
            final(self).wf(),
            final(self).bits == old(self).bits,
            final(final(self).data)@ == final(old(self).data)@,
            final(self).stored() == old(self).stored().insert(bit as int),
            final(self)@ == old(self)@.insert(bit as int),
    {
        self.insert_unchecked(bit)
    }

    /// Enable `bit` without any length checks.
    ///
    /// `bit` must be less than the length.
    pub fn insert_unchecked(&mut self, bit: usize)
        requires
            old(self).wf(),
            bit < old(self).bits,
        ensures
            final(self).wf(),
            final(self).bits == old(self).bits,
            final(final(self).data)@ == final(old(self).data)@,
            final(self).stored() == old(self).stored().insert(bit as int),
            final(self)@ == old(self)@.insert(bit as int),
    {
        proof {
            self.lemma_word_of(bit as int);
        }
        let (block, i) = div_rem(bit, Block::BITS as usize);
        let ghost before = *self;
        proof {
            lemma_change_bit(self.blocks()[block as int], i);
        }
        self.data[block] = self.data[block] | (1usize << i);
        proof {
            before.lemma_write(*self, bit as int);
        }
    }

    /// Disable `bit`.
    ///
    /// `bit` must be less than the length.
    pub fn remove(&mut self, bit: usize)
        requires
            old(self).wf(),
            bit < old(self).bits,
        ensures
            final(self).wf(),
            final(self).bits == old(self).bits,
            final(final(self).data)@ == final(old(self).data)@,
            final(self).stored() == old(self).stored().remove(bit as int),
            final(self)@ == old(self)@.remove(bit as int),
    {
        self.remove_unchecked(bit)
    }

    /// Disable `bit` without any bounds checking.
    ///
    /// `bit` must be less than the length.
    pub fn remove_unchecked(&mut self, bit: usize)
        requires
            old(self).wf(),
            bit < old(self).bits,
        ensures
            final(self).wf(),
            final(self).bits == old(self).bits,
            final(final(self).data)@ == final(old(self).data)@,
            final(self).stored() == old(self).stored().remove(bit as int),
            final(self)@ == old(self)@.remove(bit as int),
    {
        proof {
            self.lemma_word_of(bit as int);
        }
        let (block, i) = div_rem(bit, Block::BITS as usize);
        let ghost before = *self;
        proof {
            lemma_change_bit(self.blocks()[block as int], i);
        }
        self.data[block] = self.data[block] & !(1usize << i);
        proof {
            before.lemma_write(*self, bit as int);
        }
    }

    /// Enable `bit`, and return its previous value.
    ///
    /// `bit` must be less than the length.
    pub fn put(&mut self, bit: usize) -> (prev: bool)
        requires
            old(self).wf(),
            bit < old(self).bits,
        ensures
            prev == old(self)@.contains(bit as int),
            final(self).wf(),
            final(self).bits == old(self).bits,
            final(final(self).data)@ == final(old(self).data)@,
            final(self).stored() == old(self).stored().insert(bit as int),
            final(self)@ == old(self)@.insert(bit as int),
    {
        self.put_unchecked(bit)
    }

    /// Enable `bit`, and return its previous value without doing any bounds checking.
    ///
    /// `bit` must be less than the length.
    pub fn put_unchecked(&mut self, bit: usize) -> (prev: bool)
        requires
            old(self).wf(),
            bit < old(self).bits,
        ensures
            prev == old(self)@.contains(bit as int),
            final(self).wf(),
            final(self).bits == old(self).bits,
            final(final(self).data)@ == final(old(self).data)@,
            final(self).stored() == old(self).stored().insert(bit as int),
            final(self)@ == old(self)@.insert(bit as int),
    {
        proof {
            self.lemma_word_of(bit as int);
        }
        let (block, i) = div_rem(bit, Block::BITS as usize);
        let ghost before = *self;
        proof {
            lemma_change_bit(self.blocks()[block as int], i);
        }
        let word: Block = self.data[block];
        proof {
            lemma_test_bit(word, i);
        }
        let prev = word & (1usize << i) != 0;
        self.data[block] = word | (1usize << i);
        proof {
            before.lemma_write(*self, bit as int);
        }
        prev
    }

    /// Toggle `bit` (inverting its state).
    ///
    /// `bit` must be less than the length.
    pub fn toggle(&mut self, bit: usize)
        requires
            old(self).wf(),
            bit < old(self).bits,
        ensures
            final(self).wf(),
            final(self).bits == old(self).bits,
            final(final(self).data)@ == final(old(self).data)@,
            final(self).stored() == toggled(old(self).stored(), bit as int),
            final(self)@ == toggled(old(self)@, bit as int),
    {
        self.toggle_unchecked(bit)
    }

    /// Toggle `bit` (inverting its state) without any bounds checking.
    ///
    /// `bit` must be less than the length.
    pub fn toggle_unchecked(&mut self, bit: usize)
        requires
            old(self).wf(),
            bit < old(self).bits,
        ensures
            final(self).wf(),
            final(self).bits == old(self).bits,
            final(final(self).data)@ == final(old(self).data)@,
            final(self).stored() == toggled(old(self).stored(), bit as int),
            final(self)@ == toggled(old(self)@, bit as int),
    {
        proof {
            self.lemma_word_of(bit as int);
        }
        let (block, i) = div_rem(bit, Block::BITS as usize);
        let ghost before = *self;
        proof {
            lemma_change_bit(self.blocks()[block as int], i);
        }
        self.data[block] = self.data[block] ^ (1usize << i);
        proof {
            before.lemma_write(*self, bit as int);
        }
    }

    /// Copies boolean value from specified bit to the specified bit.
    ///
    /// If `from` is out-of-bounds, `to` will be unset.
    ///
    /// `to` must be less than the length.
    pub fn copy_bit(&mut self, from: usize, to: usize)
        requires
            old(self).wf(),
            to < old(self).bits,
        ensures
            final(self).wf(),
            final(self).bits == old(self).bits,
            final(final(self).data)@ == final(old(self).data)@,
            final(self).stored() == assigned(
                old(self).stored(),
                to as int,
                old(self)@.contains(from as int),
            ),
            final(self)@ == assigned(
                old(self)@,
                to as int,
                old(self)@.contains(from as int),
            ),
    {
        let enabled = self.as_readonly().contains(from);
        self.set_unchecked(to, enabled);
    }

    /// Copies boolean value from specified bit to the specified bit.
    ///
    /// Note: unlike `copy_bit`, this has to be called with a `from` less than
    /// the length.
    pub fn copy_bit_unchecked(&mut self, from: usize, to: usize)
        requires
            old(self).wf(),
            from < old(self).bits,
            to < old(self).bits,
        ensures
            final(self).wf(),
            final(self).bits == old(self).bits,
            final(final(self).data)@ == final(old(self).data)@,
            final(self).stored() == assigned(
                old(self).stored(),
                to as int,
                old(self)@.contains(from as int),
            ),
            final(self)@ == assigned(
                old(self)@,
                to as int,
                old(self)@.contains(from as int),
            ),
    {
        let enabled = self.as_readonly().contains_unchecked(from);
        self.set_unchecked(to, enabled);
    }
}

} // verus!
