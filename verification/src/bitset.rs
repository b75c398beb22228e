//! Owned bit sets.
use crate::block::{
    bit, block_count, blocks_for, cut, lemma_below, lemma_bit_zero, lemma_blocks_for,
    lemma_cut_word, lemma_scale, lemma_split, Block,
};
use crate::slice::FixedBitSlice;
use crate::storage::{block_set, lemma_member, lemma_words_of, word_at};
use vstd::prelude::*;
use vstd::set_lib::set_int_range;

verus! {

/// A set of bit positions below a fixed bound, with storage of its own.
///
/// Bits past the bound are stored as zeros.
#[derive(Debug)]
pub struct FixedBitSet {
    data: Vec<Block>,
    bits: usize,
}

impl View for FixedBitSet {
    type V = Set<int>;

    /// The positions of the set bits; all lie below the length.
    open spec fn view(&self) -> Set<int> {
        block_set(self.blocks())
    }
}

impl FixedBitSet {
    /// The stored words.
    pub closed spec fn blocks(&self) -> Seq<Block> {
        self.data@
    }

    /// The number of bits.
    pub closed spec fn spec_len(&self) -> usize {
        self.bits
    }

    /// The words are as many as the bits need, and no bit past the length is set.
    #[verifier::type_invariant]
    pub open spec fn wf(&self) -> bool {
        &&& self.blocks().len() == blocks_for(self.spec_len() as int)
        &&& self@.subset_of(set_int_range(0, self.spec_len() as int))
    }

    /// A set of `bits` bits, which are the first bits of `blocks`; where `blocks`
    /// has fewer bits, the others are unset.
    pub fn with_capacity_and_blocks(bits: usize, blocks: &[Block]) -> (r: FixedBitSet)
        ensures
            r.wf(),
            r.len() == bits,
            r.blocks().len() == blocks_for(bits as int),
            r@ == block_set(blocks@).intersect(set_int_range(0, bits as int)),
    {
        let count: usize = block_count(bits);
        let mut data: Vec<Block> = Vec::new();
        while data.len() < count
            invariant
                data.len() <= count,
                forall|k: int| 0 <= k < data.len() ==> #[trigger] data[k] == word_at(blocks@, k),
            decreases count - data.len(),
        {
            let k: usize = data.len();
            if k < blocks.len() {
                data.push(blocks[k]);
            } else {
                data.push(0);
            }
        }
        let width: usize = Block::BITS as usize;
        let rem: usize = bits % width;
        let ghost copied = data@;
        proof {
            lemma_blocks_for(bits as int);
            lemma_split(bits as int);
        }
        if rem != 0 {
            let last: Block = data[count - 1];
            data[count - 1] = cut(last, rem);
        }
        proof {
            let b = Block::BITS as int;
            let s = block_set(blocks@).intersect(set_int_range(0, bits as int));
            assert forall|i: int|
                #![trigger s.contains(i)]
                bit(word_at(data@, i / b), i % b) == s.contains(i) by {
                let k = i / b;
                lemma_split(i);
                lemma_member(blocks@, i);
                lemma_below(i, count as int);
                lemma_bit_zero(i % b);
                lemma_scale(count - 1, count as int);
                if rem != 0 && k == count - 1 {
                    lemma_cut_word(copied[k], rem as int, i % b);
                }
            }
            lemma_words_of(data@, s);
        }
        FixedBitSet { data, bits }
    }

    /// The number of bits.
    #[verifier::when_used_as_spec(spec_len)]
    pub fn len(&self) -> (r: usize)
        ensures
            r == self.len(),
    {
        self.bits
    }

    /// The stored words.
    pub fn as_slice(&self) -> (r: &[Block])
        ensures
            r@ == self.blocks(),
    {
        self.data.as_slice()
    }

    /// The whole set as a borrowed slice.
    pub fn as_bit_slice(&self) -> (r: FixedBitSlice<'_>)
        ensures
            r.wf(),
            r.blocks() == self.blocks(),
            r.len() == self.len(),
            r.stored() == self@,
            r@ == self@,
    {
        proof {
            use_type_invariant(self);
            lemma_blocks_for(self.bits as int);
        }
        let r = FixedBitSlice::from_raw_parts(self.data.as_slice(), self.bits);
        proof {
            assert(self.blocks().take(self.blocks().len() as int) =~= self.blocks());
            assert(r@ =~= self@);
        }
        r
    }
}

} // verus!
