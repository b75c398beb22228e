//! Read-only views of bit sets.
use crate::bitset::FixedBitSet;
use crate::block::{
    bit, block_count, blocks_for, cut, div_rem, lemma_below, lemma_bit_ops, lemma_bit_zero,
    lemma_blocks_for, lemma_extent, lemma_join, lemma_nonzero_has_bit, lemma_not_covered,
    lemma_scale, lemma_split, lemma_test_bit, word_set, Block,
};
use crate::listing::{
    ascending, is_greatest, is_least, lemma_ascending_len, lemma_ascending_none,
    lemma_ascending_shift, lemma_ascending_split, lemma_ascending_within,
};
use crate::range::{range_fits, range_set, IndexRange, Masks};
use crate::simd::{SIMD_LANES, SimdBlock};
use crate::storage::{
    and_words, andnot_words, block_set, cut_words, lemma_and_words, lemma_andnot_words, lemma_at,
    lemma_count_step, lemma_cut_words, lemma_first_bit, lemma_last_bit, lemma_member,
    lemma_nonzero_word, lemma_or_words, lemma_word_count, lemma_word_sum, lemma_xor_words,
    lemma_zero_words, or_words, word_at, xor_words,
};
use vstd::math::min;
use vstd::prelude::*;
use vstd::set_lib::set_int_range;

verus! {

/// A borrowed set of bit positions below a fixed bound.
///
/// The last word may hold bits past the bound. They are not part of the set,
/// whatever they are.
#[derive(Debug, Clone, Copy)]
pub struct FixedBitSlice<'a> {
    data: &'a [Block],
    bits: usize,
}

impl<'a> View for FixedBitSlice<'a> {
    type V = Set<int>;

    /// The positions of the set bits; all lie below the length.
    open spec fn view(&self) -> Set<int> {
        self.stored().intersect(set_int_range(0, self.spec_len() as int))
    }
}

impl<'a> FixedBitSlice<'a> {
    /// The stored words.
    pub closed spec fn blocks(self) -> Seq<Block> {
        self.data@
    }

    /// The number of bits.
    pub closed spec fn spec_len(self) -> usize {
        self.bits
    }

    /// The positions of all stored bits that are set, those past the length
    /// included.
    pub open spec fn stored(self) -> Set<int> {
        block_set(self.blocks())
    }

    /// The stored words without the bits past the length: the words of the set.
    pub open spec fn live_blocks(self) -> Seq<Block> {
        cut_words(self.blocks(), self.spec_len() as int)
    }

    /// The words are as many as the bits need.
    #[verifier::type_invariant]
    pub open spec fn wf(self) -> bool {
        self.blocks().len() == blocks_for(self.spec_len() as int)
    }

    /// The first `bits` bits of `data`. Words of `data` that hold none of them are
    /// not part of the slice.
    pub fn from_raw_parts(data: &'a [Block], bits: usize) -> (r: FixedBitSlice<'a>)
        requires
            bits <= data@.len() * Block::BITS,
        ensures
            r.wf(),
            r.blocks() == data@.take(blocks_for(bits as int)),
            r.len() == bits,
    {
        let count: usize = block_count(bits);
        proof {
            lemma_blocks_for(bits as int);
            lemma_scale(data@.len() as int, count - 1);
        }
        let (head, _) = data.split_at(count);
        FixedBitSlice { data: head, bits }
    }

    /// The number of bits.
    #[verifier::when_used_as_spec(spec_len)]
    pub fn len(self) -> (r: usize)
        ensures
            r == self.len(),
    {
        self.bits
    }

    /// The number of stored words.
    fn block_len(self) -> (r: usize)
        ensures
            r == self.blocks().len(),
    {
        proof {
            use_type_invariant(&self);
        }
        block_count(self.bits)
    }

    /// The number of groups of words; the last one may be filled up with zeros.
    fn simd_block_len(self) -> (r: usize)
        ensures
            r * SIMD_LANES >= self.blocks().len(),
            self.blocks().len() > 0 ==> (r - 1) * SIMD_LANES < self.blocks().len(),
            self.blocks().len() == 0 ==> r == 0,
    {
        let count: usize = self.block_len();
        if count % SIMD_LANES == 0 {
            count / SIMD_LANES
        } else {
            count / SIMD_LANES + 1
        }
    }

    /// Word `subblock`.
    fn get_unchecked(self, subblock: usize) -> (r: &'a Block)
        requires
            subblock < self.blocks().len(),
        ensures
            *r == self.blocks()[subblock as int],
    {
        &self.data[subblock]
    }

    /// Word `idx` without the bits past the length.
    pub(crate) fn live_block(self, idx: usize) -> (r: Block)
        requires
            idx < self.blocks().len(),
        ensures
            r == self.live_blocks()[idx as int],
    {
        proof {
            use_type_invariant(&self);
            lemma_blocks_for(self.bits as int);
            lemma_scale(idx as int, self.blocks().len() as int);
            lemma_scale(0, idx as int);
        }
        cut(self.data[idx], self.bits - idx * (Block::BITS as usize))
    }

    /// The words of the set hold its members.
    pub(crate) proof fn lemma_live(self)
        ensures
            block_set(self.live_blocks()) == self@,
            self.live_blocks().len() == self.blocks().len(),
            self@.subset_of(set_int_range(0, self.spec_len() as int)),
    {
        lemma_cut_words(self.blocks(), self.spec_len() as int);
    }

    /// A word before the last holds no bits past the length.
    pub(crate) proof fn lemma_whole_block(self, k: int)
        requires
            self.wf(),
            0 <= k < self.blocks().len() - 1,
        ensures
            self.live_blocks()[k] == self.blocks()[k],
    {
        lemma_blocks_for(self.spec_len() as int);
        lemma_scale(k + 1, self.blocks().len() as int);
        lemma_scale(k, k);
    }

    /// Group `idx` of the words of the set, filled up with zeros past the end.
    fn simd_block_at(self, idx: usize) -> (r: SimdBlock)
        requires
            idx * SIMD_LANES < self.blocks().len(),
        ensures
            r@.len() == SIMD_LANES,
            forall|j: int|
                0 <= j < SIMD_LANES ==> #[trigger] r@[j] == word_at(
                    self.live_blocks(),
                    idx * SIMD_LANES + j,
                ),
    {
        let mut lanes: [Block; SIMD_LANES] = [0; SIMD_LANES];
        let len: usize = self.block_len();
        let first: usize = idx * SIMD_LANES;
        let mut j: usize = 0;
        while j < SIMD_LANES
            invariant
                j <= SIMD_LANES,
                first == idx * SIMD_LANES,
                first < len == self.blocks().len(),
                forall|i: int| 0 <= i < j ==> lanes[i] == word_at(self.live_blocks(), first + i),
                forall|i: int| j <= i < SIMD_LANES ==> lanes[i] == 0,
            decreases SIMD_LANES - j,
        {
            if j < len - first {
                lanes[j] = self.live_block(first + j);
            }
            j += 1;
        }
        SimdBlock::new(lanes)
    }

    /// View the bitset as a slice of `Block` blocks
    pub fn as_slice(self) -> (r: &'a [Block])
        ensures
            r@ == self.blocks(),
    {
        self.data
    }

    /// Whether the set has no bits at all.
    pub fn is_empty(self) -> (r: bool)
        ensures
            r == (self.len() == 0),
    {
        self.bits == 0
    }

    /// Whether no bit is set.
    pub fn is_clear(self) -> (r: bool)
        ensures
            r == (self@ == Set::<int>::empty()),
    {
        let count: usize = self.simd_block_len();
        let mut idx: usize = 0;
        while idx < count
            invariant
                idx <= count,
                (count - 1) * SIMD_LANES < self.blocks().len(),
                forall|k: int| 0 <= k < idx * SIMD_LANES ==> word_at(self.live_blocks(), k) == 0,
            decreases count - idx,
        {
            let block = self.simd_block_at(idx);
            if !block.is_empty() {
                proof {
                    let j = choose|j: int| 0 <= j < SIMD_LANES && block@[j] != 0;
                    self.lemma_live();
                    lemma_nonzero_word(self.live_blocks(), idx * SIMD_LANES + j);
                }
                return false;
            }
            proof {
                assert forall|k: int| 0 <= k < (idx + 1) * SIMD_LANES implies word_at(
                    self.live_blocks(),
                    k,
                ) == 0 by {
                    if k >= idx * SIMD_LANES {
                        assert(block@[k - idx * SIMD_LANES] == 0);
                    }
                }
            }
            idx += 1;
        }
        proof {
            lemma_zero_words(self.live_blocks(), self.blocks().len() as int);
            self.lemma_live();
            assert(self@ =~= Set::empty());
        }
        true
    }

    /// Finds the lowest set bit in the bitset.
    ///
    /// Returns `None` if there aren't any set bits.
    pub fn minimum(self) -> (r: Option<usize>)
        ensures
            match r {
                Some(i) => is_least(self@, i as int),
                None => self@ == Set::<int>::empty(),
            },
    {
        proof {
            use_type_invariant(&self);
            lemma_blocks_for(self.bits as int);
        }
        let width: usize = Block::BITS as usize;
        let count: usize = self.simd_block_len();
        let mut block_idx: usize = 0;
        while block_idx < count
            invariant
                self.wf(),
                width == Block::BITS,
                block_idx <= count,
                (count - 1) * SIMD_LANES < self.blocks().len(),
                forall|k: int|
                    0 <= k < block_idx * SIMD_LANES ==> word_at(self.live_blocks(), k) == 0,
            decreases count - block_idx,
        {
            let block = self.simd_block_at(block_idx);
            if !block.is_empty() {
                let lanes = block.into_usize_array();
                let mut inner: usize = 0;
                let mut lane: usize = 0;
                while lanes[lane] == 0
                    invariant
                        lane < SIMD_LANES,
                        inner == lane * width,
                        lanes@.len() == SIMD_LANES,
                        width == Block::BITS,
                        exists|j: int| 0 <= j < SIMD_LANES && lanes@[j] != 0,
                        forall|j: int| 0 <= j < lane ==> lanes@[j] == 0,
                    decreases SIMD_LANES - lane,
                {
                    inner += width;
                    lane += 1;
                }
                let trailing: usize = lanes[lane].trailing_zeros() as usize;
                proof {
                    let b = Block::BITS as int;
                    let at = block_idx * SIMD_LANES + lane;
                    let i = lemma_nonzero_has_bit(lanes@[lane as int]);
                    assert(word_at(self.live_blocks(), at) == block@[lane as int]);
                    assert forall|k: int| 0 <= k < at implies word_at(self.live_blocks(), k)
                        == 0 by {
                        if k >= block_idx * SIMD_LANES {
                            assert(block@[k - block_idx * SIMD_LANES] == 0);
                        }
                    }
                    lemma_first_bit(self.live_blocks(), at, trailing as int);
                    self.lemma_live();
                    self.lemma_position(at, trailing as int);
                    assert(block_idx * (SIMD_LANES * b) + lane * b == at * b) by (nonlinear_arith)
                        requires
                            at == block_idx * SIMD_LANES + lane,
                    ;
                    lemma_scale(0, block_idx as int * SIMD_LANES as int);
                    lemma_scale(0, lane as int);
                    assert(block_idx * (SIMD_LANES * b) >= 0) by (nonlinear_arith)
                        requires
                            block_idx >= 0,
                            b >= 0,
                            SIMD_LANES >= 0,
                    ;
                }
                return Some(block_idx * (SIMD_LANES * width) + inner + trailing);
            }
            proof {
                assert forall|k: int| 0 <= k < (block_idx + 1) * SIMD_LANES implies word_at(
                    self.live_blocks(),
                    k,
                ) == 0 by {
                    if k >= block_idx * SIMD_LANES {
                        assert(block@[k - block_idx * SIMD_LANES] == 0);
                    }
                }
            }
            block_idx += 1;
        }
        proof {
            lemma_zero_words(self.live_blocks(), self.blocks().len() as int);
            self.lemma_live();
            assert(self@ =~= Set::empty());
        }
        None
    }

    /// Finds the highest set bit in the bitset.
    ///
    /// Returns `None` if there aren't any set bits.
    pub fn maximum(self) -> (r: Option<usize>)
        ensures
            match r {
                Some(i) => is_greatest(self@, i as int),
                None => self@ == Set::<int>::empty(),
            },
    {
        proof {
            use_type_invariant(&self);
            lemma_blocks_for(self.bits as int);
        }
        let width: usize = Block::BITS as usize;
        let count: usize = self.simd_block_len();
        let mut block_idx: usize = 0;
        while block_idx < count
            invariant
                self.wf(),
                width == Block::BITS,
                block_idx <= count,
                (count - 1) * SIMD_LANES < self.blocks().len() <= count * SIMD_LANES,
                forall|k: int|
                    (count - block_idx) * SIMD_LANES <= k ==> word_at(self.live_blocks(), k) == 0,
            decreases count - block_idx,
        {
            let last: usize = count - 1 - block_idx;
            let block = self.simd_block_at(last);
            if !block.is_empty() {
                let lanes = block.into_usize_array();
                let mut inner: usize = 0;
                let mut lane: usize = SIMD_LANES - 1;
                while lanes[lane] == 0
                    invariant
                        lane < SIMD_LANES,
                        inner == (SIMD_LANES - 1 - lane) * width,
                        lanes@.len() == SIMD_LANES,
                        width == Block::BITS,
                        exists|j: int| 0 <= j < SIMD_LANES && lanes@[j] != 0,
                        forall|j: int| lane < j < SIMD_LANES ==> lanes@[j] == 0,
                    decreases lane,
                {
                    inner += width;
                    lane -= 1;
                }
                let leading: usize = lanes[lane].leading_zeros() as usize;
                proof {
                    let b = Block::BITS as int;
                    let at = last * SIMD_LANES + lane;
                    let top = b - 1 - leading;
                    let i = lemma_nonzero_has_bit(lanes@[lane as int]);
                    assert(word_at(self.live_blocks(), at) == block@[lane as int]);
                    assert forall|k: int| at < k implies word_at(self.live_blocks(), k) == 0 by {
                        if k < (last + 1) * SIMD_LANES {
                            assert(block@[k - last * SIMD_LANES] == 0);
                        }
                    }
                    lemma_last_bit(self.live_blocks(), at, top);
                    self.lemma_live();
                    self.lemma_position(at, top);
                    assert(last * (SIMD_LANES * b) + lane * b == at * b) by (nonlinear_arith)
                        requires
                            at == last * SIMD_LANES + lane,
                    ;
                    lemma_scale(0, lane as int);
                    assert(SIMD_LANES * b - inner == lane * b + b) by (nonlinear_arith)
                        requires
                            inner == (SIMD_LANES - 1 - lane) * b,
                    ;
                    assert(last * (SIMD_LANES * b) >= 0) by (nonlinear_arith)
                        requires
                            last >= 0,
                            b >= 0,
                            SIMD_LANES >= 0,
                    ;
                }
                let simd_bits: usize = SIMD_LANES * width;
                return Some(last * simd_bits + (simd_bits - inner - leading - 1));
            }
            proof {
                assert forall|k: int| last * SIMD_LANES <= k implies word_at(self.live_blocks(), k)
                    == 0 by {
                    if k < (last + 1) * SIMD_LANES {
                        assert(block@[k - last * SIMD_LANES] == 0);
                    }
                }
            }
            block_idx += 1;
        }
        proof {
            lemma_zero_words(self.live_blocks(), self.blocks().len() as int);
            self.lemma_live();
            assert(self@ =~= Set::empty());
        }
        None
    }

    /// `true` if all bits in the [`FixedBitSet`] are set.
    ///
    /// This is equivalent to [`bitset.count_ones(..) == bitset.len()`](FixedBitSlice::count_ones).
    pub fn is_full(self) -> (r: bool)
        ensures
            r == (self@ == set_int_range(0, self.len() as int)),
    {
        let r = self.contains_all_in_range(..);
        assert(r == (self@ =~= set_int_range(0, self.len() as int)));
        r
    }

    /// Return **true** if the bit is enabled in the **FixedBitSet**,
    /// **false** otherwise.
    ///
    /// Note: bits outside the capacity are always disabled.
    pub fn contains(self, bit: usize) -> (r: bool)
        ensures
            r == self@.contains(bit as int),
    {
        if bit < self.bits {
            self.contains_unchecked(bit)
        } else {
            false
        }
    }

    /// Return **true** if the bit is enabled in the **FixedBitSet**,
    /// **false** otherwise.
    ///
    /// Note: unlike `contains`, this has to be called with a `bit` less than
    /// `self.len()`.
    pub fn contains_unchecked(self, bit: usize) -> (r: bool)
        requires
            bit < self.len(),
        ensures
            r == self@.contains(bit as int),
    {
        proof {
            use_type_invariant(&self);
            lemma_blocks_for(self.bits as int);
            lemma_split(bit as int);
            lemma_below(bit as int, self.blocks().len() as int);
            lemma_member(self.blocks(), bit as int);
        }
        let (block, i) = div_rem(bit, Block::BITS as usize);
        let word = *self.get_unchecked(block);
        proof {
            lemma_test_bit(word, i);
        }
        word & (1usize << i) != 0
    }

    /// Checks if the bitset contains every bit in the given range.
    ///
    /// The range must not extend past the end of the bitset.
    pub fn contains_all_in_range<T: IndexRange>(self, range: T) -> (r: bool)
        requires
            range_fits(range, self.len() as int),
        ensures
            r == range_set(range, self.len() as int).subset_of(self@),
    {
        proof {
            use_type_invariant(&self);
        }
        let ghost wanted = range_set(range, self.len() as int);
        let mut masks = Masks::new(range, self.bits);
        loop
            invariant
                self.wf(),
                masks.wf(),
                wanted == range_set(range, self.len() as int),
                masks.pending().subset_of(wanted),
                wanted.subset_of(set_int_range(0, self.len() as int)),
                wanted.difference(masks.pending()).subset_of(self@),
            decreases masks.fuel(),
        {
            let ghost before = masks;
            match masks.next() {
                Some((block, mask)) => {
                    proof {
                        self.lemma_mask_in_bounds(before.pending(), block as int, mask);
                    }
                    let word = *self.get_unchecked(block);
                    if word & mask != mask {
                        proof {
                            let j = lemma_not_covered(word, mask);
                            lemma_at(self.blocks(), block as int, j);
                            assert(wanted.contains(block * Block::BITS + j));
                        }
                        return false;
                    }
                    proof {
                        assert forall|i: int| #[trigger]
                            wanted.difference(masks.pending()).contains(i) implies self@.contains(
                            i,
                        ) by {
                            if before.pending().contains(i) {
                                let j = i - block * Block::BITS;
                                lemma_scale(block as int, block as int);
                                lemma_at(self.blocks(), block as int, j);
                                lemma_bit_ops(word, mask, j);
                            } else {
                                assert(wanted.difference(before.pending()).contains(i));
                            }
                        }
                    }
                },
                None => {
                    assert(wanted =~= wanted.difference(masks.pending()));
                    return true;
                },
            }
        }
    }

    /// Checks if the bitset contains at least one set bit in the given range.
    ///
    /// The range must not extend past the end of the bitset.
    pub fn contains_any_in_range<T: IndexRange>(self, range: T) -> (r: bool)
        requires
            range_fits(range, self.len() as int),
        ensures
            r == !range_set(range, self.len() as int).disjoint(self@),
    {
        proof {
            use_type_invariant(&self);
        }
        let ghost wanted = range_set(range, self.len() as int);
        let mut masks = Masks::new(range, self.bits);
        loop
            invariant
                self.wf(),
                masks.wf(),
                wanted == range_set(range, self.len() as int),
                masks.pending().subset_of(wanted),
                wanted.subset_of(set_int_range(0, self.len() as int)),
                wanted.difference(masks.pending()).disjoint(self@),
            decreases masks.fuel(),
        {
            let ghost before = masks;
            match masks.next() {
                Some((block, mask)) => {
                    proof {
                        self.lemma_mask_in_bounds(before.pending(), block as int, mask);
                    }
                    let word = *self.get_unchecked(block);
                    if word & mask != 0 {
                        proof {
                            let j = lemma_nonzero_has_bit(word & mask);
                            lemma_bit_ops(word, mask, j);
                            lemma_at(self.blocks(), block as int, j);
                            assert(wanted.contains(block * Block::BITS + j));
                        }
                        return true;
                    }
                    proof {
                        assert forall|i: int| #[trigger]
                            wanted.difference(masks.pending()).contains(i) implies !self@.contains(
                            i,
                        ) by {
                            if before.pending().contains(i) {
                                let j = i - block * Block::BITS;
                                lemma_scale(block as int, block as int);
                                lemma_at(self.blocks(), block as int, j);
                                lemma_bit_ops(word, mask, j);
                                lemma_bit_zero(j);
                            } else {
                                assert(wanted.difference(before.pending()).contains(i));
                            }
                        }
                    }
                },
                None => {
                    assert(wanted =~= wanted.difference(masks.pending()));
                    return false;
                },
            }
        }
    }

    /// Count the number of set bits in the given bit range.
    ///
    /// This function is potentially much faster than counting `ones()`.
    /// Use `..` to count the whole content of the bitset.
    ///
    /// The range must not extend past the end of the bitset.
    pub fn count_ones<T: IndexRange>(self, range: T) -> (r: usize)
        requires
            range_fits(range, self.len() as int),
        ensures
            r == range_set(range, self.len() as int).intersect(self@).len(),
    {
        proof {
            use_type_invariant(&self);
        }
        let ghost wanted = range_set(range, self.len() as int);
        let ghost counted = wanted.intersect(self@);
        let ghost mut done: int = 0;
        let mut count: usize = 0;
        let mut masks = Masks::new(range, self.bits);
        proof {
            lemma_scale(0, 0);
        }
        loop
            invariant
                self.wf(),
                masks.wf(),
                wanted == range_set(range, self.len() as int),
                0 <= done <= self.blocks().len(),
                forall|i: int| #[trigger]
                    masks.pending().contains(i) <==> done * Block::BITS <= i && wanted.contains(i),
                wanted.subset_of(set_int_range(0, self.len() as int)),
                counted == wanted.intersect(self@),
                count == ascending(counted, 0, done * Block::BITS).len(),
            decreases masks.fuel(),
        {
            let ghost before = masks;
            match masks.next() {
                Some((block, mask)) => {
                    proof {
                        self.lemma_mask_in_bounds(before.pending(), block as int, mask);
                        lemma_mask_after(before.pending(), done, block as int, mask);
                    }
                    let word = *self.get_unchecked(block) & mask;
                    proof {
                        assert forall|j: int| 0 <= j < Block::BITS implies counted.contains(
                            block * Block::BITS + j,
                        ) == #[trigger] bit(word, j) by {
                            lemma_at(self.blocks(), block as int, j);
                            lemma_bit_ops(self.blocks()[block as int], mask, j);
                            assert(bit(mask, j) == before.pending().contains(
                                block * Block::BITS + j,
                            ));
                        }
                        self.lemma_count_word(
                            counted,
                            before.pending(),
                            done,
                            block as int,
                            mask,
                            word,
                        );
                        done = block + 1;
                    }
                    count += word.count_ones() as usize;
                },
                None => {
                    proof {
                        lemma_scale(0, done);
                        assert forall|x: int| #[trigger] counted.contains(x) implies x < done
                            * Block::BITS by {
                            assert(!before.pending().contains(x));
                        }
                        lemma_ascending_len(counted, 0, done * Block::BITS);
                    }
                    return count;
                },
            }
        }
    }

    /// Count the number of unset bits in the given bit range.
    ///
    /// This function is potentially much faster than counting `zeroes()`.
    /// Use `..` to count the whole content of the bitset.
    ///
    /// The range must not extend past the end of the bitset.
    pub fn count_zeroes<T: IndexRange>(self, range: T) -> (r: usize)
        requires
            range_fits(range, self.len() as int),
        ensures
            r == range_set(range, self.len() as int).difference(self@).len(),
    {
        proof {
            use_type_invariant(&self);
        }
        let ghost wanted = range_set(range, self.len() as int);
        let ghost counted = wanted.difference(self@);
        let ghost mut done: int = 0;
        let mut count: usize = 0;
        let mut masks = Masks::new(range, self.bits);
        proof {
            lemma_scale(0, 0);
        }
        loop
            invariant
                self.wf(),
                masks.wf(),
                wanted == range_set(range, self.len() as int),
                0 <= done <= self.blocks().len(),
                forall|i: int| #[trigger]
                    masks.pending().contains(i) <==> done * Block::BITS <= i && wanted.contains(i),
                wanted.subset_of(set_int_range(0, self.len() as int)),
                counted == wanted.difference(self@),
                count == ascending(counted, 0, done * Block::BITS).len(),
            decreases masks.fuel(),
        {
            let ghost before = masks;
            match masks.next() {
                Some((block, mask)) => {
                    proof {
                        self.lemma_mask_in_bounds(before.pending(), block as int, mask);
                        lemma_mask_after(before.pending(), done, block as int, mask);
                    }
                    let word = !*self.get_unchecked(block) & mask;
                    proof {
                        assert forall|j: int| 0 <= j < Block::BITS implies counted.contains(
                            block * Block::BITS + j,
                        ) == #[trigger] bit(word, j) by {
                            lemma_at(self.blocks(), block as int, j);
                            lemma_bit_ops(self.blocks()[block as int], mask, j);
                            lemma_bit_ops(!self.blocks()[block as int], mask, j);
                            assert(bit(mask, j) == before.pending().contains(
                                block * Block::BITS + j,
                            ));
                        }
                        self.lemma_count_word(
                            counted,
                            before.pending(),
                            done,
                            block as int,
                            mask,
                            word,
                        );
                        done = block + 1;
                    }
                    count += word.count_ones() as usize;
                },
                None => {
                    proof {
                        lemma_scale(0, done);
                        assert forall|x: int| #[trigger] counted.contains(x) implies x < done
                            * Block::BITS by {
                            assert(!before.pending().contains(x));
                        }
                        lemma_ascending_len(counted, 0, done * Block::BITS);
                    }
                    return count;
                },
            }
        }
    }

    /// Counts the set bits of the words that `block` yields for the indices
    /// from `from` up to and without `to`.
    fn batch_count_ones<F: Fn(usize) -> Block>(
        from: usize,
        to: usize,
        block: F,
        Ghost(words): Ghost<Seq<Block>>,
    ) -> (r: usize)
        requires
            from <= to <= words.len(),
            block_set(words).subset_of(set_int_range(0, usize::MAX as int)),
            forall|k: usize| from <= k < to ==> block.requires((k,)),
            forall|k: usize, word: Block|
                from <= k < to && #[trigger] block.ensures((k,), word) ==> word == words[k as int],
        ensures
            r == ascending(block_set(words), from * Block::BITS, to * Block::BITS).len(),
    {
        let mut count: usize = 0;
        let mut k: usize = from;
        while k < to
            invariant
                from <= k <= to <= words.len(),
                block_set(words).subset_of(set_int_range(0, usize::MAX as int)),
                forall|k: usize| from <= k < to ==> block.requires((k,)),
                forall|k: usize, word: Block|
                    from <= k < to && #[trigger] block.ensures((k,), word) ==> word
                        == words[k as int],
                count == ascending(block_set(words), from * Block::BITS, k * Block::BITS).len(),
            decreases to - k,
        {
            let word = block(k);
            proof {
                lemma_count_step(words, from as int, k as int);
                lemma_scale(from as int, k + 1);
                lemma_scale(k + 1, words.len() as int);
                lemma_scale(0, from as int);
                lemma_ascending_within(
                    block_set(words),
                    from * Block::BITS,
                    (k + 1) * Block::BITS,
                    usize::MAX as int,
                );
            }
            count += word.count_ones() as usize;
            k += 1;
        }
        count
    }

    /// Computes how many bits would be set in the union between two bitsets.
    ///
    /// This is potentially much faster than counting `union(other)`, and needs
    /// no storage of its own.
    pub fn union_count(self, other: FixedBitSlice) -> (r: usize)
        ensures
            r == self@.union(other@).len(),
    {
        let me_len: usize = self.block_len();
        let other_len: usize = other.block_len();
        let ghost words = or_words(self.live_blocks(), other.live_blocks());
        proof {
            use_type_invariant(&self);
            use_type_invariant(&other);
            self.lemma_live();
            other.lemma_live();
            lemma_or_words(self.live_blocks(), other.live_blocks());
            lemma_word_sum(words, min(me_len as int, other_len as int));
        }
        let shared: usize = if me_len < other_len {
            me_len
        } else {
            other_len
        };
        let count: usize = Self::batch_count_ones(
            0,
            shared,
            |k: usize| -> (word: Block)
                requires
                    me_len > k && other_len > k,
                ensures
                    word == word_at(self.live_blocks(), k as int) | word_at(
                        other.live_blocks(),
                        k as int,
                    )
                { self.live_block(k) | other.live_block(k) },
            Ghost(words),
        );
        if other_len > me_len {
            count + Self::batch_count_ones(
                shared,
                other_len,
                |k: usize| -> (word: Block)
                    requires
                        other_len > k,
                    ensures
                        word == word_at(other.live_blocks(), k as int)
                    { other.live_block(k) },
                Ghost(words),
            )
        } else if other_len < me_len {
            count + Self::batch_count_ones(
                shared,
                me_len,
                |k: usize| -> (word: Block)
                    requires
                        me_len > k,
                    ensures
                        word == word_at(self.live_blocks(), k as int)
                    { self.live_block(k) },
                Ghost(words),
            )
        } else {
            count
        }
    }

    /// Computes how many bits would be set in the intersection between two bitsets.
    ///
    /// This is potentially much faster than counting `intersection(other)`, and
    /// needs no storage of its own.
    pub fn intersection_count(&self, other: FixedBitSlice) -> (r: usize)
        ensures
            r == self@.intersect(other@).len(),
    {
        let me_len: usize = self.block_len();
        let other_len: usize = other.block_len();
        let ghost words = and_words(self.live_blocks(), other.live_blocks());
        proof {
            use_type_invariant(self);
            self.lemma_live();
            other.lemma_live();
            lemma_and_words(self.live_blocks(), other.live_blocks());
            lemma_word_sum(words, words.len() as int);
        }
        let shared: usize = if me_len < other_len {
            me_len
        } else {
            other_len
        };
        Self::batch_count_ones(
            0,
            shared,
            |k: usize| -> (word: Block)
                requires
                    me_len > k && other_len > k,
                ensures
                    word == word_at(self.live_blocks(), k as int) & word_at(
                        other.live_blocks(),
                        k as int,
                    )
                { self.live_block(k) & other.live_block(k) },
            Ghost(words),
        )
    }

    /// Computes how many bits would be set in the difference between two bitsets.
    ///
    /// This is potentially much faster than counting `difference(other)`, and
    /// needs no storage of its own.
    pub fn difference_count(&self, other: &FixedBitSet) -> (r: usize)
        ensures
            r == self@.difference(other@).len(),
    {
        let me_len: usize = self.block_len();
        let other_blocks = other.as_slice();
        let ghost words = andnot_words(self.live_blocks(), other_blocks@);
        proof {
            use_type_invariant(self);
            self.lemma_live();
            lemma_andnot_words(self.live_blocks(), other_blocks@);
            lemma_word_sum(words, min(me_len as int, other_blocks@.len() as int));
        }
        let shared: usize = if me_len < other_blocks.len() {
            me_len
        } else {
            other_blocks.len()
        };
        Self::batch_count_ones(
            0,
            shared,
            |k: usize| -> (word: Block)
                requires
                    me_len > k && other_blocks.len() > k,
                ensures
                    word == word_at(self.live_blocks(), k as int) & !word_at(
                        other_blocks@,
                        k as int,
                    )
                { self.live_block(k) & !other_blocks[k] },
            Ghost(words),
        ) + Self::batch_count_ones(
            shared,
            me_len,
            |k: usize| -> (word: Block)
                requires
                    me_len > k,
                ensures
                    word == word_at(self.live_blocks(), k as int)
                { self.live_block(k) },
            Ghost(words),
        )
    }

    /// Computes how many bits would be set in the symmetric difference between two bitsets.
    ///
    /// This is potentially much faster than counting `symmetric_difference(other)`, and needs
    /// no storage of its own.
    pub fn symmetric_difference_count(&self, other: &FixedBitSet) -> (r: usize)
        ensures
            r == self@.difference(other@).union(other@.difference(self@)).len(),
    {
        let me_len: usize = self.block_len();
        let other_blocks = other.as_slice();
        let ghost words = xor_words(self.live_blocks(), other_blocks@);
        proof {
            use_type_invariant(self);
            use_type_invariant(other);
            self.lemma_live();
            lemma_xor_words(self.live_blocks(), other_blocks@);
            lemma_word_sum(words, min(me_len as int, other_blocks@.len() as int));
        }
        let shared: usize = if me_len < other_blocks.len() {
            me_len
        } else {
            other_blocks.len()
        };
        let count: usize = Self::batch_count_ones(
            0,
            shared,
            |k: usize| -> (word: Block)
                requires
                    me_len > k && other_blocks.len() > k,
                ensures
                    word == word_at(self.live_blocks(), k as int) ^ word_at(other_blocks@, k as int)
                { self.live_block(k) ^ other_blocks[k] },
            Ghost(words),
        );
        if other_blocks.len() > me_len {
            count + Self::batch_count_ones(
                shared,
                other_blocks.len(),
                |k: usize| -> (word: Block)
                    requires
                        other_blocks.len() > k,
                    ensures
                        word == word_at(other_blocks@, k as int)
                    { other_blocks[k] },
                Ghost(words),
            )
        } else if other_blocks.len() < me_len {
            count + Self::batch_count_ones(
                shared,
                me_len,
                |k: usize| -> (word: Block)
                    requires
                        me_len > k,
                    ensures
                        word == word_at(self.live_blocks(), k as int)
                    { self.live_block(k) },
                Ghost(words),
            )
        } else {
            count
        }
    }

    /// Returns `true` if `self` has no elements in common with `other`. This
    /// is equivalent to checking for an empty intersection.
    pub fn is_disjoint(self, other: FixedBitSlice) -> (r: bool)
        ensures
            r == self@.disjoint(other@),
    {
        proof {
            self.lemma_live();
            other.lemma_live();
        }
        let me_len: usize = self.simd_block_len();
        let other_len: usize = other.simd_block_len();
        let mut idx: usize = 0;
        while idx < me_len && idx < other_len
            invariant
                block_set(self.live_blocks()) == self@,
                block_set(other.live_blocks()) == other@,
                idx <= me_len,
                idx <= other_len,
                me_len > 0 ==> (me_len - 1) * SIMD_LANES < self.blocks().len(),
                other_len > 0 ==> (other_len - 1) * SIMD_LANES < other.blocks().len(),
                forall|k: int|
                    0 <= k < idx * SIMD_LANES ==> #[trigger] word_at(self.live_blocks(), k)
                        & word_at(other.live_blocks(), k) == 0,
            decreases me_len - idx,
        {
            let x = self.simd_block_at(idx);
            let y = other.simd_block_at(idx);
            let both = x.bitand(y);
            if !both.is_empty() {
                proof {
                    let j = choose|j: int| 0 <= j < SIMD_LANES && both@[j] != 0;
                    let k = idx * SIMD_LANES + j;
                    assert(both@[j] == x@[j] & y@[j]);
                    let i = lemma_nonzero_has_bit(both@[j]);
                    lemma_bit_ops(x@[j], y@[j], i);
                    lemma_at(self.live_blocks(), k, i);
                    lemma_at(other.live_blocks(), k, i);
                    assert(self@.contains(k * Block::BITS + i));
                }
                return false;
            }
            proof {
                assert forall|k: int| 0 <= k < (idx + 1) * SIMD_LANES implies #[trigger] word_at(
                    self.live_blocks(),
                    k,
                ) & word_at(other.live_blocks(), k) == 0 by {
                    if k >= idx * SIMD_LANES {
                        let j = k - idx * SIMD_LANES;
                        assert(both@[j] == x@[j] & y@[j]);
                    }
                }
            }
            idx += 1;
        }
        proof {
            assert forall|i: int| #[trigger] self@.contains(i) implies !other@.contains(i) by {
                let k = i / (Block::BITS as int);
                let j = i % (Block::BITS as int);
                lemma_split(i);
                lemma_member(self.live_blocks(), i);
                lemma_member(other.live_blocks(), i);
                lemma_bit_zero(j);
                lemma_bit_ops(word_at(self.live_blocks(), k), word_at(other.live_blocks(), k), j);
            }
        }
        true
    }

    /// Returns `true` if the set is a subset of another, i.e. `other` contains
    /// at least all the values in `self`.
    pub fn is_subset(self, other: FixedBitSlice) -> (r: bool)
        ensures
            r == self@.subset_of(other@),
    {
        proof {
            self.lemma_live();
            other.lemma_live();
        }
        let me_len: usize = self.simd_block_len();
        let other_len: usize = other.simd_block_len();
        let mut idx: usize = 0;
        while idx < me_len && idx < other_len
            invariant
                block_set(self.live_blocks()) == self@,
                block_set(other.live_blocks()) == other@,
                idx <= me_len,
                idx <= other_len,
                me_len > 0 ==> (me_len - 1) * SIMD_LANES < self.blocks().len(),
                other_len > 0 ==> (other_len - 1) * SIMD_LANES < other.blocks().len(),
                forall|k: int|
                    0 <= k < idx * SIMD_LANES ==> #[trigger] word_at(self.live_blocks(), k)
                        & !word_at(other.live_blocks(), k) == 0,
            decreases me_len - idx,
        {
            let x = self.simd_block_at(idx);
            let y = other.simd_block_at(idx);
            let rest = x.andnot(y);
            if !rest.is_empty() {
                proof {
                    let j = choose|j: int| 0 <= j < SIMD_LANES && rest@[j] != 0;
                    let k = idx * SIMD_LANES + j;
                    assert(rest@[j] == x@[j] & !y@[j]);
                    let i = lemma_nonzero_has_bit(rest@[j]);
                    lemma_bit_ops(x@[j], !y@[j], i);
                    lemma_bit_ops(y@[j], y@[j], i);
                    lemma_at(self.live_blocks(), k, i);
                    lemma_at(other.live_blocks(), k, i);
                    assert(self@.contains(k * Block::BITS + i));
                }
                return false;
            }
            proof {
                assert forall|k: int| 0 <= k < (idx + 1) * SIMD_LANES implies #[trigger] word_at(
                    self.live_blocks(),
                    k,
                ) & !word_at(other.live_blocks(), k) == 0 by {
                    if k >= idx * SIMD_LANES {
                        let j = k - idx * SIMD_LANES;
                        assert(rest@[j] == x@[j] & !y@[j]);
                    }
                }
            }
            idx += 1;
        }
        while idx < me_len
            invariant
                block_set(self.live_blocks()) == self@,
                block_set(other.live_blocks()) == other@,
                idx <= me_len,
                me_len > 0 ==> (me_len - 1) * SIMD_LANES < self.blocks().len(),
                idx < me_len ==> other.blocks().len() <= idx * SIMD_LANES,
                forall|k: int|
                    0 <= k < idx * SIMD_LANES ==> #[trigger] word_at(self.live_blocks(), k)
                        & !word_at(other.live_blocks(), k) == 0,
            decreases me_len - idx,
        {
            let x = self.simd_block_at(idx);
            if !x.is_empty() {
                proof {
                    let j = choose|j: int| 0 <= j < SIMD_LANES && x@[j] != 0;
                    let k = idx * SIMD_LANES + j;
                    let i = lemma_nonzero_has_bit(x@[j]);
                    lemma_bit_zero(i);
                    lemma_at(self.live_blocks(), k, i);
                    lemma_at(other.live_blocks(), k, i);
                    assert(self@.contains(k * Block::BITS + i));
                }
                return false;
            }
            proof {
                assert(0usize & !0usize == 0) by (bit_vector);
                assert forall|k: int| 0 <= k < (idx + 1) * SIMD_LANES implies #[trigger] word_at(
                    self.live_blocks(),
                    k,
                ) & !word_at(other.live_blocks(), k) == 0 by {
                    if k >= idx * SIMD_LANES {
                        assert(x@[k - idx * SIMD_LANES] == 0);
                    }
                }
            }
            idx += 1;
        }
        proof {
            assert forall|i: int| #[trigger] self@.contains(i) implies other@.contains(i) by {
                let k = i / (Block::BITS as int);
                let j = i % (Block::BITS as int);
                lemma_split(i);
                lemma_member(self.live_blocks(), i);
                lemma_member(other.live_blocks(), i);
                lemma_bit_zero(j);
                lemma_bit_ops(word_at(self.live_blocks(), k), !word_at(other.live_blocks(), k), j);
                lemma_bit_ops(word_at(other.live_blocks(), k), 0, j);
            }
        }
        true
    }

    /// Returns `true` if the set is a superset of another, i.e. `self` contains
    /// at least all the values in `other`.
    pub fn is_superset(self, other: FixedBitSlice) -> (r: bool)
        ensures
            r == other@.subset_of(self@),
    {
        other.is_subset(self)
    }

    /// A mask of positions below the length belongs to a stored word.
    proof fn lemma_mask_in_bounds(self, pending: Set<int>, k: int, mask: Block)
        requires
            0 <= k,
            mask != 0,
            forall|j: int|
                0 <= j < Block::BITS ==> #[trigger] bit(mask, j) == pending.contains(
                    k * Block::BITS + j,
                ),
            pending.subset_of(set_int_range(0, self.len() as int)),
            self.wf(),
        ensures
            k < self.blocks().len(),
    {
        let j = lemma_nonzero_has_bit(mask);
        assert(pending.contains(k * Block::BITS + j));
        lemma_blocks_for(self.len() as int);
        lemma_join(k, j);
        lemma_below(k * Block::BITS + j, self.blocks().len() as int);
    }

    /// Counting the masked word `k` extends the count of the words below `done`
    /// to those below `k + 1`.
    proof fn lemma_count_word(
        self,
        counted: Set<int>,
        pending: Set<int>,
        done: int,
        k: int,
        mask: Block,
        word: Block,
    )
        requires
            self.wf(),
            0 <= done,
            0 <= k < self.blocks().len(),
            mask != 0,
            forall|j: int|
                0 <= j < Block::BITS ==> #[trigger] bit(mask, j) == pending.contains(
                    k * Block::BITS + j,
                ),
            forall|i: int| #[trigger] pending.contains(i) ==> done * Block::BITS <= i,
            forall|i: int| #[trigger] pending.contains(i) ==> k * Block::BITS <= i,
            forall|i: int| #[trigger]
                counted.contains(i) && done * Block::BITS <= i ==> pending.contains(i),
            forall|j: int|
                0 <= j < Block::BITS ==> counted.contains(k * Block::BITS + j) == #[trigger] bit(
                    word,
                    j,
                ),
            counted.subset_of(set_int_range(0, self.len() as int)),
        ensures
            ascending(counted, 0, (k + 1) * Block::BITS).len() == ascending(
                counted,
                0,
                done * Block::BITS,
            ).len() + word_set(word).len(),
            ascending(counted, 0, (k + 1) * Block::BITS).len() <= usize::MAX,
    {
        let b = Block::BITS as int;
        lemma_mask_after(pending, done, k, mask);
        lemma_scale(0, done);
        lemma_scale(k, k);
        lemma_ascending_split(counted, 0, done * b, (k + 1) * b);
        lemma_ascending_split(counted, done * b, k * b, (k + 1) * b);
        lemma_ascending_none(counted, done * b, k * b);
        assert forall|x: int| 0 <= x < b implies counted.contains(k * b + x)
            == #[trigger] word_set(word).contains(x) by {
            assert(bit(word, x) == counted.contains(k * b + x));
        }
        lemma_ascending_shift(counted, word_set(word), k * b, b);
        lemma_word_count(word);
        lemma_ascending_within(counted, 0, (k + 1) * b, self.len() as int);
    }

    /// The position of a bit of a word, as a machine integer.
    proof fn lemma_position(self, k: int, j: int)
        requires
            self.wf(),
            0 <= k < self.blocks().len(),
            0 <= j < Block::BITS,
        ensures
            0 <= k * Block::BITS + j < self.blocks().len() * Block::BITS <= usize::MAX + 1,
    {
        lemma_extent(self.spec_len());
        lemma_scale(0, k);
        lemma_scale(k, self.blocks().len() as int);
    }
}

impl<'a> From<&'a FixedBitSet> for FixedBitSlice<'a> {
    fn from(value: &'a FixedBitSet) -> (r: Self)
        ensures
            r.wf(),
            r.blocks() == value.blocks(),
            r.len() == value.len(),
            r.stored() == value@,
            r@ == value@,
    {
        value.as_bit_slice()
    }
}

// A slice is known by its words and its length, which the contract of `from` gives;
// no equality of slices as a whole is claimed.
impl<'a> vstd::std_specs::convert::FromSpecImpl<&'a FixedBitSet> for FixedBitSlice<'a> {
    open spec fn obeys_from_spec() -> bool {
        false
    }

    open spec fn from_spec(value: &'a FixedBitSet) -> Self {
        arbitrary()
    }
}

/// A mask of positions from the word `done` up belongs to such a word.
proof fn lemma_mask_after(pending: Set<int>, done: int, k: int, mask: Block)
    requires
        mask != 0,
        forall|j: int|
            0 <= j < Block::BITS ==> #[trigger] bit(mask, j) == pending.contains(
                k * Block::BITS + j,
            ),
        forall|i: int| #[trigger] pending.contains(i) ==> done * Block::BITS <= i,
    ensures
        done <= k,
        done * Block::BITS <= k * Block::BITS,
        done * Block::BITS <= (k + 1) * Block::BITS,
{
    let j = lemma_nonzero_has_bit(mask);
    assert(pending.contains(k * Block::BITS + j));
    lemma_scale(k, done);
    lemma_scale(done, k);
}

} // verus!
