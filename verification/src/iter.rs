//! Lazy walks over the members of bit sets.
use crate::block::{
    bit, lemma_below, lemma_blocks_for, lemma_change_bit, lemma_extent, lemma_nonzero_has_bit,
    lemma_scale, Block,
};
use crate::listing::{
    is_greatest, is_least, lemma_listing_none, lemma_listing_pop, lemma_listing_pop_back, listing,
};
use crate::slice::FixedBitSlice;
use crate::storage::{
    block_set, lemma_clear_bit, lemma_drop_first, lemma_drop_last, lemma_first_bit,
    lemma_last_bit, lemma_not_words, lemma_zero_words, not_words,
};
use vstd::prelude::*;
use vstd::set_lib::set_int_range;

verus! {

/// A walk over the enabled bits of a set, from both ends.
///
/// The first and the last word are held apart from those between them.
#[derive(Debug)]
pub struct Ones<'a> {
    bitset_front: Block,
    bitset_back: Block,
    block_idx_front: usize,
    block_idx_back: usize,
    remaining_blocks: &'a [Block],
}

impl<'a> View for Ones<'a> {
    type V = Seq<int>;

    /// The positions still to come, in order.
    open spec fn view(&self) -> Seq<int> {
        listing(self.pending())
    }
}

impl<'a> Ones<'a> {
    /// The words that are still to be walked over.
    spec fn words(&self) -> Seq<Block> {
        seq![self.bitset_front] + self.remaining_blocks@ + seq![self.bitset_back]
    }

    /// The positions still to come.
    pub closed spec fn pending(&self) -> Set<int> {
        Set::new(|i: int| block_set(self.words()).contains(i - self.block_idx_front))
    }

    pub closed spec fn wf(&self) -> bool {
        let n = self.remaining_blocks@.len();
        ||| {
            &&& self.block_idx_back == self.block_idx_front + (n + 1) * Block::BITS
            &&& self.block_idx_back + Block::BITS - 1 <= usize::MAX
        }
        ||| {
            &&& n == 0
            &&& self.bitset_front == 0
            &&& self.bitset_back == 0
        }
    }

    /// Takes the lowest set bit out of `n`.
    fn last_positive_bit_and_unset(n: &mut Block) -> (r: usize)
        requires
            *old(n) != 0,
        ensures
            bit(*old(n), r as int),
            forall|j: int| 0 <= j < r ==> !bit(*old(n), j),
            forall|j: int| bit(*final(n), j) == (bit(*old(n), j) && j != r),
    {
        let before = *n;
        let position: usize = before.trailing_zeros() as usize;
        proof {
            let i = lemma_nonzero_has_bit(before);
        }
        *n = before & !(1usize << position);
        proof {
            lemma_change_bit(before, position);
        }
        position
    }

    /// Takes the highest set bit out of `n`.
    fn first_positive_bit_and_unset(n: &mut Block) -> (r: usize)
        requires
            *old(n) != 0,
        ensures
            bit(*old(n), r as int),
            forall|j: int| r < j ==> !bit(*old(n), j),
            forall|j: int| bit(*final(n), j) == (bit(*old(n), j) && j != r),
    {
        let before = *n;
        proof {
            let i = lemma_nonzero_has_bit(before);
        }
        let position: usize = Block::BITS as usize - 1 - before.leading_zeros() as usize;
        *n = before & !(1usize << position);
        proof {
            lemma_change_bit(before, position);
        }
        position
    }

    /// Taking bit `p` out of word `k` takes its position out of those to come.
    proof fn lemma_take(self, after: Self, k: int, p: int)
        requires
            0 <= k < self.words().len(),
            0 <= p < Block::BITS,
            after.block_idx_front == self.block_idx_front,
            after.words() == self.words().update(k, after.words()[k]),
            forall|j: int| bit(after.words()[k], j) == (bit(self.words()[k], j) && j != p),
        ensures
            after.pending() == self.pending().remove(self.block_idx_front + k * Block::BITS + p),
    {
        lemma_clear_bit(self.words(), k, after.words()[k], p);
        assert(after.pending() =~= self.pending().remove(
            self.block_idx_front + k * Block::BITS + p,
        ));
    }

    /// Taking the lowest bit takes the first position.
    proof fn lemma_take_first(self, after: Self, k: int, p: int)
        requires
            0 <= k < self.words().len(),
            after.block_idx_front == self.block_idx_front,
            after.words() == self.words().update(k, after.words()[k]),
            forall|j: int| bit(after.words()[k], j) == (bit(self.words()[k], j) && j != p),
            forall|m: int| 0 <= m < k ==> #[trigger] self.words()[m] == 0,
            bit(self.words()[k], p),
            forall|j: int| 0 <= j < p ==> !bit(self.words()[k], j),
            self.block_idx_front + k * Block::BITS + p <= usize::MAX,
        ensures
            is_least(self.pending(), self.block_idx_front + k * Block::BITS + p),
            after.pending() == self.pending().remove(self.block_idx_front + k * Block::BITS + p),
            self@ == seq![self.block_idx_front + k * Block::BITS + p] + after@,
    {
        let i = self.block_idx_front + k * Block::BITS + p;
        self.lemma_take(after, k, p);
        lemma_first_bit(self.words(), k, p);
        lemma_scale(0, k);
        lemma_listing_pop(self.pending(), i);
    }

    /// The next position, from the low end.
    pub fn next(&mut self) -> (r: Option<usize>)
        requires
            old(self).wf(),
        ensures
            final(self).wf(),
            match r {
                Some(i) => {
                    &&& is_least(old(self).pending(), i as int)
                    &&& final(self).pending() == old(self).pending().remove(i as int)
                    &&& old(self)@ == seq![i as int] + final(self)@
                },
                None => {
                    &&& old(self).pending() == Set::<int>::empty()
                    &&& final(self).pending() == Set::<int>::empty()
                    &&& old(self)@ == Seq::<int>::empty()
                    &&& final(self)@ == Seq::<int>::empty()
                },
            },
    {
        let width: usize = Block::BITS as usize;
        while self.bitset_front == 0
            invariant
                self.wf(),
                width == Block::BITS,
                self.pending() == old(self).pending(),
            decreases self.remaining_blocks@.len(),
        {
            let ghost before = *self;
            if self.remaining_blocks.len() > 0 {
                let first: Block = self.remaining_blocks[0];
                let (_, rest) = self.remaining_blocks.split_at(1);
                proof {
                    lemma_scale(rest@.len() as int, 1);
                    lemma_scale(0, rest@.len() as int);
                }
                self.bitset_front = first;
                self.remaining_blocks = rest;
                self.block_idx_front = self.block_idx_front + width;
                proof {
                    assert(self.words() =~= before.words().skip(1));
                    assert forall|i: int| self.pending().contains(i) == before.pending().contains(
                        i,
                    ) by {
                        lemma_drop_first(before.words(), i - before.block_idx_front);
                    }
                    assert(self.pending() =~= before.pending());
                }
            } else if self.bitset_back != 0 {
                let position: usize = Self::last_positive_bit_and_unset(&mut self.bitset_back);
                proof {
                    lemma_scale(0, 1);
                    assert(self.words() =~= before.words().update(1, self.bitset_back));
                    before.lemma_take_first(*self, 1, position as int);
                }
                return Some(self.block_idx_back + position);
            } else {
                proof {
                    lemma_zero_words(before.words(), 2);
                    lemma_scale(1, 1);
                    lemma_scale(0, 1);
                    assert(self.pending() =~= Set::empty());
                    lemma_listing_none(self.pending());
                }
                return None;
            }
        }
        let ghost before = *self;
        let position: usize = Self::last_positive_bit_and_unset(&mut self.bitset_front);
        proof {
            lemma_scale(0, 1);
            assert(self.words() =~= before.words().update(0, self.bitset_front));
            before.lemma_take_first(*self, 0, position as int);
        }
        Some(self.block_idx_front + position)
    }

    /// Taking the highest bit takes the last position.
    proof fn lemma_take_last(self, after: Self, k: int, p: int)
        requires
            0 <= k < self.words().len(),
            after.block_idx_front == self.block_idx_front,
            after.words() == self.words().update(k, after.words()[k]),
            forall|j: int| bit(after.words()[k], j) == (bit(self.words()[k], j) && j != p),
            forall|m: int| k < m < self.words().len() ==> #[trigger] self.words()[m] == 0,
            bit(self.words()[k], p),
            forall|j: int| p < j ==> !bit(self.words()[k], j),
            self.block_idx_front + k * Block::BITS + p <= usize::MAX,
        ensures
            is_greatest(self.pending(), self.block_idx_front + k * Block::BITS + p),
            after.pending() == self.pending().remove(self.block_idx_front + k * Block::BITS + p),
            self@ == after@.push(self.block_idx_front + k * Block::BITS + p),
    {
        let i = self.block_idx_front + k * Block::BITS + p;
        self.lemma_take(after, k, p);
        lemma_last_bit(self.words(), k, p);
        lemma_scale(0, k);
        lemma_listing_pop_back(self.pending(), i);
    }

    /// The next position, from the high end.
    pub fn next_back(&mut self) -> (r: Option<usize>)
        requires
            old(self).wf(),
        ensures
            final(self).wf(),
            match r {
                Some(i) => {
                    &&& is_greatest(old(self).pending(), i as int)
                    &&& final(self).pending() == old(self).pending().remove(i as int)
                    &&& old(self)@ == final(self)@.push(i as int)
                },
                None => {
                    &&& old(self).pending() == Set::<int>::empty()
                    &&& final(self).pending() == Set::<int>::empty()
                    &&& old(self)@ == Seq::<int>::empty()
                    &&& final(self)@ == Seq::<int>::empty()
                },
            },
    {
        let width: usize = Block::BITS as usize;
        while self.bitset_back == 0
            invariant
                self.wf(),
                width == Block::BITS,
                self.pending() == old(self).pending(),
            decreases self.remaining_blocks@.len(),
        {
            let ghost before = *self;
            let count: usize = self.remaining_blocks.len();
            if count > 0 {
                let last: Block = self.remaining_blocks[count - 1];
                let (rest, _) = self.remaining_blocks.split_at(count - 1);
                proof {
                    lemma_scale(count as int, 1);
                    lemma_scale(0, count as int);
                }
                self.bitset_back = last;
                self.remaining_blocks = rest;
                self.block_idx_back = self.block_idx_back - width;
                proof {
                    assert(self.words() =~= before.words().drop_last());
                    lemma_drop_last(before.words());
                    assert(self.pending() =~= before.pending());
                }
            } else if self.bitset_front != 0 {
                let position: usize = Self::first_positive_bit_and_unset(&mut self.bitset_front);
                proof {
                    lemma_scale(0, 1);
                    assert(self.words() =~= before.words().update(0, self.bitset_front));
                    before.lemma_take_last(*self, 0, position as int);
                }
                return Some(self.block_idx_front + position);
            } else {
                proof {
                    lemma_zero_words(before.words(), 2);
                    lemma_scale(1, 1);
                    lemma_scale(0, 1);
                    assert(self.pending() =~= Set::empty());
                    lemma_listing_none(self.pending());
                }
                return None;
            }
        }
        let ghost before = *self;
        let position: usize = Self::first_positive_bit_and_unset(&mut self.bitset_back);
        proof {
            let k = before.remaining_blocks@.len() + 1;
            assert(self.words() =~= before.words().update(k as int, self.bitset_back));
            before.lemma_take_last(*self, k as int, position as int);
        }
        Some(self.block_idx_back + position)
    }
}

impl<'a> FixedBitSlice<'a> {
    /// Iterates over all enabled bits.
    ///
    /// Iterator element is the index of the `1` bit, type `usize`.
    pub fn ones(self) -> (r: Ones<'a>)
        ensures
            r.wf(),
            r.pending() == self@,
            r@ == listing(self@),
    {
        proof {
            use_type_invariant(&self);
            lemma_extent(self.len());
            self.lemma_live();
        }
        let blocks = self.as_slice();
        let width: usize = Block::BITS as usize;
        if blocks.len() > 0 {
            let first_block: Block = self.live_block(0);
            let (_, rem) = blocks.split_at(1);
            let count: usize = rem.len();
            let (last_block, rem): (Block, &'a [Block]) = if count > 0 {
                let (rest, _) = rem.split_at(count - 1);
                (self.live_block(count), rest)
            } else {
                (0, rem)
            };
            proof {
                lemma_scale(1 + rem@.len() as int, blocks@.len() as int);
                lemma_scale(0, 1);
                lemma_scale(0, rem@.len() as int);
            }
            let r = Ones {
                bitset_front: first_block,
                bitset_back: last_block,
                block_idx_front: 0,
                block_idx_back: (1 + rem.len()) * width,
                remaining_blocks: rem,
            };
            proof {
                assert forall|k: int| 0 <= k < blocks@.len() - 1 implies self.live_blocks()[k]
                    == blocks@[k] by {
                    self.lemma_whole_block(k);
                }
                if count > 0 {
                    assert(r.words() =~= self.live_blocks());
                } else {
                    assert(r.words().drop_last() =~= self.live_blocks());
                    lemma_drop_last(r.words());
                }
                assert(r.pending() =~= self@);
            }
            r
        } else {
            let r = Ones {
                bitset_front: 0,
                bitset_back: 0,
                block_idx_front: 0,
                block_idx_back: 0,
                remaining_blocks: blocks,
            };
            proof {
                lemma_zero_words(r.words(), 2);
                lemma_zero_words(self.live_blocks(), 2);
                lemma_scale(2, 0);
                lemma_scale(0, 2);
                assert(r.pending() =~= self@);
            }
            r
        }
    }
}

/// A walk over the disabled bits of a set.
///
/// The words held are those of the set with every bit inverted.
#[derive(Debug)]
pub struct Zeroes<'a> {
    bitset: Block,
    block_idx: usize,
    len: usize,
    remaining_blocks: &'a [Block],
}

impl<'a> View for Zeroes<'a> {
    type V = Seq<int>;

    /// The positions still to come, in order.
    open spec fn view(&self) -> Seq<int> {
        listing(self.pending())
    }
}

impl<'a> Zeroes<'a> {
    /// The words that are still to be walked over.
    spec fn words(&self) -> Seq<Block> {
        seq![self.bitset] + not_words(self.remaining_blocks@)
    }

    /// The positions still to come.
    pub closed spec fn pending(&self) -> Set<int> {
        Set::new(
            |i: int| i < self.len && block_set(self.words()).contains(i - self.block_idx),
        )
    }

    pub closed spec fn wf(&self) -> bool {
        self.block_idx + (self.remaining_blocks@.len() + 1) * Block::BITS <= usize::MAX + 1
    }

    /// The next position.
    pub fn next(&mut self) -> (r: Option<usize>)
        requires
            old(self).wf(),
        ensures
            final(self).wf(),
            match r {
                Some(i) => {
                    &&& is_least(old(self).pending(), i as int)
                    &&& final(self).pending() == old(self).pending().remove(i as int)
                    &&& old(self)@ == seq![i as int] + final(self)@
                },
                None => {
                    &&& old(self).pending() == Set::<int>::empty()
                    &&& final(self).pending() == Set::<int>::empty()
                    &&& old(self)@ == Seq::<int>::empty()
                    &&& final(self)@ == Seq::<int>::empty()
                },
            },
    {
        let width: usize = Block::BITS as usize;
        while self.bitset == 0
            invariant
                self.wf(),
                width == Block::BITS,
                self.pending() == old(self).pending(),
            decreases self.remaining_blocks@.len(),
        {
            let ghost before = *self;
            if self.remaining_blocks.len() == 0 {
                proof {
                    lemma_zero_words(before.words(), 1);
                    lemma_scale(0, 1);
                    assert(self.pending() =~= Set::empty());
                    lemma_listing_none(self.pending());
                }
                return None;
            }
            let first: Block = self.remaining_blocks[0];
            let (_, rest) = self.remaining_blocks.split_at(1);
            proof {
                lemma_scale(rest@.len() as int + 1, 1);
                lemma_scale(0, rest@.len() as int + 1);
            }
            self.bitset = !first;
            self.remaining_blocks = rest;
            self.block_idx = self.block_idx + width;
            proof {
                assert(self.words() =~= before.words().skip(1));
                assert forall|i: int| self.pending().contains(i) == before.pending().contains(
                    i,
                ) by {
                    lemma_drop_first(before.words(), i - before.block_idx);
                }
                assert(self.pending() =~= before.pending());
            }
        }
        let ghost before = *self;
        let position: usize = Ones::last_positive_bit_and_unset(&mut self.bitset);
        proof {
            lemma_scale(1, self.remaining_blocks@.len() as int + 1);
            lemma_scale(0, 1);
            assert(self.words() =~= before.words().update(0, self.bitset));
            lemma_clear_bit(before.words(), 0, self.bitset, position as int);
            lemma_first_bit(before.words(), 0, position as int);
        }
        let bit: usize = self.block_idx + position;
        // The zeroes beyond the length of the set are not positions of it.
        if bit < self.len {
            proof {
                assert(self.pending() =~= before.pending().remove(bit as int));
                lemma_listing_pop(before.pending(), bit as int);
            }
            Some(bit)
        } else {
            proof {
                assert(before.pending() =~= Set::empty());
                assert(self.pending() =~= Set::empty());
                lemma_listing_none(self.pending());
            }
            None
        }
    }
}

impl<'a> FixedBitSlice<'a> {
    /// Iterates over all disabled bits.
    ///
    /// Iterator element is the index of the `0` bit, type `usize`.
    pub fn zeroes(self) -> (r: Zeroes<'a>)
        ensures
            r.wf(),
            r.pending() == set_int_range(0, self.len() as int).difference(self@),
            r@ == listing(set_int_range(0, self.len() as int).difference(self@)),
    {
        proof {
            use_type_invariant(&self);
            lemma_blocks_for(self.len() as int);
            lemma_extent(self.len());
            lemma_scale(0, 1);
        }
        let blocks = self.as_slice();
        let r = if blocks.len() > 0 {
            let (_, rem) = blocks.split_at(1);
            let r = Zeroes {
                bitset: !blocks[0],
                block_idx: 0,
                len: self.len(),
                remaining_blocks: rem,
            };
            assert(r.words() =~= not_words(blocks@));
            r
        } else {
            Zeroes { bitset: !0usize, block_idx: 0, len: self.len(), remaining_blocks: blocks }
        };
        proof {
            let unset = set_int_range(0, self.len() as int).difference(self@);
            assert forall|i: int| r.pending().contains(i) == unset.contains(i) by {
                if 0 <= i < self.len() {
                    lemma_below(i, blocks@.len() as int);
                    lemma_not_words(blocks@, i);
                }
            }
            assert(r.pending() =~= unset);
        }
        r
    }
}

/// A walk over the members of one set that are not in another.
#[derive(Debug)]
pub struct Difference<'a> {
    iter: Ones<'a>,
    other: FixedBitSlice<'a>,
}

impl<'a> View for Difference<'a> {
    type V = Seq<int>;

    /// The positions still to come, in order.
    open spec fn view(&self) -> Seq<int> {
        listing(self.pending())
    }
}

impl<'a> Difference<'a> {
    /// The positions still to come.
    pub closed spec fn pending(&self) -> Set<int> {
        self.iter.pending().difference(self.other@)
    }

    pub closed spec fn wf(&self) -> bool {
        self.iter.wf()
    }

    /// The next position.
    pub fn next(&mut self) -> (r: Option<usize>)
        requires
            old(self).wf(),
        ensures
            final(self).wf(),
            match r {
                Some(i) => {
                    &&& is_least(old(self).pending(), i as int)
                    &&& final(self).pending() == old(self).pending().remove(i as int)
                    &&& old(self)@ == seq![i as int] + final(self)@
                },
                None => {
                    &&& old(self).pending() == Set::<int>::empty()
                    &&& final(self).pending() == Set::<int>::empty()
                    &&& old(self)@ == Seq::<int>::empty()
                    &&& final(self)@ == Seq::<int>::empty()
                },
            },
    {
        loop
            invariant
                self.wf(),
                self.pending() == old(self).pending(),
            decreases self.iter@.len(),
        {
            let ghost before = *self;
            match self.iter.next() {
                Some(i) => {
                    if !self.other.contains(i) {
                        proof {
                            assert(self.pending() =~= before.pending().remove(i as int));
                            lemma_listing_pop(before.pending(), i as int);
                        }
                        return Some(i);
                    }
                    assert(self.pending() =~= before.pending());
                },
                None => {
                    proof {
                        assert(self.pending() =~= Set::empty());
                        assert(before.pending() =~= Set::empty());
                        lemma_listing_none(self.pending());
                    }
                    return None;
                },
            }
        }
    }
}

impl<'a> FixedBitSlice<'a> {
    /// Returns a lazy iterator over the difference of two `FixedBitSet`s. The difference of `a`
    /// and `b` is the elements of `a` which are not in `b`.
    pub fn difference(self, other: FixedBitSlice<'a>) -> (r: Difference<'a>)
        ensures
            r.wf(),
            r.pending() == self@.difference(other@),
            r@ == listing(self@.difference(other@)),
    {
        Difference { iter: self.ones(), other }
    }
}

/// A walk over the members of one set that are in another too.
#[derive(Debug)]
pub struct Intersection<'a> {
    iter: Ones<'a>,
    other: FixedBitSlice<'a>,
}

impl<'a> View for Intersection<'a> {
    type V = Seq<int>;

    /// The positions still to come, in order.
    open spec fn view(&self) -> Seq<int> {
        listing(self.pending())
    }
}

impl<'a> Intersection<'a> {
    /// The positions still to come.
    pub closed spec fn pending(&self) -> Set<int> {
        self.iter.pending().intersect(self.other@)
    }

    pub closed spec fn wf(&self) -> bool {
        self.iter.wf()
    }

    /// The next position.
    pub fn next(&mut self) -> (r: Option<usize>)
        requires
            old(self).wf(),
        ensures
            final(self).wf(),
            match r {
                Some(i) => {
                    &&& is_least(old(self).pending(), i as int)
                    &&& final(self).pending() == old(self).pending().remove(i as int)
                    &&& old(self)@ == seq![i as int] + final(self)@
                },
                None => {
                    &&& old(self).pending() == Set::<int>::empty()
                    &&& final(self).pending() == Set::<int>::empty()
                    &&& old(self)@ == Seq::<int>::empty()
                    &&& final(self)@ == Seq::<int>::empty()
                },
            },
    {
        loop
            invariant
                self.wf(),
                self.pending() == old(self).pending(),
            decreases self.iter@.len(),
        {
            let ghost before = *self;
            match self.iter.next() {
                Some(i) => {
                    if self.other.contains(i) {
                        proof {
                            assert(self.pending() =~= before.pending().remove(i as int));
                            lemma_listing_pop(before.pending(), i as int);
                        }
                        return Some(i);
                    }
                    assert(self.pending() =~= before.pending());
                },
                None => {
                    proof {
                        assert(self.pending() =~= Set::empty());
                        assert(before.pending() =~= Set::empty());
                        lemma_listing_none(self.pending());
                    }
                    return None;
                },
            }
        }
    }
}

impl<'a> FixedBitSlice<'a> {
    /// Returns a lazy iterator over the intersection of two `FixedBitSet`s
    pub fn intersection(self, other: FixedBitSlice<'a>) -> (r: Intersection<'a>)
        ensures
            r.wf(),
            r.pending() == self@.intersect(other@),
            r@ == listing(self@.intersect(other@)),
    {
        Intersection { iter: self.ones(), other }
    }
}

/// A walk over the members of two sets: those of the first, then those that only
/// the second has.
#[derive(Debug)]
pub struct Union<'a> {
    first: Ones<'a>,
    second: Difference<'a>,
}

impl<'a> View for Union<'a> {
    type V = Seq<int>;

    /// The positions still to come, in order.
    closed spec fn view(&self) -> Seq<int> {
        self.first@ + self.second@
    }
}

impl<'a> Union<'a> {
    pub closed spec fn wf(&self) -> bool {
        self.first.wf() && self.second.wf()
    }

    /// The next position.
    pub fn next(&mut self) -> (r: Option<usize>)
        requires
            old(self).wf(),
        ensures
            final(self).wf(),
            match r {
                Some(i) => old(self)@ == seq![i as int] + final(self)@,
                None => old(self)@ == Seq::<int>::empty() && final(self)@ == Seq::<int>::empty(),
            },
    {
        match self.first.next() {
            Some(i) => Some(i),
            None => self.second.next(),
        }
    }
}

impl<'a> FixedBitSlice<'a> {
    /// Returns a lazy iterator over the union of two `FixedBitSet`s.
    pub fn union(self, other: FixedBitSlice<'a>) -> (r: Union<'a>)
        ensures
            r.wf(),
            r@ == listing(self@) + listing(other@.difference(self@)),
    {
        Union { first: self.ones(), second: other.difference(self) }
    }
}

/// A walk over the members of either of two sets that are not in the other one.
#[derive(Debug)]
pub struct SymmetricDifference<'a> {
    first: Difference<'a>,
    second: Difference<'a>,
}

impl<'a> View for SymmetricDifference<'a> {
    type V = Seq<int>;

    /// The positions still to come, in order.
    closed spec fn view(&self) -> Seq<int> {
        self.first@ + self.second@
    }
}

impl<'a> SymmetricDifference<'a> {
    pub closed spec fn wf(&self) -> bool {
        self.first.wf() && self.second.wf()
    }

    /// The next position.
    pub fn next(&mut self) -> (r: Option<usize>)
        requires
            old(self).wf(),
        ensures
            final(self).wf(),
            match r {
                Some(i) => old(self)@ == seq![i as int] + final(self)@,
                None => old(self)@ == Seq::<int>::empty() && final(self)@ == Seq::<int>::empty(),
            },
    {
        match self.first.next() {
            Some(i) => Some(i),
            None => self.second.next(),
        }
    }
}

impl<'a> FixedBitSlice<'a> {
    /// Returns a lazy iterator over the symmetric difference of two `FixedBitSet`s.
    /// The symmetric difference of `a` and `b` is the elements of one, but not both, sets.
    pub fn symmetric_difference(self, other: FixedBitSlice<'a>) -> (r: SymmetricDifference<'a>)
        ensures
            r.wf(),
            r@ == listing(self@.difference(other@)) + listing(
                other@.difference(self@),
            ),
    {
        SymmetricDifference { first: self.difference(other), second: other.difference(self) }
    }
}

} // verus!
