//! Ranges of bit positions, and the words and masks that cover them.
use crate::block::{
    bit, div_rem, lemma_below, lemma_bit_all, lemma_bit_nonzero, lemma_bit_ops, lemma_bit_zero,
    lemma_join, lemma_mask_from, lemma_mask_to, lemma_scale, lemma_split, Block,
};
use core::ops::{Range, RangeFrom, RangeFull, RangeTo};
use vstd::prelude::*;
use vstd::set_lib::set_int_range;

verus! {

/// `core::ops::RangeFull`, written `..`.
#[verifier::external_type_specification]
pub struct ExRangeFull(RangeFull);

/// `core::ops::RangeFrom`, written `a..`; its field is the lower bound.
#[verifier::external_type_specification]
#[verifier::reject_recursive_types(Idx)]
pub struct ExRangeFrom<Idx>(RangeFrom<Idx>);

/// `core::ops::RangeTo`, written `..b`; its field is the upper bound.
#[verifier::external_type_specification]
#[verifier::reject_recursive_types(Idx)]
pub struct ExRangeTo<Idx>(RangeTo<Idx>);

/// A range of bit positions written `..`, `a..`, `..b` or `a..b`.
pub trait IndexRange: Sized {
    /// The lower bound, if there is one.
    spec fn lower(&self) -> Option<usize>;

    /// The upper bound, if there is one.
    spec fn upper(&self) -> Option<usize>;

    /// The lower bound, if there is one.
    fn start(&self) -> (r: Option<usize>)
        ensures
            r == self.lower(),
    ;

    /// The upper bound, if there is one; it is not part of the range.
    fn end(&self) -> (r: Option<usize>)
        ensures
            r == self.upper(),
    ;
}

impl IndexRange for RangeFull {
    open spec fn lower(&self) -> Option<usize> {
        None
    }

    open spec fn upper(&self) -> Option<usize> {
        None
    }

    fn start(&self) -> (r: Option<usize>) {
        None
    }

    fn end(&self) -> (r: Option<usize>) {
        None
    }
}

impl IndexRange for RangeFrom<usize> {
    open spec fn lower(&self) -> Option<usize> {
        Some(self.start)
    }

    open spec fn upper(&self) -> Option<usize> {
        None
    }

    fn start(&self) -> (r: Option<usize>) {
        Some(self.start)
    }

    fn end(&self) -> (r: Option<usize>) {
        None
    }
}

impl IndexRange for RangeTo<usize> {
    open spec fn lower(&self) -> Option<usize> {
        None
    }

    open spec fn upper(&self) -> Option<usize> {
        Some(self.end)
    }

    fn start(&self) -> (r: Option<usize>) {
        None
    }

    fn end(&self) -> (r: Option<usize>) {
        Some(self.end)
    }
}

impl IndexRange for Range<usize> {
    open spec fn lower(&self) -> Option<usize> {
        Some(self.start)
    }

    open spec fn upper(&self) -> Option<usize> {
        Some(self.end)
    }

    fn start(&self) -> (r: Option<usize>) {
        Some(self.start)
    }

    fn end(&self) -> (r: Option<usize>) {
        Some(self.end)
    }
}

/// The first position of `range`.
pub open spec fn range_start<T: IndexRange>(range: T) -> int {
    match range.lower() {
        Some(x) => x as int,
        None => 0,
    }
}

/// The position after the last one of `range` in a set of `length` bits.
pub open spec fn range_end<T: IndexRange>(range: T, length: int) -> int {
    match range.upper() {
        Some(x) => x as int,
        None => length,
    }
}

/// Whether `range` is a range of positions in a set of `length` bits.
pub open spec fn range_fits<T: IndexRange>(range: T, length: int) -> bool {
    range_start(range) <= range_end(range, length) <= length
}

/// The positions in `range`.
pub open spec fn range_set<T: IndexRange>(range: T, length: int) -> Set<int> {
    set_int_range(range_start(range), range_end(range, length))
}

/// The words that hold the bits of a range, each with the mask of its bits in
/// the range.
pub struct Masks {
    first_block: usize,
    first_mask: Block,
    last_block: usize,
    last_mask: Block,
}

impl Masks {
    pub closed spec fn wf(&self) -> bool {
        &&& self.last_block < usize::MAX
        &&& self.first_block <= self.last_block + 1
        &&& self.first_mask != 0
    }

    /// The positions that the words still to come cover.
    pub closed spec fn pending(&self) -> Set<int> {
        Set::new(|i: int| self.covers(i / (Block::BITS as int), i % (Block::BITS as int)))
    }

    /// Whether bit `j` of word `k` is still to come.
    spec fn covers(&self, k: int, j: int) -> bool {
        &&& self.first_block <= k <= self.last_block
        &&& k == self.first_block ==> bit(self.first_mask, j)
        &&& k == self.last_block ==> bit(self.last_mask, j)
    }

    /// An upper bound on the number of words still to come.
    pub closed spec fn fuel(&self) -> nat {
        (self.last_block + 1 - self.first_block) as nat
    }

    /// The bits of the first word that are still to come.
    proof fn lemma_covers(&self, k: int, mask: Block)
        requires
            self.first_block == k <= self.last_block,
            forall|j: int|
                0 <= j < Block::BITS ==> #[trigger] bit(mask, j) == self.covers(k, j),
        ensures
            forall|j: int|
                0 <= j < Block::BITS ==> #[trigger] bit(mask, j) == self.pending().contains(
                    k * Block::BITS + j,
                ),
            forall|i: int| #[trigger] self.pending().contains(i) ==> k * Block::BITS <= i,
    {
        assert forall|j: int| 0 <= j < Block::BITS implies #[trigger] bit(mask, j)
            == self.pending().contains(k * Block::BITS + j) by {
            lemma_join(k, j);
        }
        assert forall|i: int| #[trigger] self.pending().contains(i) implies k * Block::BITS
            <= i by {
            lemma_below(i, k);
        }
    }

    /// The words and masks of `range` in a set of `length` bits.
    pub fn new<T: IndexRange>(range: T, length: usize) -> (r: Masks)
        requires
            range_fits(range, length as int),
        ensures
            r.wf(),
            r.pending() == range_set(range, length as int),
    {
        let start: usize = match range.start() {
            Some(x) => x,
            None => 0,
        };
        let end: usize = match range.end() {
            Some(x) => x,
            None => length,
        };
        let width: usize = Block::BITS as usize;
        let (first_block, first_rem) = div_rem(start, width);
        let (last_block, last_rem) = div_rem(end, width);
        proof {
            lemma_split(start as int);
            lemma_split(end as int);
        }
        let shift: usize = width - last_rem - 1;
        let r = Masks {
            first_block,
            first_mask: !0usize << first_rem,
            last_block,
            last_mask: (!0usize >> 1) >> shift,
        };
        proof {
            let b = Block::BITS as int;
            lemma_mask_from(first_rem, b - 1);
            lemma_bit_nonzero(r.first_mask, b - 1);
            lemma_scale(first_block as int, last_block as int);
            lemma_scale(last_block as int, first_block as int);
            lemma_scale(1, last_block as int);
            assert forall|i: int| r.pending().contains(i) == (start <= i < end) by {
                let k = i / b;
                let j = i % b;
                lemma_split(i);
                lemma_mask_from(first_rem, j);
                lemma_mask_to(last_rem, shift, j);
                lemma_scale(k, first_block as int);
                lemma_scale(first_block as int, k);
                lemma_scale(k, last_block as int);
                lemma_scale(last_block as int, k);
            }
            assert(r.pending() =~= range_set(range, length as int));
        }
        r
    }

    /// The next word that holds bits of the range, and the mask of those bits.
    pub fn next(&mut self) -> (r: Option<(usize, Block)>)
        requires
            old(self).wf(),
        ensures
            final(self).wf(),
            match r {
                Some((k, mask)) => {
                    &&& mask != 0
                    &&& forall|j: int|
                        0 <= j < Block::BITS ==> #[trigger] bit(mask, j)
                            == old(self).pending().contains(k * Block::BITS + j)
                    &&& forall|i: int| #[trigger]
                        old(self).pending().contains(i) ==> k * Block::BITS <= i
                    &&& forall|i: int| #[trigger]
                        final(self).pending().contains(i) <==> (k + 1) * Block::BITS <= i && old(
                            self,
                        ).pending().contains(i)
                    &&& final(self).fuel() < old(self).fuel()
                },
                None => {
                    &&& old(self).pending() == Set::<int>::empty()
                    &&& final(self).pending() == Set::<int>::empty()
                },
            },
    {
        let ghost before = *self;
        let ghost b = Block::BITS as int;
        if self.first_block < self.last_block {
            let k = self.first_block;
            let mask = self.first_mask;
            self.first_block += 1;
            self.first_mask = !0usize;
            proof {
                before.lemma_covers(k as int, mask);
                assert(!0usize != 0) by (bit_vector);
                assert forall|i: int| #[trigger] self.pending().contains(i) <==> (k + 1) * b <= i
                    && before.pending().contains(i) by {
                    let j = i % b;
                    lemma_split(i);
                    lemma_bit_all(j);
                    lemma_scale(i / b, k as int);
                    lemma_scale(k as int, i / b);
                    lemma_scale(k as int, k as int);
                    lemma_scale(k + 1, i / b);
                }
            }
            Some((k, mask))
        } else if self.first_block == self.last_block {
            let k = self.first_block;
            let mask = self.first_mask & self.last_mask;
            self.first_block += 1;
            proof {
                assert forall|j: int| 0 <= j < b implies #[trigger] bit(mask, j) == (bit(
                    before.first_mask,
                    j,
                ) && bit(before.last_mask, j)) by {
                    lemma_bit_ops(before.first_mask, before.last_mask, j);
                }
                before.lemma_covers(k as int, mask);
                assert(self.pending() =~= Set::empty());
                assert forall|i: int| #[trigger] before.pending().contains(i) implies i < (k + 1)
                    * b by {
                    lemma_below(i, k + 1);
                }
            }
            if mask == 0 {
                proof {
                    assert forall|i: int| !before.pending().contains(i) by {
                        lemma_split(i);
                        lemma_bit_zero(i % b);
                    }
                    assert(before.pending() =~= Set::empty());
                }
                None
            } else {
                Some((k, mask))
            }
        } else {
            proof {
                assert(before.pending() =~= Set::empty());
            }
            None
        }
    }
}

} // verus!
