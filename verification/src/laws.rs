//! What holds across the operations on bit sets.
use crate::bitset::FixedBitSet;
use crate::block::{
    bit, blocks_for, cut_word, lemma_blocks_for, lemma_scale, lemma_word_ext, mask_below, word_set,
    Block,
};
use crate::listing::{indexable, is_greatest, is_least, lemma_ascending, lemma_listing_len, listing};
use crate::range::{range_end, range_fits, range_set, range_start, IndexRange};
use crate::slice::FixedBitSlice;
use crate::slice_mut::{assigned, toggled, FixedBitSliceMut};
use crate::storage::{block_set, lemma_at, lemma_zero_words};
use vstd::arithmetic::power2::{lemma2_to64, pow2};
use vstd::bits::{
    lemma_usize_low_bits_mask_is_mod, lemma_usize_pow2_no_overflow, lemma_usize_shl_is_mul,
    lemma_usize_shr_is_div, low_bits_mask,
};
use vstd::prelude::*;
use vstd::set_lib::{
    lemma_int_range, lemma_len_subset, lemma_set_difference_len, lemma_set_disjoint_lens,
    lemma_set_intersect_union_lens, lemma_subset_equality, set_int_range,
};

verus! {

/// The members of a set lie below its length, and can be indexed and counted.
pub proof fn law_members_lie_below_length(s: FixedBitSlice)
    ensures
        s@.subset_of(set_int_range(0, s.len() as int)),
        indexable(s@),
        s@.finite(),
        s@.len() <= s.len(),
{
    lemma_int_range(0, s.len() as int);
    lemma_len_subset(s@, set_int_range(0, s.len() as int));
}

/// A slice of the first bits of `data` has their number as its length, and its
/// words are the least number of first words of `data` that hold them.
pub proof fn law_slice_has_the_first_words(s: FixedBitSlice, data: Seq<Block>, bits: usize)
    requires
        bits <= data.len() * Block::BITS,
        s.blocks() == data.take(blocks_for(bits as int)),
        s.len() == bits,
    ensures
        s.blocks().len() * Block::BITS >= bits,
        forall|n: int| #[trigger] (n * Block::BITS) >= bits ==> s.blocks().len() <= n,
        s.blocks().len() == 0 <==> bits == 0,
        forall|k: int| 0 <= k < s.blocks().len() ==> #[trigger] s.blocks()[k] == data[k],
{
    let count = blocks_for(bits as int);
    lemma_blocks_for(bits as int);
    lemma_scale(data.len() as int, count - 1);
    lemma_scale(count - 1, count - 1);
    assert forall|n: int| #[trigger] (n * Block::BITS) >= bits implies count <= n by {
        lemma_scale(n, count - 1);
    }
    lemma_scale(0, 0);
}

/// A listing names each member of its set once, in ascending order.
pub proof fn law_listing(s: Set<int>)
    requires
        forall|i: int| #[trigger] s.contains(i) ==> 0 <= i <= usize::MAX,
    ensures
        indexable(s),
        listing(s).to_set() == s,
        listing(s).no_duplicates(),
        listing(s).len() == s.len(),
        forall|a: int, b: int|
            0 <= a < b < listing(s).len() ==> #[trigger] listing(s)[a] < #[trigger] listing(s)[b],
{
    lemma_ascending(s, 0, usize::MAX + 1);
    lemma_listing_len(s);
    assert forall|i: int| listing(s).to_set().contains(i) == s.contains(i) by {
        assert(listing(s).contains(i) == (0 <= i < usize::MAX + 1 && s.contains(i)));
    }
    assert(listing(s).to_set() =~= s);
}

/// The bits of a word are the binary digits of its value: bit `i` is the digit of
/// weight `2` to the `i`.
pub proof fn law_bits_are_binary_digits(word: Block, i: int)
    ensures
        bit(word, i) == word_set(word).contains(i),
        bit(word, i) ==> 0 <= i < Block::BITS,
        0 <= i < Block::BITS ==> (bit(word, i) <==> (word as int / pow2(i as nat) as int) % 2 == 1),
{
    if 0 <= i < Block::BITS {
        let k = i as usize;
        let shifted = word >> k;
        lemma_usize_shr_is_div(word, k);
        assert(shifted & 1 == shifted % 2) by (bit_vector);
    }
}

/// Cutting a word to its first `n` bits is taking its value modulo `2` to the `n`,
/// and a word has no more bits than its width.
pub proof fn law_cutting_is_taking_the_remainder(word: Block, n: int)
    requires
        0 <= n,
    ensures
        n < Block::BITS ==> cut_word(word, n) == word as int % pow2(n as nat) as int,
        n >= Block::BITS ==> cut_word(word, n) == word,
{
    if n == 0 {
        lemma2_to64();
    } else if n < Block::BITS {
        let k = n as usize;
        let shift = (Block::BITS - n - 1) as usize;
        let mask = mask_below(n);
        lemma_usize_pow2_no_overflow(n as nat);
        lemma_usize_shl_is_mul(1, k);
        assert(mask == (1usize << k) - 1) by (bit_vector)
            requires
                mask == (!0usize >> 1) >> shift,
                0 < k < usize::BITS,
                shift == usize::BITS - k - 1,
        ;
        assert(low_bits_mask(n as nat) == pow2(n as nat) - 1) by {
            reveal(low_bits_mask);
        }
        lemma_usize_low_bits_mask_is_mod(word, n as nat);
    }
}

/// As many words hold `bits` bits as it takes, and no more.
pub proof fn law_word_count_is_least(bits: int, n: int)
    requires
        0 <= bits,
    ensures
        0 <= blocks_for(bits),
        bits <= blocks_for(bits) * Block::BITS,
        bits <= n * Block::BITS ==> blocks_for(bits) <= n,
{
    lemma_blocks_for(bits);
    lemma_scale(n, blocks_for(bits) - 1);
    lemma_scale(blocks_for(bits) - 1, blocks_for(bits) - 1);
}

/// A valid slice, a valid slice that can be changed, and a valid owned set have just
/// as many words as it takes to hold their bits.
pub proof fn law_valid_sets_have_just_enough_words(
    s: FixedBitSlice,
    m: &FixedBitSliceMut,
    set: &FixedBitSet,
    n: int,
)
    requires
        s.wf(),
        m.wf(),
        set.wf(),
    ensures
        s.len() <= s.blocks().len() * Block::BITS,
        s.len() <= n * Block::BITS ==> s.blocks().len() <= n,
        m.bits <= m.blocks().len() * Block::BITS,
        m.bits <= n * Block::BITS ==> m.blocks().len() <= n,
        set.len() <= set.blocks().len() * Block::BITS,
        set.len() <= n * Block::BITS ==> set.blocks().len() <= n,
{
    law_word_count_is_least(s.len() as int, n);
    law_word_count_is_least(m.bits as int, n);
    law_word_count_is_least(set.len() as int, n);
}

/// The position of digit `j` of word `k` is `k` times the width and `j`; there are
/// no other positions.
pub proof fn law_words_hold_positions(blocks: Seq<Block>, k: int, j: int, i: int)
    ensures
        0 <= k < blocks.len() && 0 <= j < Block::BITS ==> (block_set(blocks).contains(
            k * Block::BITS + j,
        ) <==> (blocks[k] as int / pow2(j as nat) as int) % 2 == 1),
        block_set(blocks).contains(i) ==> 0 <= i < blocks.len() * Block::BITS,
{
    if 0 <= k < blocks.len() && 0 <= j < Block::BITS {
        lemma_at(blocks, k, j);
        law_bits_are_binary_digits(blocks[k], j);
    }
}

/// A slice contains a position exactly where it lies below the length and the
/// digit that its words hold there is one; no other position is contained.
pub proof fn law_slice_contains_what_words_hold(s: FixedBitSlice, k: int, j: int, i: int)
    ensures
        0 <= k < s.blocks().len() && 0 <= j < Block::BITS ==> (s.stored().contains(
            k * Block::BITS + j,
        ) <==> (s.blocks()[k] as int / pow2(j as nat) as int) % 2 == 1),
        0 <= k < s.blocks().len() && 0 <= j < Block::BITS ==> (s@.contains(k * Block::BITS + j)
            <==> k * Block::BITS + j < s.len() && (s.blocks()[k] as int / pow2(j as nat) as int) % 2
            == 1),
        s.stored().contains(i) ==> 0 <= i < s.blocks().len() * Block::BITS,
        s@.contains(i) ==> 0 <= i < s.len() && i < s.blocks().len() * Block::BITS,
{
    law_words_hold_positions(s.blocks(), k, j, i);
    lemma_scale(0, k);
}

/// A slice that can be changed and borrows `words` contains a position exactly where
/// it lies below the length and the digit that `words` hold there is one; no other
/// position is contained.
pub proof fn law_mutable_slice_contains_what_words_hold(
    m: &FixedBitSliceMut,
    words: Seq<Block>,
    k: int,
    j: int,
    i: int,
)
    requires
        m.data@ == words,
    ensures
        m.blocks() == words,
        0 <= k < words.len() && 0 <= j < Block::BITS ==> (m.stored().contains(k * Block::BITS + j)
            <==> (words[k] as int / pow2(j as nat) as int) % 2 == 1),
        0 <= k < words.len() && 0 <= j < Block::BITS ==> (m@.contains(k * Block::BITS + j) <==> k
            * Block::BITS + j < m.bits && (words[k] as int / pow2(j as nat) as int) % 2 == 1),
        m.stored().contains(i) ==> 0 <= i < words.len() * Block::BITS,
        m@.contains(i) ==> 0 <= i < m.bits && i < words.len() * Block::BITS,
{
    law_words_hold_positions(words, k, j, i);
    lemma_scale(0, k);
}

/// An owned set contains a position exactly where the digit that its words hold
/// there is one, and no position at or past its length.
pub proof fn law_set_contains_what_words_hold(set: &FixedBitSet, k: int, j: int, i: int)
    requires
        set.wf(),
    ensures
        0 <= k < set.blocks().len() && 0 <= j < Block::BITS ==> (set@.contains(k * Block::BITS + j)
            <==> (set.blocks()[k] as int / pow2(j as nat) as int) % 2 == 1),
        set@.contains(i) ==> 0 <= i < set.len(),
{
    law_words_hold_positions(set.blocks(), k, j, i);
}

/// Nothing in a set lies below its least member or above its greatest, and what
/// nothing lies below or above is the least or the greatest.
pub proof fn law_least_and_greatest(s: Set<int>, i: int, j: int)
    ensures
        is_least(s, i) ==> s.contains(i),
        is_least(s, i) && s.contains(j) ==> i <= j,
        s.contains(i) && !is_least(s, i) ==> exists|x: int| x < i && #[trigger] s.contains(x),
        is_greatest(s, i) ==> s.contains(i),
        is_greatest(s, i) && s.contains(j) ==> j <= i,
        s.contains(i) && !is_greatest(s, i) ==> exists|x: int| i < x && #[trigger] s.contains(x),
{
}

/// A position is in a range exactly where it is not below the lower bound, if there
/// is one, and is below the upper bound, or below the length where there is none.
/// The range fits where the bounds are in order and not past the length.
pub proof fn law_range_lies_between_its_bounds<T: IndexRange>(range: T, length: int, i: int)
    requires
        0 <= length,
    ensures
        range_set(range, length).contains(i) <==> {
            &&& 0 <= i
            &&& range.lower() matches Some(a) ==> a <= i
            &&& range.upper() matches Some(b) ==> i < b
            &&& range.upper() is None ==> i < length
        },
        range_fits(range, length) <==> {
            &&& range.lower() matches Some(a) ==> a <= length
            &&& range.upper() matches Some(b) ==> b <= length
            &&& range.lower() matches Some(a) ==> (range.upper() matches Some(b) ==> a <= b)
        },
{
}

/// The range `a..b` has the bounds `a` and `b`, and the positions from `a` up to and
/// without `b`, whatever the length; it fits where they are in order and `b` is not
/// past the length.
pub proof fn law_range_between(a: usize, b: usize, length: int)
    ensures
        (a..b).lower() == Some(a),
        (a..b).upper() == Some(b),
        range_start(a..b) == a,
        range_end(a..b, length) == b,
        range_set(a..b, length) == set_int_range(a as int, b as int),
        range_fits(a..b, length) <==> a <= b && b <= length,
{
}

/// The range `a..` has the lower bound `a` alone, and the positions from `a` up to
/// and without the length; it fits where `a` is not past the length.
pub proof fn law_range_from(a: usize, length: int)
    ensures
        (a..).lower() == Some(a),
        (a..).upper() is None,
        range_start(a..) == a,
        range_end(a.., length) == length,
        range_set(a.., length) == set_int_range(a as int, length),
        range_fits(a.., length) <==> a <= length,
{
}

/// The range `..b` has the upper bound `b` alone, and the positions below `b`,
/// whatever the length; it fits where `b` is not past the length.
pub proof fn law_range_to(b: usize, length: int)
    ensures
        (..b).lower() is None,
        (..b).upper() == Some(b),
        range_start(..b) == 0,
        range_end(..b, length) == b,
        range_set(..b, length) == set_int_range(0, b as int),
        range_fits(..b, length) <==> b <= length,
{
}

/// The range `..` has no bounds, and all positions below the length; it always fits.
pub proof fn law_range_full(length: int)
    requires
        0 <= length,
    ensures
        (..).lower() is None,
        (..).upper() is None,
        range_start(..) == 0,
        range_end(.., length) == length,
        range_set(.., length) == set_int_range(0, length),
        range_fits(.., length),
{
}

/// A range of one position holds its bit: all bits of the range are set, any bit of
/// it is set, one is counted, and none is counted as unset, exactly where the set
/// contains the position.
pub proof fn law_range_of_one_position(s: FixedBitSlice, a: usize, b: usize)
    requires
        b == a + 1,
        b <= s.len(),
    ensures
        range_fits(a..b, s.len() as int),
        range_set(a..b, s.len() as int).subset_of(s@) <==> s@.contains(a as int),
        !range_set(a..b, s.len() as int).disjoint(s@) <==> s@.contains(a as int),
        range_set(a..b, s.len() as int).intersect(s@).len() == (if s@.contains(a as int) {
            1nat
        } else {
            0
        }),
        range_set(a..b, s.len() as int).difference(s@).len() == (if s@.contains(a as int) {
            0nat
        } else {
            1
        }),
{
    let wanted = range_set(a..b, s.len() as int);
    assert(wanted =~= set![a as int]);
    assert(wanted.contains(a as int));
    if s@.contains(a as int) {
        assert(wanted.intersect(s@) =~= wanted);
        assert(wanted.difference(s@) =~= Set::empty());
    } else {
        assert(wanted.intersect(s@) =~= Set::empty());
        assert(wanted.difference(s@) =~= wanted);
    }
}

/// The counts of two ranges that meet add up to that of the range from the start of
/// the first to the end of the second, for set bits and for unset bits.
pub proof fn law_counts_of_meeting_ranges_add_up(s: FixedBitSlice, a: usize, b: usize, c: usize)
    requires
        a <= b <= c <= s.len(),
    ensures
        range_set(a..b, s.len() as int).intersect(s@).len() + range_set(
            b..c,
            s.len() as int,
        ).intersect(s@).len() == range_set(a..c, s.len() as int).intersect(s@).len(),
        range_set(a..b, s.len() as int).difference(s@).len() + range_set(
            b..c,
            s.len() as int,
        ).difference(s@).len() == range_set(a..c, s.len() as int).difference(s@).len(),
        range_set(a..b, s.len() as int).intersect(s@).len() + range_set(
            a..b,
            s.len() as int,
        ).difference(s@).len() == b - a,
{
    let n = s.len() as int;
    let x = range_set(a..b, n);
    let y = range_set(b..c, n);
    let z = range_set(a..c, n);
    law_ones_and_zeroes_fill_range(s, a..b);
    lemma_int_range(a as int, c as int);
    lemma_len_subset(x.intersect(s@), z);
    lemma_len_subset(y.intersect(s@), z);
    lemma_len_subset(x.difference(s@), z);
    lemma_len_subset(y.difference(s@), z);
    assert(x.intersect(s@) + y.intersect(s@) =~= z.intersect(s@));
    lemma_set_disjoint_lens(x.intersect(s@), y.intersect(s@));
    assert(x.difference(s@) + y.difference(s@) =~= z.difference(s@));
    lemma_set_disjoint_lens(x.difference(s@), y.difference(s@));
}

/// The set is full exactly where counting its bits gives its length.
pub proof fn law_full_means_count_is_len(s: FixedBitSlice)
    ensures
        s@ == set_int_range(0, s.len() as int) <==> range_set(.., s.len() as int).intersect(
            s@,
        ).len() == s.len(),
{
    let all = set_int_range(0, s.len() as int);
    lemma_int_range(0, s.len() as int);
    law_members_lie_below_length(s);
    assert(range_set(.., s.len() as int).intersect(s@) =~= s@);
    if s@.len() == s.len() {
        lemma_subset_equality(s@, all);
    }
}

/// In every range the set bits and the unset bits add up to its length.
pub proof fn law_ones_and_zeroes_fill_range<T: IndexRange>(s: FixedBitSlice, range: T)
    requires
        range_fits(range, s.len() as int),
    ensures
        range_set(range, s.len() as int).intersect(s@).len() + range_set(
            range,
            s.len() as int,
        ).difference(s@).len() == range_end(range, s.len() as int) - range_start(range),
{
    let wanted = range_set(range, s.len() as int);
    lemma_int_range(range_start(range), range_end(range, s.len() as int));
    law_members_lie_below_length(s);
    lemma_set_difference_len(wanted, s@);
}

/// A range holds a set bit exactly where the count of its set bits is not zero,
/// and holds no unset bit exactly where the count of its unset bits is zero.
pub proof fn law_range_tests_agree_with_counts<T: IndexRange>(s: FixedBitSlice, range: T)
    requires
        range_fits(range, s.len() as int),
    ensures
        !range_set(range, s.len() as int).disjoint(s@) <==> range_set(
            range,
            s.len() as int,
        ).intersect(s@).len() > 0,
        range_set(range, s.len() as int).subset_of(s@) <==> range_set(
            range,
            s.len() as int,
        ).difference(s@).len() == 0,
{
    let wanted = range_set(range, s.len() as int);
    lemma_int_range(range_start(range), range_end(range, s.len() as int));
    lemma_meeting_counts(wanted, s@);
}

/// Counting the whole set gives the number of items of `ones`.
pub proof fn law_count_ones_counts_ones(s: FixedBitSlice)
    ensures
        range_set(.., s.len() as int).intersect(s@).len() == listing(s@).len(),
{
    law_members_lie_below_length(s);
    lemma_listing_len(s@);
    assert(range_set(.., s.len() as int).intersect(s@) =~= s@);
}

/// Counting the unset bits of the whole set gives the number of items of `zeroes`.
pub proof fn law_count_zeroes_counts_zeroes(s: FixedBitSlice)
    ensures
        range_set(.., s.len() as int).difference(s@).len() == listing(
            set_int_range(0, s.len() as int).difference(s@),
        ).len(),
{
    lemma_listing_len(set_int_range(0, s.len() as int).difference(s@));
}

/// Every position below the length is an item of either `ones` or `zeroes`, and
/// of one of them only; neither has other items.
pub proof fn law_ones_and_zeroes_part_positions(s: FixedBitSlice, i: int)
    ensures
        listing(s@).contains(i) == s@.contains(i),
        listing(set_int_range(0, s.len() as int).difference(s@)).contains(i) == (0 <= i < s.len()
            && !s@.contains(i)),
        listing(s@).contains(i) ==> 0 <= i < s.len(),
{
    lemma_ascending(s@, 0, usize::MAX + 1);
    lemma_ascending(set_int_range(0, s.len() as int).difference(s@), 0, usize::MAX + 1);
}

/// The lowest bit is the first item of `ones`, and the highest is the last; both
/// are contained in the set.
pub proof fn law_minimum_and_maximum_bound_ones(s: FixedBitSlice, lowest: int, highest: int)
    requires
        is_least(s@, lowest),
        is_greatest(s@, highest),
    ensures
        listing(s@).len() > 0,
        listing(s@).first() == lowest,
        listing(s@).last() == highest,
        s@.contains(lowest),
        s@.contains(highest),
{
    let items = listing(s@);
    law_members_lie_below_length(s);
    lemma_ascending(s@, 0, usize::MAX + 1);
    assert(items.contains(lowest));
    assert(items.contains(highest));
    assert(items.contains(items.first()));
    assert(items.contains(items.last()));
}

/// No bit is set exactly where `ones` has no items, and exactly where counting
/// the whole set gives zero.
pub proof fn law_clear_means_no_ones(s: FixedBitSlice)
    ensures
        s@ == Set::<int>::empty() <==> listing(s@).len() == 0,
        s@ == Set::<int>::empty() <==> range_set(.., s.len() as int).intersect(s@).len() == 0,
{
    law_members_lie_below_length(s);
    law_count_ones_counts_ones(s);
    lemma_listing_len(s@);
    if s@ != Set::<int>::empty() {
        assert(s@ !~= Set::empty());
        assert(s@.len() != 0);
    }
}

/// The walk over a union names each position of either set once, and counting the
/// union gives the number of its items.
pub proof fn law_union_count_counts_union(a: FixedBitSlice, b: FixedBitSlice)
    ensures
        (listing(a@) + listing(b@.difference(a@))).to_set() == a@.union(b@),
        (listing(a@) + listing(b@.difference(a@))).no_duplicates(),
        a@.union(b@).len() == (listing(a@) + listing(b@.difference(a@))).len(),
{
    law_members_lie_below_length(a);
    law_members_lie_below_length(b);
    lemma_two_listings(a@, b@.difference(a@));
    assert(a@.union(b@.difference(a@)) =~= a@.union(b@));
}

/// The walk over an intersection names each position of both sets once, and
/// counting the intersection gives the number of its items.
pub proof fn law_intersection_count_counts_intersection(a: FixedBitSlice, b: FixedBitSlice)
    ensures
        listing(a@.intersect(b@)).to_set() == a@.intersect(b@),
        listing(a@.intersect(b@)).no_duplicates(),
        a@.intersect(b@).len() == listing(a@.intersect(b@)).len(),
{
    law_members_lie_below_length(a);
    law_listing(a@.intersect(b@));
}

/// The walk over a difference names each position of the first set that the second
/// lacks once, and counting the difference to an owned set gives the number of its
/// items.
pub proof fn law_difference_count_counts_difference(
    a: FixedBitSlice,
    other: &FixedBitSet,
    b: FixedBitSlice,
)
    requires
        b@ == other@,
    ensures
        listing(a@.difference(b@)).to_set() == a@.difference(b@),
        listing(a@.difference(b@)).no_duplicates(),
        a@.difference(other@).len() == listing(a@.difference(b@)).len(),
{
    law_members_lie_below_length(a);
    law_listing(a@.difference(b@));
}

/// The walk over a symmetric difference names each position of one set only once,
/// and counting the symmetric difference to an owned set gives the number of its
/// items.
pub proof fn law_symmetric_difference_count_counts_symmetric_difference(
    a: FixedBitSlice,
    other: &FixedBitSet,
    b: FixedBitSlice,
)
    requires
        b@ == other@,
    ensures
        (listing(a@.difference(b@)) + listing(b@.difference(a@))).to_set() == a@.difference(
            b@,
        ).union(b@.difference(a@)),
        (listing(a@.difference(b@)) + listing(b@.difference(a@))).no_duplicates(),
        a@.difference(other@).union(other@.difference(a@)).len() == (listing(a@.difference(b@))
            + listing(b@.difference(a@))).len(),
{
    law_members_lie_below_length(a);
    law_members_lie_below_length(b);
    lemma_two_listings(a@.difference(b@), b@.difference(a@));
}

/// Two sets are disjoint exactly where the walk over their intersection has no
/// items.
pub proof fn law_disjoint_means_empty_intersection(a: FixedBitSlice, b: FixedBitSlice)
    ensures
        a@.disjoint(b@) <==> listing(a@.intersect(b@)).len() == 0,
{
    law_members_lie_below_length(a);
    lemma_listing_len(a@.intersect(b@));
    lemma_meeting_counts(a@, b@);
}

/// A set is a subset of another exactly where the other contains each of its
/// members.
pub proof fn law_subset_means_contained(a: FixedBitSlice, b: FixedBitSlice)
    ensures
        a@.subset_of(b@) <==> forall|i: int| #[trigger] listing(a@).contains(i) ==> b@.contains(i),
{
    law_members_lie_below_length(a);
    lemma_ascending(a@, 0, usize::MAX + 1);
    if forall|i: int| #[trigger] listing(a@).contains(i) ==> b@.contains(i) {
        assert forall|i: int| a@.contains(i) implies b@.contains(i) by {
            assert(listing(a@).contains(i));
        }
    }
}

/// A set is a subset of another exactly where the difference counts no bits, and
/// two sets are disjoint exactly where the intersection counts none.
pub proof fn law_relations_agree_with_counts(a: FixedBitSlice, b: FixedBitSlice)
    ensures
        a@.subset_of(b@) <==> a@.difference(b@).len() == 0,
        a@.disjoint(b@) <==> a@.intersect(b@).len() == 0,
{
    law_members_lie_below_length(a);
    lemma_meeting_counts(a@, b@);
}

/// Sets that are subsets of each other have the same members.
pub proof fn law_mutual_subsets_are_equal(a: FixedBitSlice, b: FixedBitSlice)
    requires
        a@.subset_of(b@),
        b@.subset_of(a@),
    ensures
        a@ == b@,
{
    assert(a@ =~= b@);
}

/// The counts of two sets add up: union and intersection to both sets, the
/// difference and the intersection to the first, and the symmetric difference and
/// the intersection to the union.
pub proof fn law_counts_add_up(a: FixedBitSlice, b: FixedBitSlice)
    ensures
        a@.union(b@).len() + a@.intersect(b@).len() == a@.len() + b@.len(),
        a@.difference(b@).len() + a@.intersect(b@).len() == a@.len(),
        a@.difference(b@).union(b@.difference(a@)).len() + a@.intersect(b@).len() == a@.union(
            b@,
        ).len(),
{
    let left = a@.difference(b@);
    let right = b@.difference(a@);
    law_members_lie_below_length(a);
    law_members_lie_below_length(b);
    assert(a@.union(b@) =~= a@ + b@);
    lemma_set_intersect_union_lens(a@, b@);
    lemma_set_difference_len(a@, b@);
    assert(left.union(right) =~= left + right);
    lemma_set_disjoint_lens(left, right);
}

/// Union, intersection and symmetric difference are the same in either order, and
/// so is being disjoint.
pub proof fn law_counts_are_symmetric(a: FixedBitSlice, b: FixedBitSlice)
    ensures
        a@.union(b@) == b@.union(a@),
        a@.intersect(b@) == b@.intersect(a@),
        a@.difference(b@).union(b@.difference(a@)) == b@.difference(a@).union(a@.difference(b@)),
        a@.disjoint(b@) == b@.disjoint(a@),
{
    assert(a@.union(b@) =~= b@.union(a@));
    assert(a@.intersect(b@) =~= b@.intersect(a@));
    assert(a@.difference(b@).union(b@.difference(a@)) =~= b@.difference(a@).union(
        a@.difference(b@),
    ));
}

/// A bit reads back as it was set, whatever it was, and no other bit changes.
pub proof fn law_assigned_reads_back(s: Set<int>, at: int, enabled: bool, i: int)
    ensures
        assigned(s, at, enabled).contains(i) == (if i == at {
            enabled
        } else {
            s.contains(i)
        }),
{
}

/// Toggling a bit makes it a member exactly where it was none, and changes no other
/// bit.
pub proof fn law_toggled_inverts_one_bit(s: Set<int>, at: int, i: int)
    ensures
        toggled(s, at).contains(i) == (if i == at {
            !s.contains(i)
        } else {
            s.contains(i)
        }),
{
}

/// The last of two writes to a bit stands.
pub proof fn law_last_write_stands(s: Set<int>, at: int, first: bool, second: bool)
    ensures
        assigned(assigned(s, at, first), at, second) == assigned(s, at, second),
{
    assert(assigned(assigned(s, at, first), at, second) =~= assigned(s, at, second));
}

/// Toggling a bit twice, setting it to what it is, and copying it to itself
/// change nothing.
pub proof fn law_undone_changes(s: Set<int>, at: int)
    ensures
        toggled(toggled(s, at), at) == s,
        assigned(toggled(s, at), at, s.contains(at)) == s,
        assigned(s, at, s.contains(at)) == s,
{
    assert(toggled(toggled(s, at), at) =~= s);
    assert(assigned(toggled(s, at), at, s.contains(at)) =~= s);
    assert(assigned(s, at, s.contains(at)) =~= s);
}

/// Changing a bit below the length leaves the stored bits past it as they are.
pub proof fn law_tail_is_kept(stored: Set<int>, len: int, at: int, enabled: bool)
    requires
        0 <= at < len,
    ensures
        assigned(stored, at, enabled).difference(set_int_range(0, len)) == stored.difference(
            set_int_range(0, len),
        ),
{
    assert(assigned(stored, at, enabled).difference(set_int_range(0, len)) =~= stored.difference(
        set_int_range(0, len),
    ));
}

/// As many words with the same bits are the same words: what is stored is known
/// from the set of its bits.
pub proof fn law_words_are_their_bits(a: Seq<Block>, b: Seq<Block>)
    requires
        a.len() == b.len(),
        block_set(a) == block_set(b),
    ensures
        a == b,
{
    assert forall|k: int| 0 <= k < a.len() implies a[k] == b[k] by {
        assert forall|j: int| 0 <= j < Block::BITS implies bit(a[k], j) == bit(b[k], j) by {
            lemma_at(a, k, j);
            lemma_at(b, k, j);
        }
        lemma_word_ext(a[k], b[k]);
    }
    assert(a =~= b);
}

/// Words that are all zero store no bits.
pub proof fn law_zero_words_store_nothing(blocks: Seq<Block>)
    requires
        forall|k: int| 0 <= k < blocks.len() ==> #[trigger] blocks[k] == 0,
    ensures
        block_set(blocks) == Set::<int>::empty(),
{
    lemma_zero_words(blocks, blocks.len() as int);
    assert(block_set(blocks) =~= Set::empty());
}

/// A finite set meets another exactly where their intersection counts, and lies in
/// it exactly where the difference counts nothing.
proof fn lemma_meeting_counts(s: Set<int>, t: Set<int>)
    requires
        s.finite(),
    ensures
        s.disjoint(t) <==> s.intersect(t).len() == 0,
        s.subset_of(t) <==> s.difference(t).len() == 0,
{
    let both = s.intersect(t);
    let only = s.difference(t);
    lemma_len_subset(both, s);
    lemma_len_subset(only, s);
    if s.disjoint(t) {
        assert(both =~= Set::empty());
    } else {
        let i = choose|i: int| s.contains(i) && t.contains(i);
        assert(both.contains(i));
    }
    if s.subset_of(t) {
        assert(only =~= Set::empty());
    } else {
        let i = choose|i: int| s.contains(i) && !t.contains(i);
        assert(only.contains(i));
    }
}

/// The listings of two disjoint sets, one after the other, name each member of
/// either set once.
proof fn lemma_two_listings(s: Set<int>, t: Set<int>)
    requires
        indexable(s),
        indexable(t),
        s.disjoint(t),
    ensures
        (listing(s) + listing(t)).to_set() == s.union(t),
        (listing(s) + listing(t)).no_duplicates(),
        (listing(s) + listing(t)).len() == s.union(t).len(),
{
    let x = listing(s);
    let y = listing(t);
    law_listing(s);
    law_listing(t);
    assert forall|i: int| #[trigger] (x + y).contains(i) <==> s.contains(i) || t.contains(i) by {
        assert(x.to_set().contains(i) == s.contains(i));
        assert(y.to_set().contains(i) == t.contains(i));
        if x.contains(i) {
            assert((x + y)[x.index_of(i)] == i);
        }
        if y.contains(i) {
            assert((x + y)[x.len() + y.index_of(i)] == i);
        }
    }
    assert((x + y).to_set() =~= s.union(t));
    assert forall|a: int, b: int|
        0 <= a < (x + y).len() && 0 <= b < (x + y).len() && a != b implies (x + y)[a] != (x
        + y)[b] by {
        if a < x.len() <= b {
            assert(x.to_set().contains(x[a]) && y.to_set().contains(y[b - x.len()]));
        }
        if b < x.len() <= a {
            assert(x.to_set().contains(x[b]) && y.to_set().contains(y[a - x.len()]));
        }
    }
    (x + y).unique_seq_to_set();
}

} // verus!
