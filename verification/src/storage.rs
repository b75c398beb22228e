//! Sequences of words read as sets of bit positions.
use crate::block::{
    bit, cut_word, lemma_below, lemma_bit_ops, lemma_bit_zero, lemma_cut_word, lemma_join,
    lemma_nonzero_has_bit, lemma_scale, lemma_split, word_set, Block,
};
use crate::listing::{
    ascending, is_greatest, is_least, lemma_ascending_bound, lemma_ascending_len,
    lemma_ascending_shift, lemma_ascending_split, lemma_ascending_within,
};
use vstd::math::{max, min};
use vstd::prelude::*;
use vstd::set_lib::set_int_range;

verus! {

/// The positions of the set bits of `blocks`: bit `j` of word `k` has position
/// `k * Block::BITS + j`.
pub open spec fn block_set(blocks: Seq<Block>) -> Set<int> {
    Set::new(
        |i: int|
            0 <= i < blocks.len() * Block::BITS && bit(
                blocks[i / (Block::BITS as int)],
                i % (Block::BITS as int),
            ),
    )
}

/// Word `k` of `blocks`, and zero past the end.
pub open spec fn word_at(blocks: Seq<Block>, k: int) -> Block {
    if 0 <= k < blocks.len() {
        blocks[k]
    } else {
        0
    }
}

/// Membership by word and offset.
pub proof fn lemma_at(blocks: Seq<Block>, k: int, j: int)
    requires
        0 <= j < Block::BITS,
    ensures
        block_set(blocks).contains(k * Block::BITS + j) <==> bit(word_at(blocks, k), j),
{
    lemma_join(k, j);
    lemma_below(k * Block::BITS + j, blocks.len() as int);
    lemma_scale(0, k);
    lemma_scale(k, -1);
    lemma_bit_zero(j);
}

/// Membership by position.
pub proof fn lemma_member(blocks: Seq<Block>, i: int)
    ensures
        block_set(blocks).contains(i) <==> bit(
            word_at(blocks, i / (Block::BITS as int)),
            i % (Block::BITS as int),
        ),
{
    lemma_split(i);
    lemma_at(blocks, i / (Block::BITS as int), i % (Block::BITS as int));
}

/// The set bits of a word, counted.
pub proof fn lemma_word_count(word: Block)
    ensures
        word_set(word).len() == ascending(word_set(word), 0, Block::BITS as int).len(),
        word_set(word).len() <= Block::BITS,
{
    lemma_ascending_len(word_set(word), 0, Block::BITS as int);
    lemma_ascending_bound(word_set(word), 0, Block::BITS as int);
}

/// The count over one more word.
pub proof fn lemma_count_step(blocks: Seq<Block>, lo: int, k: int)
    requires
        0 <= lo <= k < blocks.len(),
    ensures
        ascending(block_set(blocks), lo * Block::BITS, (k + 1) * Block::BITS).len() == ascending(
            block_set(blocks),
            lo * Block::BITS,
            k * Block::BITS,
        ).len() + word_set(blocks[k]).len(),
        word_set(blocks[k]).len() <= Block::BITS,
{
    let s = block_set(blocks);
    let b = Block::BITS as int;
    lemma_scale(lo, k);
    lemma_scale(k, k);
    lemma_ascending_split(s, lo * b, k * b, (k + 1) * b);
    let w = word_set(blocks[k]);
    assert forall|x: int| 0 <= x < b implies s.contains(k * b + x) == #[trigger] w.contains(x) by {
        lemma_at(blocks, k, x);
    }
    lemma_ascending_shift(s, w, k * b, b);
    lemma_word_count(blocks[k]);
}

/// A word other than zero has a set bit.
pub proof fn lemma_nonzero_word(blocks: Seq<Block>, k: int)
    requires
        word_at(blocks, k) != 0,
    ensures
        block_set(blocks) != Set::<int>::empty(),
{
    let j = lemma_nonzero_has_bit(blocks[k]);
    lemma_at(blocks, k, j);
}

/// No bit is set below word `n` where the words below it are zero.
pub proof fn lemma_zero_words(blocks: Seq<Block>, n: int)
    requires
        forall|k: int| 0 <= k < n ==> #[trigger] word_at(blocks, k) == 0,
    ensures
        forall|i: int| i < n * Block::BITS ==> !block_set(blocks).contains(i),
{
    assert forall|i: int| i < n * Block::BITS implies !block_set(blocks).contains(i) by {
        lemma_member(blocks, i);
        lemma_split(i);
        lemma_below(i, n);
        lemma_bit_zero(i % (Block::BITS as int));
    }
}

/// The count of all words is the sum of the counts below and from word `mid`.
pub proof fn lemma_word_sum(blocks: Seq<Block>, mid: int)
    requires
        0 <= mid <= blocks.len(),
        block_set(blocks).subset_of(set_int_range(0, usize::MAX as int)),
    ensures
        block_set(blocks).len() == ascending(block_set(blocks), 0, mid * Block::BITS).len()
            + ascending(
            block_set(blocks),
            mid * Block::BITS,
            blocks.len() * Block::BITS,
        ).len(),
        block_set(blocks).len() <= usize::MAX,
        0 * Block::BITS == 0,
{
    let b = Block::BITS as int;
    let n = blocks.len() as int;
    lemma_scale(0, mid);
    lemma_scale(mid, n);
    lemma_ascending_split(block_set(blocks), 0, mid * b, n * b);
    lemma_ascending_len(block_set(blocks), 0, n * b);
    lemma_ascending_within(block_set(blocks), 0, n * b, usize::MAX as int);
}

/// Words whose bits are the members of `s` have `s` as their set.
pub proof fn lemma_words_of(words: Seq<Block>, s: Set<int>)
    requires
        forall|i: int|
            #![trigger s.contains(i)]
            bit(word_at(words, i / (Block::BITS as int)), i % (Block::BITS as int)) == s.contains(
                i,
            ),
    ensures
        block_set(words) == s,
{
    assert forall|i: int| block_set(words).contains(i) == s.contains(i) by {
        lemma_member(words, i);
    }
    assert(block_set(words) =~= s);
}

/// Words joined bit by bit have as their set what the sets make by the same rule.
proof fn lemma_joined_words(
    a: Seq<Block>,
    b: Seq<Block>,
    words: Seq<Block>,
    s: Set<int>,
    rule: spec_fn(bool, bool) -> bool,
)
    requires
        !rule(false, false),
        forall|k: int, j: int|
            0 <= k < words.len() && 0 <= j < Block::BITS ==> #[trigger] bit(words[k], j) == rule(
                bit(word_at(a, k), j),
                bit(word_at(b, k), j),
            ),
        forall|k: int, j: int|
            words.len() <= k && 0 <= j < Block::BITS ==> !rule(
                #[trigger] bit(word_at(a, k), j),
                bit(word_at(b, k), j),
            ),
        forall|i: int| #[trigger]
            s.contains(i) == rule(block_set(a).contains(i), block_set(b).contains(i)),
    ensures
        block_set(words) == s,
{
    let w = Block::BITS as int;
    assert forall|i: int|
        #![trigger s.contains(i)]
        bit(word_at(words, i / w), i % w) == s.contains(i) by {
        lemma_split(i);
        lemma_member(a, i);
        lemma_member(b, i);
        lemma_bit_zero(i % w);
    }
    lemma_words_of(words, s);
}

/// The words of two sequences joined by `|`; words that are lacking count as zero.
pub open spec fn or_words(a: Seq<Block>, b: Seq<Block>) -> Seq<Block> {
    Seq::new(max(a.len() as int, b.len() as int) as nat, |k: int| word_at(a, k) | word_at(b, k))
}

pub proof fn lemma_or_words(a: Seq<Block>, b: Seq<Block>)
    ensures
        block_set(or_words(a, b)) == block_set(a).union(block_set(b)),
        forall|k: int| a.len() <= k < b.len() ==> #[trigger] or_words(a, b)[k] == b[k],
        forall|k: int| b.len() <= k < a.len() ==> #[trigger] or_words(a, b)[k] == a[k],
{
    assert(forall|x: Block| #[trigger] (x | 0) == x) by (bit_vector);
    assert(forall|x: Block| #[trigger] (0 | x) == x) by (bit_vector);
    assert forall|j: int| !bit(0, j) by {
        lemma_bit_zero(j);
    }
    assert forall|k: int, j: int| 0 <= j < Block::BITS implies #[trigger] bit(
        word_at(a, k) | word_at(b, k),
        j,
    ) == (bit(word_at(a, k), j) || bit(word_at(b, k), j)) by {
        lemma_bit_ops(word_at(a, k), word_at(b, k), j);
    }
    lemma_joined_words(
        a,
        b,
        or_words(a, b),
        block_set(a).union(block_set(b)),
        |x: bool, y: bool| x || y,
    );
}

/// The words of two sequences joined by `&`, as far as both go.
pub open spec fn and_words(a: Seq<Block>, b: Seq<Block>) -> Seq<Block> {
    Seq::new(min(a.len() as int, b.len() as int) as nat, |k: int| word_at(a, k) & word_at(b, k))
}

pub proof fn lemma_and_words(a: Seq<Block>, b: Seq<Block>)
    ensures
        block_set(and_words(a, b)) == block_set(a).intersect(block_set(b)),
{
    assert forall|j: int| !bit(0, j) by {
        lemma_bit_zero(j);
    }
    assert forall|k: int, j: int| 0 <= j < Block::BITS implies #[trigger] bit(
        word_at(a, k) & word_at(b, k),
        j,
    ) == (bit(word_at(a, k), j) && bit(word_at(b, k), j)) by {
        lemma_bit_ops(word_at(a, k), word_at(b, k), j);
    }
    lemma_joined_words(
        a,
        b,
        and_words(a, b),
        block_set(a).intersect(block_set(b)),
        |x: bool, y: bool| x && y,
    );
}

/// The words of the first sequence without the bits of the second.
pub open spec fn andnot_words(a: Seq<Block>, b: Seq<Block>) -> Seq<Block> {
    Seq::new(a.len() as nat, |k: int| word_at(a, k) & !word_at(b, k))
}

pub proof fn lemma_andnot_words(a: Seq<Block>, b: Seq<Block>)
    ensures
        block_set(andnot_words(a, b)) == block_set(a).difference(block_set(b)),
        forall|k: int| b.len() <= k < a.len() ==> #[trigger] andnot_words(a, b)[k] == a[k],
{
    assert(forall|x: Block| #[trigger] (x & !0usize) == x) by (bit_vector);
    assert forall|j: int| !bit(0, j) by {
        lemma_bit_zero(j);
    }
    assert forall|k: int, j: int| 0 <= j < Block::BITS implies #[trigger] bit(
        word_at(a, k) & !word_at(b, k),
        j,
    ) == (bit(word_at(a, k), j) && !bit(word_at(b, k), j)) by {
        lemma_bit_ops(word_at(a, k), !word_at(b, k), j);
        lemma_bit_ops(word_at(b, k), 0, j);
    }
    lemma_joined_words(
        a,
        b,
        andnot_words(a, b),
        block_set(a).difference(block_set(b)),
        |x: bool, y: bool| x && !y,
    );
}

/// The words of two sequences joined by `^`; words that are lacking count as zero.
pub open spec fn xor_words(a: Seq<Block>, b: Seq<Block>) -> Seq<Block> {
    Seq::new(max(a.len() as int, b.len() as int) as nat, |k: int| word_at(a, k) ^ word_at(b, k))
}

pub proof fn lemma_xor_words(a: Seq<Block>, b: Seq<Block>)
    ensures
        block_set(xor_words(a, b)) == block_set(a).difference(block_set(b)).union(
            block_set(b).difference(block_set(a)),
        ),
        forall|k: int| a.len() <= k < b.len() ==> #[trigger] xor_words(a, b)[k] == b[k],
        forall|k: int| b.len() <= k < a.len() ==> #[trigger] xor_words(a, b)[k] == a[k],
{
    assert(forall|x: Block| #[trigger] (x ^ 0) == x) by (bit_vector);
    assert(forall|x: Block| #[trigger] (0 ^ x) == x) by (bit_vector);
    assert forall|k: int, j: int| 0 <= j < Block::BITS implies #[trigger] bit(
        word_at(a, k) ^ word_at(b, k),
        j,
    ) == (bit(word_at(a, k), j) != bit(word_at(b, k), j)) by {
        lemma_bit_ops(word_at(a, k), word_at(b, k), j);
    }
    lemma_joined_words(
        a,
        b,
        xor_words(a, b),
        block_set(a).difference(block_set(b)).union(block_set(b).difference(block_set(a))),
        |x: bool, y: bool| x != y,
    );
}

/// The words of the first `bits` bits of `blocks`; bits past them are zero.
pub open spec fn cut_words(blocks: Seq<Block>, bits: int) -> Seq<Block> {
    Seq::new(blocks.len(), |k: int| cut_word(blocks[k], bits - k * Block::BITS))
}

/// Words that were cut hold the positions below the cut.
pub proof fn lemma_cut_words(blocks: Seq<Block>, bits: int)
    ensures
        block_set(cut_words(blocks, bits)) == block_set(blocks).intersect(set_int_range(0, bits)),
{
    let w = Block::BITS as int;
    let words = cut_words(blocks, bits);
    let s = block_set(blocks).intersect(set_int_range(0, bits));
    assert forall|i: int|
        #![trigger s.contains(i)]
        bit(word_at(words, i / w), i % w) == s.contains(i) by {
        lemma_split(i);
        lemma_member(blocks, i);
        lemma_bit_zero(i % w);
        lemma_cut_word(word_at(blocks, i / w), bits - (i / w) * w, i % w);
    }
    lemma_words_of(words, s);
}

/// Taking one bit out of one word takes one position out of the set.
pub proof fn lemma_clear_bit(blocks: Seq<Block>, k: int, word: Block, p: int)
    requires
        0 <= k < blocks.len(),
        0 <= p < Block::BITS,
        forall|j: int| bit(word, j) == (bit(blocks[k], j) && j != p),
    ensures
        block_set(blocks.update(k, word)) == block_set(blocks).remove(k * Block::BITS + p),
{
    let s = block_set(blocks).remove(k * Block::BITS + p);
    let w = Block::BITS as int;
    let words = blocks.update(k, word);
    assert forall|i: int|
        #![trigger s.contains(i)]
        bit(word_at(words, i / w), i % w) == s.contains(i) by {
        lemma_split(i);
        lemma_join(k, p);
        lemma_member(blocks, i);
        lemma_bit_zero(i % w);
    }
    lemma_words_of(words, s);
}

/// Dropping a first word without set bits moves the positions by one word.
pub proof fn lemma_drop_first(blocks: Seq<Block>, i: int)
    requires
        blocks.len() > 0,
        blocks[0] == 0,
    ensures
        block_set(blocks).contains(i) <==> block_set(blocks.skip(1)).contains(i - Block::BITS),
{
    let w = Block::BITS as int;
    lemma_split(i);
    lemma_scale(i / w - 1, 0);
    lemma_join(i / w - 1, i % w);
    lemma_member(blocks, i);
    lemma_member(blocks.skip(1), i - w);
    lemma_bit_zero(i % w);
}

/// Dropping a last word without set bits leaves the positions.
pub proof fn lemma_drop_last(blocks: Seq<Block>)
    requires
        blocks.len() > 0,
        blocks.last() == 0,
    ensures
        block_set(blocks.drop_last()) == block_set(blocks),
{
    let s = block_set(blocks);
    let w = Block::BITS as int;
    let words = blocks.drop_last();
    assert forall|i: int|
        #![trigger s.contains(i)]
        bit(word_at(words, i / w), i % w) == s.contains(i) by {
        lemma_member(blocks, i);
        lemma_bit_zero(i % w);
    }
    lemma_words_of(words, s);
}

/// The lowest bit of the first word that is not zero is the least position.
pub proof fn lemma_first_bit(blocks: Seq<Block>, k: int, p: int)
    requires
        forall|m: int| 0 <= m < k ==> #[trigger] word_at(blocks, m) == 0,
        bit(word_at(blocks, k), p),
        forall|j: int| 0 <= j < p ==> !bit(word_at(blocks, k), j),
    ensures
        is_least(block_set(blocks), k * Block::BITS + p),
{
    let w = Block::BITS as int;
    lemma_at(blocks, k, p);
    assert forall|i: int| #[trigger] block_set(blocks).contains(i) implies k * w + p <= i by {
        lemma_member(blocks, i);
        lemma_split(i);
        lemma_bit_zero(i % w);
        lemma_scale(k, i / w);
    }
}

/// The highest bit of the last word that is not zero is the greatest position.
pub proof fn lemma_last_bit(blocks: Seq<Block>, k: int, p: int)
    requires
        forall|m: int| k < m ==> #[trigger] word_at(blocks, m) == 0,
        bit(word_at(blocks, k), p),
        forall|j: int| p < j ==> !bit(word_at(blocks, k), j),
    ensures
        is_greatest(block_set(blocks), k * Block::BITS + p),
{
    let w = Block::BITS as int;
    lemma_at(blocks, k, p);
    assert forall|i: int| #[trigger] block_set(blocks).contains(i) implies i <= k * w + p by {
        lemma_member(blocks, i);
        lemma_split(i);
        lemma_bit_zero(i % w);
        lemma_scale(i / w, k);
    }
}

/// The words of a sequence with every bit inverted.
pub open spec fn not_words(blocks: Seq<Block>) -> Seq<Block> {
    Seq::new(blocks.len(), |k: int| !blocks[k])
}

/// Inverted words have the bits that the words lack.
pub proof fn lemma_not_words(blocks: Seq<Block>, i: int)
    requires
        0 <= i < blocks.len() * Block::BITS,
    ensures
        block_set(not_words(blocks)).contains(i) == !block_set(blocks).contains(i),
{
    let w = Block::BITS as int;
    lemma_split(i);
    lemma_below(i, blocks.len() as int);
    lemma_bit_ops(blocks[i / w], 0, i % w);
}

/// Changing bit `i` of the set in its word changes no other member.
pub proof fn lemma_put_word(blocks: Seq<Block>, i: int, word: Block)
    requires
        0 <= i < blocks.len() * Block::BITS,
        forall|j: int|
            0 <= j < Block::BITS && j != i % (Block::BITS as int) ==> #[trigger] bit(word, j)
                == bit(blocks[i / (Block::BITS as int)], j),
    ensures
        block_set(blocks.update(i / (Block::BITS as int), word)) == (if bit(
            word,
            i % (Block::BITS as int),
        ) {
            block_set(blocks).insert(i)
        } else {
            block_set(blocks).remove(i)
        }),
{
    let w = Block::BITS as int;
    let words = blocks.update(i / w, word);
    let s = if bit(word, i % w) {
        block_set(blocks).insert(i)
    } else {
        block_set(blocks).remove(i)
    };
    lemma_split(i);
    lemma_below(i, blocks.len() as int);
    assert forall|x: int|
        #![trigger s.contains(x)]
        bit(word_at(words, x / w), x % w) == s.contains(x) by {
        lemma_split(x);
        lemma_member(blocks, x);
    }
    lemma_words_of(words, s);
}

} // verus!
