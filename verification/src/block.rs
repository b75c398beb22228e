//! Words of bits, and the index arithmetic that maps a bit position to a word
//! and an offset in it.
use vstd::arithmetic::div_mod::{
    lemma_div_pos_is_pos, lemma_fundamental_div_mod, lemma_fundamental_div_mod_converse,
};
use vstd::arithmetic::mul::{lemma_mul_inequality, lemma_mul_is_commutative};
use vstd::prelude::*;

verus! {

/// The word in which bits are stored.
pub type Block = usize;

/// Whether bit `i` of `word` is set; bit 0 is the least significant one.
pub open spec fn bit(word: Block, i: int) -> bool {
    &&& 0 <= i < Block::BITS
    &&& (word >> (i as usize)) & 1 == 1
}

/// The offsets of the set bits of `word`.
pub open spec fn word_set(word: Block) -> Set<int> {
    Set::new(|i: int| bit(word, i))
}

/// `usize::count_ones` returns the number of set bits of its argument.
pub assume_specification[ usize::count_ones ](word: usize) -> (r: u32)
    ensures
        r == word_set(word).len(),
;

/// `usize::trailing_zeros` returns the offset of the lowest set bit of its
/// argument, and the width of the type where no bit is set.
pub assume_specification[ usize::trailing_zeros ](word: usize) -> (r: u32)
    ensures
        r <= usize::BITS,
        r < usize::BITS ==> bit(word, r as int),
        forall|j: int| 0 <= j < r ==> !bit(word, j),
;

/// `usize::leading_zeros` returns the number of unset bits above the highest
/// set bit of its argument, and the width of the type where no bit is set.
pub assume_specification[ usize::leading_zeros ](word: usize) -> (r: u32)
    ensures
        r <= usize::BITS,
        r < usize::BITS ==> bit(word, usize::BITS - 1 - r),
        forall|j: int| usize::BITS - r <= j < usize::BITS ==> !bit(word, j),
;

/// Quotient and remainder.
pub fn div_rem(x: usize, d: usize) -> (r: (usize, usize))
    requires
        d != 0,
    ensures
        r.0 == x as int / d as int,
        r.1 == x as int % d as int,
{
    (x / d, x % d)
}

/// The number of words that hold `bits` bits.
pub fn block_count(bits: usize) -> (r: usize)
    ensures
        r == blocks_for(bits as int),
{
    proof {
        lemma_blocks_for(bits as int);
        lemma_split(bits as int);
        lemma_scale(1, bits as int / Block::BITS as int);
    }
    let width: usize = Block::BITS as usize;
    if bits % width == 0 {
        bits / width
    } else {
        bits / width + 1
    }
}

/// The word with the bits below `n`.
pub open spec fn mask_below(n: int) -> Block {
    (!0usize >> 1) >> ((Block::BITS - n - 1) as usize)
}

/// The first `n` bits of `word`; the others are zero.
pub open spec fn cut_word(word: Block, n: int) -> Block {
    if n >= Block::BITS {
        word
    } else if n <= 0 {
        0
    } else {
        word & mask_below(n)
    }
}

/// The first `n` bits of `word`; the others are zero.
pub fn cut(word: Block, n: usize) -> (r: Block)
    ensures
        r == cut_word(word, n as int),
{
    let width: usize = Block::BITS as usize;
    if n >= width {
        word
    } else if n == 0 {
        0
    } else {
        let shift: usize = width - n - 1;
        word & ((!0usize >> 1) >> shift)
    }
}

// ---------------------------------------------------------------------------
// Bits of words
// ---------------------------------------------------------------------------
pub proof fn lemma_bit_ops(a: Block, b: Block, i: int)
    requires
        0 <= i < Block::BITS,
    ensures
        bit(a & b, i) == (bit(a, i) && bit(b, i)),
        bit(a | b, i) == (bit(a, i) || bit(b, i)),
        bit(a ^ b, i) == (bit(a, i) != bit(b, i)),
        bit(!a, i) == !bit(a, i),
{
    let k = i as usize;
    assert(((a & b) >> k) & 1 == 1 <==> ((a >> k) & 1 == 1 && (b >> k) & 1 == 1)) by (bit_vector);
    assert(((a | b) >> k) & 1 == 1 <==> ((a >> k) & 1 == 1 || (b >> k) & 1 == 1)) by (bit_vector);
    assert(((a ^ b) >> k) & 1 == 1 <==> (((a >> k) & 1 == 1) != ((b >> k) & 1 == 1)))
        by (bit_vector);
    assert((!a >> k) & 1 == 1 <==> !((a >> k) & 1 == 1)) by (bit_vector)
        requires
            k < usize::BITS,
    ;
}

/// `1 << k` has bit `k` set and no other.
pub proof fn lemma_bit_single(k: usize, i: int)
    requires
        k < Block::BITS,
    ensures
        bit(1usize << k, i) == (i == k),
{
    if 0 <= i < Block::BITS {
        let j = i as usize;
        assert(((1usize << k) >> j) & 1 == 1 <==> j == k) by (bit_vector)
            requires
                k < usize::BITS,
                j < usize::BITS,
        ;
    }
}

/// Bit `k` is set where the word and `1 << k` meet.
pub proof fn lemma_test_bit(word: Block, k: usize)
    requires
        k < Block::BITS,
    ensures
        word & (1usize << k) != 0 <==> bit(word, k as int),
{
    assert(word & (1usize << k) != 0 <==> (word >> k) & 1 == 1) by (bit_vector)
        requires
            k < usize::BITS,
    ;
}

/// What joining a word with `1 << k` does to its bits.
pub proof fn lemma_change_bit(word: Block, k: usize)
    requires
        k < Block::BITS,
    ensures
        forall|j: int| #[trigger] bit(word | (1usize << k), j) == (bit(word, j) || j == k),
        forall|j: int| #[trigger] bit(word & !(1usize << k), j) == (bit(word, j) && j != k),
        forall|j: int| #[trigger] bit(word ^ (1usize << k), j) == (bit(word, j) != (j == k)),
{
    let one = 1usize << k;
    assert forall|j: int|
        bit(word | one, j) == (bit(word, j) || j == k) && bit(word & !one, j) == (bit(word, j) && j
            != k) && bit(word ^ one, j) == (bit(word, j) != (j == k)) by {
        if 0 <= j < Block::BITS {
            lemma_bit_ops(word, one, j);
            lemma_bit_ops(word, !one, j);
            lemma_bit_ops(one, one, j);
            lemma_bit_single(k, j);
        }
    }
}

pub proof fn lemma_bit_zero(i: int)
    ensures
        !bit(0, i),
{
    let k = i as usize;
    assert((0usize >> k) & 1 == 0) by (bit_vector);
}

pub proof fn lemma_bit_all(i: int)
    requires
        0 <= i < Block::BITS,
    ensures
        bit(!0usize, i),
{
    lemma_bit_zero(i);
    lemma_bit_ops(0, 0, i);
}

/// A word with a set bit is not zero.
pub proof fn lemma_bit_nonzero(word: Block, i: int)
    requires
        bit(word, i),
    ensures
        word != 0,
{
    lemma_bit_zero(i);
}

/// A word other than zero has a set bit.
pub proof fn lemma_nonzero_has_bit(word: Block) -> (i: int)
    requires
        word != 0,
    ensures
        bit(word, i),
    decreases word,
{
    if word & 1 == 1 {
        assert(word >> 0usize == word) by (bit_vector);
        0
    } else {
        let half = word >> 1usize;
        assert(half != 0 && half < word) by (bit_vector)
            requires
                word != 0,
                word & 1 != 1,
                half == word >> 1usize,
        ;
        let i = lemma_nonzero_has_bit(half);
        let k = i as usize;
        let k1 = (i + 1) as usize;
        assert(k1 < usize::BITS && (word >> k1) & 1 == 1) by (bit_vector)
            requires
                k < usize::BITS,
                k1 == k + 1,
                ((word >> 1usize) >> k) & 1 == 1,
        ;
        i + 1
    }
}

/// Two words with the same bits are the same word.
pub proof fn lemma_word_ext(a: Block, b: Block)
    requires
        forall|i: int| 0 <= i < Block::BITS ==> bit(a, i) == bit(b, i),
    ensures
        a == b,
{
    if a != b {
        assert(a ^ b != 0) by (bit_vector)
            requires
                a != b,
        ;
        let i = lemma_nonzero_has_bit(a ^ b);
        lemma_bit_ops(a, b, i);
    }
}

/// A mask that a word does not cover has a bit that the word lacks.
pub proof fn lemma_not_covered(word: Block, mask: Block) -> (i: int)
    requires
        word & mask != mask,
    ensures
        bit(mask, i),
        !bit(word, i),
{
    let gap = mask & !word;
    assert(gap != 0) by (bit_vector)
        requires
            word & mask != mask,
            gap == mask & !word,
    ;
    let i = lemma_nonzero_has_bit(gap);
    lemma_bit_ops(mask, !word, i);
    lemma_bit_ops(word, word, i);
    i
}

/// The word with the bits from `from` up.
pub proof fn lemma_mask_from(from: usize, i: int)
    requires
        from < Block::BITS,
        0 <= i < Block::BITS,
    ensures
        bit(!0usize << from, i) == (i >= from),
{
    let k = i as usize;
    assert(((!0usize << from) >> k) & 1 == 1 <==> k >= from) by (bit_vector)
        requires
            from < usize::BITS,
            k < usize::BITS,
    ;
}

/// The word with the bits below `to`.
pub proof fn lemma_mask_to(to: usize, shift: usize, i: int)
    requires
        to < Block::BITS,
        shift == Block::BITS - to - 1,
        0 <= i < Block::BITS,
    ensures
        bit((!0usize >> 1) >> shift, i) == (i < to),
{
    let k = i as usize;
    assert((((!0usize >> 1) >> shift) >> k) & 1 == 1 <==> k < to) by (bit_vector)
        requires
            to < usize::BITS,
            k < usize::BITS,
            shift == usize::BITS - to - 1,
    ;
}

/// The bits of a word that was cut.
pub proof fn lemma_cut_word(word: Block, n: int, i: int)
    requires
        0 <= i < Block::BITS,
    ensures
        bit(cut_word(word, n), i) == (bit(word, i) && i < n),
{
    lemma_bit_zero(i);
    if 0 < n < Block::BITS {
        lemma_mask_to(n as usize, (Block::BITS - n - 1) as usize, i);
        lemma_bit_ops(word, mask_below(n), i);
    }
}

// ---------------------------------------------------------------------------
// Bit positions
// ---------------------------------------------------------------------------
/// The number of words that hold `bits` bits.
pub open spec fn blocks_for(bits: int) -> int {
    (bits + Block::BITS - 1) / (Block::BITS as int)
}

/// The position of bit `j` of word `k`, taken apart again.
pub proof fn lemma_join(k: int, j: int)
    requires
        0 <= j < Block::BITS,
    ensures
        (k * Block::BITS + j) / (Block::BITS as int) == k,
        (k * Block::BITS + j) % (Block::BITS as int) == j,
{
    lemma_fundamental_div_mod_converse(k * Block::BITS + j, Block::BITS as int, k, j);
}

/// A position is made of its word and its offset.
pub proof fn lemma_split(i: int)
    ensures
        i == (i / (Block::BITS as int)) * Block::BITS + i % (Block::BITS as int),
        0 <= i % (Block::BITS as int) < Block::BITS,
        0 <= i ==> 0 <= i / (Block::BITS as int),
{
    lemma_fundamental_div_mod(i, Block::BITS as int);
    lemma_mul_is_commutative(Block::BITS as int, i / (Block::BITS as int));
    if 0 <= i {
        lemma_div_pos_is_pos(i, Block::BITS as int);
    }
}

/// The first position of a word grows with the word.
pub proof fn lemma_scale(k: int, m: int)
    ensures
        k <= m ==> k * Block::BITS <= m * Block::BITS,
        k < m ==> k * Block::BITS + Block::BITS <= m * Block::BITS,
        (k + 1) * Block::BITS == k * Block::BITS + Block::BITS,
        (k + m) * Block::BITS == k * Block::BITS + m * Block::BITS,
        0 * Block::BITS == 0,
{
    assert((k + 1) * Block::BITS == k * Block::BITS + Block::BITS) by (nonlinear_arith);
    assert((k + m) * Block::BITS == k * Block::BITS + m * Block::BITS) by (nonlinear_arith);
    if k <= m {
        lemma_mul_inequality(k, m, Block::BITS as int);
    }
    if k < m {
        lemma_mul_inequality(k + 1, m, Block::BITS as int);
    }
}

/// A position lies below the first position of word `n` exactly where its word
/// lies below `n`.
pub proof fn lemma_below(i: int, n: int)
    ensures
        i < n * Block::BITS <==> i / (Block::BITS as int) < n,
{
    let k = i / (Block::BITS as int);
    lemma_split(i);
    lemma_scale(k, n);
    lemma_scale(n, k);
}

/// `blocks_for(bits)` is the least number of words that hold `bits` bits.
pub proof fn lemma_blocks_for(bits: int)
    requires
        0 <= bits,
    ensures
        0 <= blocks_for(bits),
        bits <= blocks_for(bits) * Block::BITS < bits + Block::BITS,
        blocks_for(bits) == bits / (Block::BITS as int) + (if bits % (Block::BITS as int) == 0 {
            0int
        } else {
            1
        }),
{
    lemma_split(bits + Block::BITS - 1);
    let b = Block::BITS as int;
    let q = bits / b;
    let r = bits % b;
    lemma_split(bits);
    lemma_scale(q, q);
    if r == 0 {
        lemma_join(q, b - 1);
    } else {
        lemma_join(q + 1, r - 1);
    }
}

/// Every bit of the words that hold `bits` bits can be indexed.
pub proof fn lemma_extent(bits: usize)
    ensures
        blocks_for(bits as int) * Block::BITS <= usize::MAX + 1,
{
    let n = blocks_for(bits as int);
    let most = (usize::MAX + 1) / (Block::BITS as int);
    lemma_blocks_for(bits as int);
    lemma_split(usize::MAX + 1);
    assert((usize::MAX + 1) % (Block::BITS as int) == 0) by {
        if usize::BITS == 32 {
        } else {
        }
    }
    lemma_scale(most, n - 1);
    lemma_scale(n, most);
}

} // verus!
