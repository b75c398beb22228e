use fixedbitset::{
    Difference, FixedBitSet, FixedBitSlice, Intersection, Ones, SymmetricDifference, Union, Zeroes,
};

const W: usize = usize::BITS as usize;

fn set_of(len: usize, bits: &[usize]) -> FixedBitSet {
    let mut data = vec![0usize; len.div_ceil(W)];
    for &b in bits {
        data[b / W] |= 1 << (b % W);
    }
    FixedBitSet::with_capacity_and_blocks(len, &data)
}

fn all_ones(mut walk: Ones) -> Vec<usize> {
    let mut items = Vec::new();
    while let Some(i) = walk.next() {
        items.push(i);
    }
    assert_eq!(walk.next(), None);
    items
}

fn all_zeroes(mut walk: Zeroes) -> Vec<usize> {
    let mut items = Vec::new();
    while let Some(i) = walk.next() {
        items.push(i);
    }
    assert_eq!(walk.next(), None);
    items
}

fn all_difference(mut walk: Difference) -> Vec<usize> {
    let mut items = Vec::new();
    while let Some(i) = walk.next() {
        items.push(i);
    }
    items
}

fn all_intersection(mut walk: Intersection) -> Vec<usize> {
    let mut items = Vec::new();
    while let Some(i) = walk.next() {
        items.push(i);
    }
    items
}

fn all_union(mut walk: Union) -> Vec<usize> {
    let mut items = Vec::new();
    while let Some(i) = walk.next() {
        items.push(i);
    }
    items
}

fn all_symmetric_difference(mut walk: SymmetricDifference) -> Vec<usize> {
    let mut items = Vec::new();
    while let Some(i) = walk.next() {
        items.push(i);
    }
    items
}

#[test]
fn ones_in_order() {
    let bits = [0, 5, W - 1, W, 2 * W + 3, 4 * W - 1];
    let set = set_of(4 * W, &bits);
    assert_eq!(all_ones(set.as_bit_slice().ones()), bits);
    let one_word = set_of(W, &[2, 3]);
    assert_eq!(all_ones(one_word.as_bit_slice().ones()), [2, 3]);
    let two_words = set_of(2 * W, &[2, W + 3]);
    assert_eq!(all_ones(two_words.as_bit_slice().ones()), [2, W + 3]);
}

#[test]
fn ones_from_the_back() {
    let bits = [0, 5, W - 1, W, 2 * W + 3, 4 * W - 1];
    let set = set_of(4 * W, &bits);
    let mut walk = set.as_bit_slice().ones();
    for &b in bits.iter().rev() {
        assert_eq!(walk.next_back(), Some(b));
    }
    assert_eq!(walk.next_back(), None);
    assert_eq!(walk.next(), None);
}

#[test]
fn ones_from_both_ends() {
    let bits = [1, 2, W + 1, W + 2, 2 * W + 1, 2 * W + 2];
    let set = set_of(3 * W, &bits);
    let mut walk = set.as_bit_slice().ones();
    assert_eq!(walk.next(), Some(1));
    assert_eq!(walk.next_back(), Some(2 * W + 2));
    assert_eq!(walk.next_back(), Some(2 * W + 1));
    assert_eq!(walk.next_back(), Some(W + 2));
    assert_eq!(walk.next(), Some(2));
    assert_eq!(walk.next(), Some(W + 1));
    assert_eq!(walk.next(), None);
    assert_eq!(walk.next_back(), None);
}

#[test]
fn ones_of_nothing() {
    let none = set_of(0, &[]);
    assert_eq!(all_ones(none.as_bit_slice().ones()), []);
    assert_eq!(none.as_bit_slice().ones().next_back(), None);
    let clear = set_of(5 * W, &[]);
    assert_eq!(all_ones(clear.as_bit_slice().ones()), []);
    assert_eq!(clear.as_bit_slice().ones().next_back(), None);
}

#[test]
fn zeroes_in_order() {
    let on: Vec<usize> = (0..2 * W + 3).filter(|i| i % 3 != 1).collect();
    let off: Vec<usize> = (0..2 * W + 3).filter(|i| i % 3 == 1).collect();
    let set = set_of(2 * W + 3, &on);
    assert_eq!(all_zeroes(set.as_bit_slice().zeroes()), off);
    let none = set_of(0, &[]);
    assert_eq!(all_zeroes(none.as_bit_slice().zeroes()), []);
    let full: Vec<usize> = (0..W + 1).collect();
    let full = set_of(W + 1, &full);
    assert_eq!(all_zeroes(full.as_bit_slice().zeroes()), []);
    let clear = set_of(W, &[]);
    assert_eq!(all_zeroes(clear.as_bit_slice().zeroes()).len(), W);
}

#[test]
fn walks_over_two_sets() {
    let a = set_of(3 * W, &[1, 2, W, 2 * W + 1]);
    let b = set_of(W + 5, &[0, 2, W, W + 4]);
    let (a, b) = (a.as_bit_slice(), b.as_bit_slice());
    assert_eq!(all_intersection(a.intersection(b)), [2, W]);
    assert_eq!(all_intersection(b.intersection(a)), [2, W]);
    assert_eq!(all_difference(a.difference(b)), [1, 2 * W + 1]);
    assert_eq!(all_difference(b.difference(a)), [0, W + 4]);
    assert_eq!(all_union(a.union(b)), [1, 2, W, 2 * W + 1, 0, W + 4]);
    assert_eq!(all_union(b.union(a)), [0, 2, W, W + 4, 1, 2 * W + 1]);
    assert_eq!(
        all_symmetric_difference(a.symmetric_difference(b)),
        [1, 2 * W + 1, 0, W + 4]
    );
}

#[test]
fn walks_with_bits_past_the_length() {
    let data = [0b1100, 0, 0, 0];
    let s = FixedBitSlice::from_raw_parts(&data, 3);
    assert_eq!(all_ones(s.ones()), [2]);
    let data = [0b11001];
    let s = FixedBitSlice::from_raw_parts(&data, 3);
    assert_eq!(all_ones(s.ones()), [0]);
    assert_eq!(s.ones().next_back(), Some(0));
    assert_eq!(all_zeroes(s.zeroes()), [1, 2]);
    assert_eq!(all_intersection(s.intersection(s)), [0]);
    assert_eq!(all_difference(s.difference(s)), []);
    assert_eq!(all_union(s.union(s)), [0]);
    assert_eq!(all_symmetric_difference(s.symmetric_difference(s)), []);
    let data = [1 << (W - 1), 0, usize::MAX];
    let s = FixedBitSlice::from_raw_parts(&data, 2 * W + 2);
    assert_eq!(all_ones(s.ones()), [W - 1, 2 * W, 2 * W + 1]);
    assert_eq!(s.ones().next_back(), Some(2 * W + 1));
}

#[test]
fn counts_agree_with_walks() {
    let a = set_of(2 * W + 9, &[0, 3, W, W + 7, 2 * W + 8]);
    let b = set_of(W + 8, &[3, 4, W + 7]);
    let (x, y) = (a.as_bit_slice(), b.as_bit_slice());
    assert_eq!(x.count_ones(..), all_ones(x.ones()).len());
    assert_eq!(x.count_zeroes(..), all_zeroes(x.zeroes()).len());
    assert_eq!(x.union_count(y), all_union(x.union(y)).len());
    assert_eq!(x.intersection_count(y), all_intersection(x.intersection(y)).len());
    assert_eq!(x.difference_count(&b), all_difference(x.difference(y)).len());
    assert_eq!(
        x.symmetric_difference_count(&b),
        all_symmetric_difference(x.symmetric_difference(y)).len()
    );
    assert_eq!(x.minimum(), all_ones(x.ones()).first().copied());
    assert_eq!(x.maximum(), all_ones(x.ones()).last().copied());
    assert_eq!(x.is_disjoint(y), all_intersection(x.intersection(y)).is_empty());
    assert_eq!(x.is_subset(y), all_difference(x.difference(y)).is_empty());
}
