use fixedbitset::{FixedBitSet, FixedBitSlice};

const W: usize = usize::BITS as usize;

/// Words with the given bits set.
fn words(count: usize, bits: &[usize]) -> Vec<usize> {
    let mut data = vec![0usize; count];
    for &b in bits {
        data[b / W] |= 1 << (b % W);
    }
    data
}

#[test]
fn length_and_words() {
    let data = words(4, &[0, W + 1, 3 * W]);
    let s = FixedBitSlice::from_raw_parts(&data, W + 5);
    assert_eq!(s.len(), W + 5);
    assert!(!s.is_empty());
    assert_eq!(s.as_slice(), &data[..2]);
    let none = FixedBitSlice::from_raw_parts(&data, 0);
    assert_eq!(none.len(), 0);
    assert!(none.is_empty());
    assert_eq!(none.as_slice().len(), 0);
    let whole = FixedBitSlice::from_raw_parts(&data, 4 * W);
    assert_eq!(whole.as_slice(), &data[..]);
}

#[test]
fn contains_by_position() {
    let data = words(2, &[3, W - 1, W, W + 7]);
    let s = FixedBitSlice::from_raw_parts(&data, W + 7);
    for i in 0..W + 7 {
        assert_eq!(s.contains(i), i == 3 || i == W - 1 || i == W);
        assert_eq!(s.contains_unchecked(i), s.contains(i));
    }
    assert!(!s.contains(W + 7));
    assert!(!s.contains(usize::MAX));
}

#[test]
fn clear_sets() {
    for count in 0..6 {
        let data = words(count, &[]);
        assert!(FixedBitSlice::from_raw_parts(&data, count * W).is_clear());
        for k in 0..count {
            let data = words(count, &[k * W + 9]);
            assert!(!FixedBitSlice::from_raw_parts(&data, count * W).is_clear());
        }
    }
}

#[test]
fn minimum_and_maximum_in_every_word() {
    for count in 1..7 {
        for low in 0..count {
            for high in low..count {
                let a = low * W + 5;
                let b = high * W + 11;
                let data = words(count, &[a, b]);
                let s = FixedBitSlice::from_raw_parts(&data, count * W);
                assert_eq!(s.minimum(), Some(a));
                assert_eq!(s.maximum(), Some(b));
            }
        }
    }
}

#[test]
fn minimum_and_maximum_at_word_ends() {
    let data = words(3, &[W - 1, 2 * W]);
    let s = FixedBitSlice::from_raw_parts(&data, 3 * W);
    assert_eq!(s.minimum(), Some(W - 1));
    assert_eq!(s.maximum(), Some(2 * W));
    let data = words(3, &[0, 3 * W - 1]);
    let s = FixedBitSlice::from_raw_parts(&data, 3 * W);
    assert_eq!(s.minimum(), Some(0));
    assert_eq!(s.maximum(), Some(3 * W - 1));
}

#[test]
fn no_minimum_or_maximum_without_bits() {
    let data = words(3, &[]);
    for bits in 0..3 * W {
        let s = FixedBitSlice::from_raw_parts(&data, bits);
        assert_eq!(s.minimum(), None);
        assert_eq!(s.maximum(), None);
    }
}

#[test]
fn full_sets() {
    let mut data = vec![usize::MAX; 3];
    let s = FixedBitSlice::from_raw_parts(&data, 2 * W + 3);
    assert!(s.is_full());
    assert_eq!(s.count_ones(..), 2 * W + 3);
    data[2] = 0b011;
    assert!(!FixedBitSlice::from_raw_parts(&data, 2 * W + 3).is_full());
    assert!(FixedBitSlice::from_raw_parts(&data, 2 * W + 2).is_full());
    assert!(FixedBitSlice::from_raw_parts(&data, 0).is_full());
}

#[test]
fn range_tests() {
    let bits: Vec<usize> = (10..2 * W + 10).collect();
    let data = words(3, &bits);
    let s = FixedBitSlice::from_raw_parts(&data, 3 * W);
    assert!(s.contains_all_in_range(10..2 * W + 10));
    assert!(s.contains_all_in_range(W..2 * W));
    assert!(s.contains_all_in_range(W..W + 1));
    assert!(!s.contains_all_in_range(9..2 * W + 10));
    assert!(!s.contains_all_in_range(10..2 * W + 11));
    assert!(!s.contains_all_in_range(..));
    assert!(!s.contains_all_in_range(20..));
    assert!(!s.contains_all_in_range(..20));
    assert!(s.contains_all_in_range(5..5));
    assert!(s.contains_all_in_range(3 * W..));
    assert!(s.contains_any_in_range(..));
    assert!(s.contains_any_in_range(..11));
    assert!(!s.contains_any_in_range(..10));
    assert!(s.contains_any_in_range(2 * W + 9..));
    assert!(!s.contains_any_in_range(2 * W + 10..));
    assert!(!s.contains_any_in_range(W..W));
    assert!(!s.contains_any_in_range(0..10));
    assert!(s.contains_any_in_range(0..11));
}

#[test]
fn range_counts() {
    let data = words(3, &[0, 1, W - 1, W, W + 30, 2 * W + 4]);
    let s = FixedBitSlice::from_raw_parts(&data, 2 * W + 6);
    assert_eq!(s.count_ones(..), 6);
    assert_eq!(s.count_zeroes(..), 2 * W);
    assert_eq!(s.count_ones(1..W), 2);
    assert_eq!(s.count_zeroes(1..W), W - 3);
    assert_eq!(s.count_ones(W..), 3);
    assert_eq!(s.count_zeroes(W..), W + 3);
    assert_eq!(s.count_ones(..W), 3);
    assert_eq!(s.count_zeroes(..W), W - 3);
    assert_eq!(s.count_ones(W + 1..W + 30), 0);
    assert_eq!(s.count_ones(W + 30..W + 31), 1);
    assert_eq!(s.count_ones(7..7), 0);
    assert_eq!(s.count_zeroes(7..7), 0);
}

#[test]
fn counts_of_two_sets() {
    let a = words(3, &[1, 2, W + 3, 2 * W + 1]);
    let b = words(1, &[2, 5]);
    let a = FixedBitSlice::from_raw_parts(&a, 3 * W);
    let set = FixedBitSet::with_capacity_and_blocks(W, &b);
    let b = set.as_bit_slice();
    assert_eq!(a.union_count(b), 5);
    assert_eq!(b.union_count(a), 5);
    assert_eq!(a.intersection_count(b), 1);
    assert_eq!(b.intersection_count(a), 1);
    assert_eq!(a.difference_count(&set), 3);
    assert_eq!(a.symmetric_difference_count(&set), 4);
    let big = FixedBitSet::with_capacity_and_blocks(3 * W, a.as_slice());
    assert_eq!(b.difference_count(&big), 1);
    assert_eq!(b.symmetric_difference_count(&big), 4);
    assert_eq!(a.symmetric_difference_count(&big), 0);
    assert_eq!(a.difference_count(&big), 0);
    assert_eq!(a.union_count(a), 4);
}

#[test]
fn relations_between_sets() {
    let a = words(5, &[1, W + 3]);
    let b = words(3, &[1, 2, W + 3]);
    let c = words(3, &[2, 2 * W]);
    let d = words(5, &[1, 4 * W + 1]);
    let none = words(1, &[]);
    let a = FixedBitSlice::from_raw_parts(&a, 5 * W);
    let b = FixedBitSlice::from_raw_parts(&b, 3 * W);
    let c = FixedBitSlice::from_raw_parts(&c, 3 * W);
    let d = FixedBitSlice::from_raw_parts(&d, 5 * W);
    let none = FixedBitSlice::from_raw_parts(&none, 4);
    assert!(a.is_subset(b));
    assert!(!b.is_subset(a));
    assert!(b.is_superset(a));
    assert!(!a.is_superset(b));
    assert!(!d.is_subset(b));
    assert!(!a.is_disjoint(b));
    assert!(a.is_disjoint(c));
    assert!(c.is_disjoint(a));
    assert!(!b.is_disjoint(c));
    assert!(none.is_subset(a));
    assert!(none.is_disjoint(a));
    assert!(a.is_superset(none));
    assert!(a.is_subset(a) && a.is_superset(a));
}

#[test]
fn owned_sets() {
    let set = FixedBitSet::with_capacity_and_blocks(W + 2, &[0b101, usize::MAX, 7]);
    assert_eq!(set.len(), W + 2);
    assert_eq!(set.as_slice(), &[0b101, 0b11]);
    let s = FixedBitSlice::from(&set);
    assert_eq!(s.len(), W + 2);
    assert_eq!(s.as_slice(), &[0b101, 0b11]);
    assert_eq!(s.count_ones(..), 4);
    let padded = FixedBitSet::with_capacity_and_blocks(3 * W, &[1]);
    assert_eq!(padded.as_slice(), &[1, 0, 0]);
    let empty = FixedBitSet::with_capacity_and_blocks(0, &[1]);
    assert_eq!(empty.as_slice().len(), 0);
    assert!(empty.as_bit_slice().is_clear());
}

#[test]
fn bits_past_the_length() {
    let data = [0b1001];
    let s = FixedBitSlice::from_raw_parts(&data, 3);
    assert!(!s.contains(3));
    assert_eq!(s.count_ones(..), 1);
    assert_eq!(s.count_zeroes(..), 2);
    assert_eq!(s.minimum(), Some(0));
    assert_eq!(s.maximum(), Some(0));
    assert_eq!(s.as_slice(), &[0b1001]);
    let data = [0b1000];
    let s = FixedBitSlice::from_raw_parts(&data, 3);
    assert!(s.is_clear());
    assert_eq!(s.minimum(), None);
    assert_eq!(s.maximum(), None);
    assert_eq!(s.union_count(s), 0);
    assert_eq!(s.intersection_count(s), 0);
    assert!(s.is_disjoint(s));
    assert_eq!(s.intersection(s).next(), None);
}

#[test]
fn pairs_with_bits_past_the_length() {
    let data = [usize::MAX, usize::MAX, usize::MAX];
    for bits in [1, W - 1, W, W + 1, 2 * W, 2 * W + 7, 3 * W] {
        let all = FixedBitSlice::from_raw_parts(&data, 3 * W);
        let s = FixedBitSlice::from_raw_parts(&data, bits);
        let set = FixedBitSet::with_capacity_and_blocks(bits, &data);
        assert_eq!(s.minimum(), Some(0));
        assert_eq!(s.maximum(), Some(bits - 1));
        assert_eq!(s.union_count(s), bits);
        assert_eq!(s.union_count(all), 3 * W);
        assert_eq!(s.intersection_count(all), bits);
        assert_eq!(s.difference_count(&set), 0);
        assert_eq!(all.difference_count(&set), 3 * W - bits);
        assert_eq!(all.symmetric_difference_count(&set), 3 * W - bits);
        assert_eq!(s.symmetric_difference_count(&set), 0);
        assert!(s.is_subset(all) && s.is_subset(set.as_bit_slice()));
        assert_eq!(all.is_subset(s), bits == 3 * W);
        assert!(all.is_superset(s));
        let odd = [0, 0, 0b11 << 7];
        let odd = FixedBitSlice::from_raw_parts(&odd, 3 * W);
        assert_eq!(s.is_disjoint(odd), bits <= 2 * W + 7);
    }
}

#[test]
fn agrees_with_a_plain_model() {
    let mut seed: u64 = 12345;
    for round in 0..200 {
        let mut flags: [Vec<bool>; 2] = [Vec::new(), Vec::new()];
        let mut blocks: [Vec<usize>; 2] = [Vec::new(), Vec::new()];
        for side in 0..2 {
            seed = seed.wrapping_mul(6364136223846793005).wrapping_add(1442695040888963407);
            let len = (seed >> 33) as usize % (5 * W);
            let mut data = vec![0usize; len.div_ceil(W)];
            for i in 0..len {
                seed = seed.wrapping_mul(6364136223846793005).wrapping_add(1442695040888963407);
                let on = (seed >> 40) % (1 + round % 7) == 0;
                flags[side].push(on);
                if on {
                    data[i / W] |= 1 << (i % W);
                }
            }
            blocks[side] = data;
        }
        let (x, y) = (&flags[0], &flags[1]);
        let a = FixedBitSlice::from_raw_parts(&blocks[0], x.len());
        let b = FixedBitSlice::from_raw_parts(&blocks[1], y.len());
        let set = FixedBitSet::with_capacity_and_blocks(y.len(), &blocks[1]);
        let has = |f: &Vec<bool>, i: usize| i < f.len() && f[i];
        let top = x.len().max(y.len());
        let count = |p: &dyn Fn(usize) -> bool| (0..top).filter(|&i| p(i)).count();
        assert_eq!(a.minimum(), x.iter().position(|&v| v));
        assert_eq!(a.maximum(), x.iter().rposition(|&v| v));
        assert_eq!(a.is_clear(), !x.contains(&true));
        assert_eq!(a.is_full(), !x.contains(&false));
        assert_eq!(a.union_count(b), count(&|i| has(x, i) || has(y, i)));
        assert_eq!(a.intersection_count(b), count(&|i| has(x, i) && has(y, i)));
        assert_eq!(a.difference_count(&set), count(&|i| has(x, i) && !has(y, i)));
        assert_eq!(a.symmetric_difference_count(&set), count(&|i| has(x, i) != has(y, i)));
        assert_eq!(a.is_subset(b), count(&|i| has(x, i) && !has(y, i)) == 0);
        assert_eq!(a.is_superset(b), count(&|i| has(y, i) && !has(x, i)) == 0);
        assert_eq!(a.is_disjoint(b), count(&|i| has(x, i) && has(y, i)) == 0);
        for i in 0..top + 3 {
            assert_eq!(a.contains(i), has(x, i));
        }
        let lo = x.len() / 3;
        let hi = x.len() - x.len() / 5;
        assert_eq!(a.count_ones(lo..hi), (lo..hi).filter(|&i| x[i]).count());
        assert_eq!(a.count_zeroes(lo..hi), (lo..hi).filter(|&i| !x[i]).count());
        assert_eq!(a.contains_all_in_range(lo..hi), (lo..hi).all(|i| x[i]));
        assert_eq!(a.contains_any_in_range(lo..hi), (lo..hi).any(|i| x[i]));
    }
}
