use fixedbitset::{FixedBitSet, FixedBitSlice, FixedBitSliceMut};

const W: usize = usize::BITS as usize;

fn pair() -> (FixedBitSet, FixedBitSet) {
    let a = FixedBitSet::with_capacity_and_blocks(2 * W + 5, &[0xf0f3, 0x8001, 0b10011]);
    let b = FixedBitSet::with_capacity_and_blocks(W + 16, &[0x00ff, 0xffff]);
    (a, b)
}

#[test]
fn full_exactly_where_the_count_is_the_length() {
    for bits in 0..20 {
        let data = [0x3ffusize];
        let s = FixedBitSlice::from_raw_parts(&data, bits);
        assert_eq!(s.is_full(), s.count_ones(..) == s.len());
        assert_eq!(s.is_full(), bits <= 10);
    }
}

#[test]
fn ones_and_zeroes_add_up() {
    let (a, _) = pair();
    let s = a.as_bit_slice();
    for lo in 0..s.len() {
        for hi in lo..s.len() {
            let ones = s.count_ones(lo..hi);
            let zeroes = s.count_zeroes(lo..hi);
            assert_eq!(ones + zeroes, hi - lo);
            assert_eq!(s.contains_any_in_range(lo..hi), ones > 0);
            assert_eq!(s.contains_all_in_range(lo..hi), zeroes == 0);
        }
    }
}

#[test]
fn every_position_is_walked_over_once() {
    let (a, _) = pair();
    let s = a.as_bit_slice();
    let mut seen = vec![0; s.len()];
    let mut ones = s.ones();
    while let Some(i) = ones.next() {
        assert!(s.contains(i));
        seen[i] += 1;
    }
    let mut zeroes = s.zeroes();
    while let Some(i) = zeroes.next() {
        assert!(!s.contains(i));
        seen[i] += 1;
    }
    assert_eq!(seen, vec![1; s.len()]);
}

#[test]
fn counts_of_pairs_add_up() {
    let (a, b) = pair();
    let (x, y) = (a.as_bit_slice(), b.as_bit_slice());
    let union = x.union_count(y);
    let both = x.intersection_count(y);
    assert_eq!(union + both, x.count_ones(..) + y.count_ones(..));
    assert_eq!(x.difference_count(&b) + both, x.count_ones(..));
    assert_eq!(x.symmetric_difference_count(&b) + both, union);
    assert_eq!(union, y.union_count(x));
    assert_eq!(both, y.intersection_count(x));
    assert_eq!(x.symmetric_difference_count(&b), y.symmetric_difference_count(&a));
    assert_eq!((union, both), (31, 8));
}

#[test]
fn relations_agree_with_counts() {
    let (a, b) = pair();
    let (x, y) = (a.as_bit_slice(), b.as_bit_slice());
    assert_eq!(x.is_subset(y), x.difference_count(&b) == 0);
    assert_eq!(y.is_subset(x), y.difference_count(&a) == 0);
    assert_eq!(x.is_disjoint(y), x.intersection_count(y) == 0);
    assert_eq!(x.is_disjoint(y), y.is_disjoint(x));
    assert_eq!(x.is_superset(y), y.is_subset(x));
    assert!(x.is_subset(x) && x.difference_count(&a) == 0);
}

#[test]
fn clear_sets_have_no_ones() {
    let data = [0usize; 3];
    let s = FixedBitSlice::from_raw_parts(&data, 2 * W + 1);
    assert!(s.is_clear());
    assert_eq!(s.ones().next(), None);
    assert_eq!(s.minimum(), None);
    assert_eq!(s.count_ones(..), 0);
}

#[test]
fn changes_can_be_undone() {
    let mut data = [0x1234usize, 0x4321];
    let before = data;
    for bit in 0..2 * W {
        let mut s = FixedBitSliceMut::from_raw_parts(&mut data, 2 * W);
        s.toggle(bit);
        s.toggle(bit);
        s.copy_bit(bit, bit);
        let old = s.put(bit);
        s.set(bit, false);
        s.set(bit, old);
        assert_eq!(data, before);
    }
}

#[test]
fn subsets_are_contained() {
    let (a, b) = pair();
    let (x, y) = (a.as_bit_slice(), b.as_bit_slice());
    let contained = (0..x.len()).all(|i| !x.contains(i) || y.contains(i));
    assert_eq!(x.is_subset(y), contained);
    let few = FixedBitSet::with_capacity_and_blocks(3 * W, &[0x0f, 0x11]);
    let z = few.as_bit_slice();
    assert!(z.is_subset(y));
    assert!((0..z.len()).all(|i| !z.contains(i) || y.contains(i)));
}
