use fixedbitset::block::{block_count, cut, div_rem};
use fixedbitset::{FixedBitSlice, FixedBitSliceMut, IndexRange, Masks, SimdBlock};

const W: usize = usize::BITS as usize;

fn shared<T: Send + Sync>(_: &T) {}

#[test]
fn views_can_be_shared() {
    let mut data = [1usize, 2];
    let view = FixedBitSliceMut::from_raw_parts(&mut data, 2 * W);
    shared(&view);
    let s: FixedBitSlice = view.as_readonly();
    shared(&s);
    let copy = s;
    assert_eq!(s.maximum(), copy.maximum());
}

#[test]
fn quotients_and_word_counts() {
    assert_eq!(div_rem(70, 64), (1, 6));
    assert_eq!(div_rem(0, 3), (0, 0));
    assert_eq!(block_count(0), 0);
    assert_eq!(block_count(1), 1);
    assert_eq!(block_count(W), 1);
    assert_eq!(block_count(W + 1), 2);
    assert_eq!(block_count(usize::MAX), usize::MAX / W + 1);
}

#[test]
fn words_cut_short() {
    assert_eq!(cut(usize::MAX, 0), 0);
    assert_eq!(cut(usize::MAX, 3), 0b111);
    assert_eq!(cut(0b1010, 2), 0b10);
    assert_eq!(cut(usize::MAX, W - 1), usize::MAX >> 1);
    assert_eq!(cut(usize::MAX, W), usize::MAX);
    assert_eq!(cut(5, usize::MAX), 5);
}

#[test]
fn bounds_of_ranges() {
    assert_eq!((IndexRange::start(&(..)), IndexRange::end(&(..))), (None, None));
    assert_eq!((IndexRange::start(&(3..)), IndexRange::end(&(3..))), (Some(3), None));
    assert_eq!((IndexRange::start(&(..4)), IndexRange::end(&(..4))), (None, Some(4)));
    assert_eq!((IndexRange::start(&(3..4)), IndexRange::end(&(3..4))), (Some(3), Some(4)));
}

#[test]
fn masks_within_one_word() {
    let mut masks = Masks::new(2..5, 10);
    assert_eq!(masks.next(), Some((0, 0b11100)));
    assert_eq!(masks.next(), None);
    assert_eq!(masks.next(), None);
    let mut whole = Masks::new(.., W);
    assert_eq!(whole.next(), Some((0, usize::MAX)));
    assert_eq!(whole.next(), None);
    assert_eq!(Masks::new(4..4, 10).next(), None);
    assert_eq!(Masks::new(W..W, W).next(), None);
    assert_eq!(Masks::new(.., 0).next(), None);
}

#[test]
fn masks_over_words() {
    let mut masks = Masks::new(W - 1.., 3 * W + 2);
    assert_eq!(masks.next(), Some((0, 1 << (W - 1))));
    assert_eq!(masks.next(), Some((1, usize::MAX)));
    assert_eq!(masks.next(), Some((2, usize::MAX)));
    assert_eq!(masks.next(), Some((3, 0b11)));
    assert_eq!(masks.next(), None);
    let mut masks = Masks::new(..2 * W, 3 * W);
    assert_eq!(masks.next(), Some((0, usize::MAX)));
    assert_eq!(masks.next(), Some((1, usize::MAX)));
    assert_eq!(masks.next(), None);
}

#[test]
fn groups_of_words() {
    let x = SimdBlock::new([0b110, 0]);
    let y = SimdBlock::new([0b011, 1]);
    assert!(!x.is_empty());
    assert!(SimdBlock::new([0, 0]).is_empty());
    assert!(!SimdBlock::new([0, 1]).is_empty());
    assert_eq!(x.bitand(y).into_usize_array(), [0b010, 0]);
    assert_eq!(x.andnot(y).into_usize_array(), [0b100, 0]);
    assert_eq!(y.andnot(x).into_usize_array(), [0b001, 1]);
}
