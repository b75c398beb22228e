use fixedbitset::FixedBitSliceMut;

const W: usize = usize::BITS as usize;

#[test]
fn set_and_unset() {
    let mut data = [0usize; 3];
    let mut s = FixedBitSliceMut::from_raw_parts(&mut data, 2 * W);
    s.set(3, true);
    s.set(W + 1, true);
    s.set_unchecked(2 * W - 1, true);
    s.set(4, false);
    assert!(s.as_readonly().contains(3));
    assert_eq!(s.as_readonly().count_ones(..), 3);
    s.set(3, false);
    s.set_unchecked(W + 1, false);
    assert!(!s.as_readonly().contains(3));
    assert_eq!(s.as_readonly().minimum(), Some(2 * W - 1));
    assert_eq!(data, [0, 1 << (W - 1), 0]);
}

#[test]
fn insert_and_remove() {
    let mut data = [0usize; 2];
    let mut s = FixedBitSliceMut::from_raw_parts(&mut data, W + 1);
    s.insert(0);
    s.insert(0);
    s.insert_unchecked(W);
    assert_eq!(s.as_readonly().count_ones(..), 2);
    s.remove(0);
    s.remove(1);
    s.remove_unchecked(W);
    assert!(s.as_readonly().is_clear());
}

#[test]
fn put_returns_the_previous_value() {
    let mut data = [0b100usize, 0];
    let mut s = FixedBitSliceMut::from_raw_parts(&mut data, 2 * W);
    assert!(s.put(2));
    assert!(!s.put(3));
    assert!(s.put(3));
    assert!(!s.put_unchecked(W));
    assert!(s.put_unchecked(W));
    assert_eq!(data, [0b1100, 1]);
}

#[test]
fn toggle_inverts() {
    let mut data = [0b10usize, 0];
    let mut s = FixedBitSliceMut::from_raw_parts(&mut data, 2 * W);
    s.toggle(0);
    s.toggle(1);
    s.toggle_unchecked(W + 2);
    assert_eq!(s.as_readonly().as_slice(), &[0b01, 0b100]);
    s.toggle_unchecked(0);
    s.toggle(1);
    s.toggle(W + 2);
    assert_eq!(data, [0b10, 0]);
}

#[test]
fn copies_of_bits() {
    let mut data = [0b1usize, 0];
    let mut s = FixedBitSliceMut::from_raw_parts(&mut data, W + 4);
    s.copy_bit(0, W + 3);
    assert!(s.as_readonly().contains(W + 3));
    s.copy_bit(1, 0);
    assert!(!s.as_readonly().contains(0));
    s.copy_bit_unchecked(W + 3, 7);
    assert!(s.as_readonly().contains(7));
    s.copy_bit_unchecked(8, 7);
    assert!(!s.as_readonly().contains(7));
    s.copy_bit(W + 3, W + 3);
    assert!(s.as_readonly().contains(W + 3));
    s.copy_bit(W + 4, W + 3);
    assert!(!s.as_readonly().contains(W + 3));
    s.insert(2);
    s.copy_bit(usize::MAX, 2);
    assert!(s.as_readonly().is_clear());
}

#[test]
fn bits_past_the_length_stay() {
    let mut data = [0b11000usize, 0b1];
    let mut s = FixedBitSliceMut::from_raw_parts(&mut data, 3);
    s.insert(0);
    s.toggle(2);
    s.remove(2);
    s.copy_bit(3, 1);
    assert_eq!(s.as_readonly().len(), 3);
    assert_eq!(s.as_readonly().as_slice(), &[0b11001]);
    assert_eq!(data, [0b11001, 0b1]);
}

#[test]
fn no_other_bit_changes() {
    for target in 0..2 * W {
        let mut data = [0x5555usize, 0xaaaausize];
        let before = data;
        let mut s = FixedBitSliceMut::from_raw_parts(&mut data, 2 * W);
        let old = s.put(target);
        assert!(s.as_readonly().contains(target));
        s.remove(target);
        assert!(!s.as_readonly().contains(target));
        s.set(target, old);
        assert_eq!(data, before);
    }
}
