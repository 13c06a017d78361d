use ranker::bitmask::BitMask;

#[test]
fn test_from() {
    let bitmask: BitMask = 10.into();
    assert_eq!(bitmask, vec![0, 0b00000100].into());
    let bitmask: BitMask = 0.into();
    assert_eq!(bitmask, vec![0b00000001].into())
}

#[test]
fn test_discard() {
    let mut bitmask: BitMask = 0.into();
    bitmask.set_bit(8);
    bitmask.discard_bit(0);
    bitmask.discard_bit(7);

    assert_eq!(bitmask, vec![0, 0].into());

    bitmask = vec![0b11011101, 0b10010001, 0b00000010].into();
    bitmask.discard_bit(3);
    assert_eq!(bitmask, vec![0b11101101, 0b01001000, 0b00000001].into());
    bitmask.discard_bit(14);
    assert_eq!(bitmask, vec![0b11101101, 0b10001000, 0].into());
}

#[test]
fn set_and_check_bits() {
    let mut bitmask: BitMask = 10.into();
    assert_eq!(bitmask, vec![0, 0x04].into());

    bitmask.set_bit(5);
    assert!(bitmask.check_bit(10));
    assert!(bitmask.check_bit(5));
    assert!(!bitmask.check_bit(4));
    assert_eq!(bitmask, vec![0x20, 0x04].into());
}

#[test]
fn set_bit_grows_the_mask() {
    let mut bitmask: BitMask = vec![].into();
    bitmask.set_bit(17);
    assert_eq!(bitmask, vec![0, 0, 0b10].into());
    assert_eq!(bitmask.get_num_ones(), 1);
}

#[test]
fn reset_bit_clears_only_that_bit() {
    let mut bitmask: BitMask = vec![0xff, 0x0f].into();
    bitmask.reset_bit(3);
    bitmask.reset_bit(9);
    assert_eq!(bitmask, vec![0xf7, 0x0d].into());
    assert_eq!(bitmask.get_num_ones(), 10);
}

#[test]
fn extend_then_fit() {
    let mut bitmask: BitMask = vec![].into();
    bitmask.extend_by_bytes(1);
    assert_eq!(bitmask, vec![0].into());
    bitmask.extend_by_bytes(17);
    assert_eq!(bitmask.ref_vec().len(), 18);
    bitmask.fit_to_bytes(2);
    assert_eq!(bitmask, vec![0, 0].into());
}

#[test]
fn fit_to_number_of_bits_rounds_up() {
    let mut bitmask: BitMask = vec![1, 2, 3, 4].into();
    bitmask.fit_to_number_of_bits(9);
    assert_eq!(bitmask, vec![1, 2].into());
    bitmask.fit_to_number_of_bits(24);
    assert_eq!(bitmask, vec![1, 2, 0].into());
    bitmask.fit_to_number_of_bits(0);
    assert_eq!(bitmask, vec![].into());
}

#[test]
fn num_ones_counts_every_byte() {
    let bitmask: BitMask = vec![0xff, 0x01, 0x80, 0].into();
    assert_eq!(bitmask.get_num_ones(), 10);
}

#[test]
fn discard_last_bit_of_last_byte() {
    let mut bitmask: BitMask = vec![0x80].into();
    bitmask.discard_bit(7);
    assert_eq!(bitmask, vec![0].into());
    let mut bitmask: BitMask = vec![0x81].into();
    bitmask.discard_bit(0);
    assert_eq!(bitmask, vec![0x40].into());
}

#[test]
fn setting_twice_is_setting_once() {
    let mut once: BitMask = vec![0x10].into();
    once.set_bit(12);
    let mut twice = once.clone();
    twice.set_bit(12);
    assert_eq!(once, twice);
    assert_eq!(once, vec![0x10, 0x10].into());
}

#[test]
fn reset_undoes_set_on_a_clear_bit() {
    let before: BitMask = vec![0x5a, 0x01].into();
    let mut mask = before.clone();
    assert!(!mask.check_bit(10));
    mask.set_bit(10);
    assert!(mask.check_bit(10));
    mask.reset_bit(10);
    assert_eq!(mask, before);
}

#[test]
fn discarding_a_set_bit_lowers_the_count() {
    let mut mask: BitMask = vec![0b1011_0110, 0b0000_0011].into();
    assert_eq!(mask.get_num_ones(), 7);
    mask.discard_bit(2);
    assert_eq!(mask.get_num_ones(), 6);
    assert_eq!(mask, vec![0b1101_1010, 0b0000_0001].into());
    mask.discard_bit(0);
    assert_eq!(mask.get_num_ones(), 6);
    assert_eq!(mask, vec![0b1110_1101, 0b0000_0000].into());
}

#[test]
fn an_index_mask_has_one_bit() {
    let mask = BitMask::from_index(19);
    assert_eq!(mask, vec![0, 0, 0b1000].into());
    assert_eq!(mask.get_num_ones(), 1);
    assert!(mask.check_bit(19));
    assert!(!mask.check_bit(18));
}
