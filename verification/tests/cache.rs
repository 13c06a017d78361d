use ranker::bitmask::BitMask;
use ranker::cache::{masks_from_bytes, masks_to_bytes};

#[test]
fn empty_list_is_one_zero_byte() {
    let bytes = masks_to_bytes(&[]);
    assert_eq!(bytes, vec![0]);
    assert_eq!(masks_from_bytes(&bytes), Vec::<BitMask>::new());
}

#[test]
fn masks_are_fitted_to_the_block_size() {
    let masks: Vec<BitMask> = vec![
        vec![].into(),
        vec![0x04, 2, 0].into(),
        vec![0x4, 10, 100].into(),
        vec![1].into(),
        vec![0x04, 1].into(),
    ];
    let bytes = masks_to_bytes(&masks);
    assert_eq!(bytes, vec![0, 1, 0, 0x04, 0x04, 1, 0x04]);
    let read: Vec<BitMask> = masks_from_bytes(&bytes);
    let expected: Vec<BitMask> = vec![
        vec![0].into(),
        vec![0x04].into(),
        vec![0x04].into(),
        vec![1].into(),
        vec![0x04].into(),
    ];
    assert_eq!(read, expected);
}

#[test]
fn nine_masks_take_two_bytes_each() {
    let masks: Vec<BitMask> = vec![
        vec![].into(),
        vec![0x04, 2, 0].into(),
        vec![0x4, 10, 100].into(),
        vec![1].into(),
        vec![0x04, 1].into(),
        vec![0x40].into(),
        vec![84].into(),
        vec![0xf4, 0xa, 0xff].into(),
        vec![0xa4].into(),
    ];
    let read = masks_from_bytes(&masks_to_bytes(&masks));
    let expected: Vec<BitMask> = vec![
        vec![0, 0].into(),
        vec![0x04, 2].into(),
        vec![0x04, 10].into(),
        vec![1, 0].into(),
        vec![0x04, 1].into(),
        vec![0x40, 0].into(),
        vec![84, 0].into(),
        vec![0xf4, 10].into(),
        vec![0xa4, 0].into(),
    ];
    assert_eq!(read, expected);
}

#[test]
fn short_last_block_is_zero_padded() {
    let read = masks_from_bytes(&[0, 2, 1, 2, 3]);
    let expected: Vec<BitMask> = vec![vec![1, 2].into(), vec![3, 0].into()];
    assert_eq!(read, expected);
}

#[test]
fn header_only_or_zero_size_reads_nothing() {
    assert_eq!(masks_from_bytes(&[]), Vec::<BitMask>::new());
    assert_eq!(masks_from_bytes(&[5]), Vec::<BitMask>::new());
    assert_eq!(masks_from_bytes(&[0, 0, 1, 2]), Vec::<BitMask>::new());
}
