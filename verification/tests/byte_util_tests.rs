use sdfat32::byte_util::{little_endian_to_int, take_from_slice, taken_from_slice};

#[test]
fn little_endian_single_byte() {
    assert_eq!(little_endian_to_int(&[0x7F]), 0x7F);
    assert_eq!(little_endian_to_int(&[0x00]), 0);
    assert_eq!(little_endian_to_int(&[0xFF]), 255);
}

#[test]
fn little_endian_two_bytes() {
    assert_eq!(little_endian_to_int(&[0x34, 0x12]), 0x1234);
    assert_eq!(little_endian_to_int(&[0x00, 0x08]), 2048);
}

#[test]
fn little_endian_four_bytes_polynomial() {
    // b0 + 256*b1 + 65536*b2 + 16777216*b3
    let b = [7u8, 5, 3, 2];
    assert_eq!(
        little_endian_to_int(&b),
        7 + 256 * 5 + 65536 * 3 + 16777216 * 2
    );
    assert_eq!(little_endian_to_int(&[0xFF, 0xFF, 0xFF, 0xFF]), u32::MAX);
    assert_eq!(little_endian_to_int(&[0, 0, 0, 1]), 16777216);
}

#[test]
fn little_endian_empty_is_zero() {
    assert_eq!(little_endian_to_int(&[]), 0);
}

#[test]
fn take_from_slice_advances() {
    let data = [1u8, 2, 3];
    let mut cursor: &[u8] = &data;
    assert_eq!(take_from_slice(&mut cursor), 1);
    assert_eq!(take_from_slice(&mut cursor), 2);
    assert_eq!(cursor, &[3u8][..]);
}

#[test]
fn taken_from_slice_splits() {
    let data = [10u8, 20, 30, 40, 50];
    let mut cursor: &[u8] = &data;
    let head = taken_from_slice(&mut cursor, 2);
    assert_eq!(head, &[10u8, 20][..]);
    assert_eq!(cursor, &[30u8, 40, 50][..]);
    let rest = taken_from_slice(&mut cursor, 3);
    assert_eq!(rest, &[30u8, 40, 50][..]);
    assert_eq!(cursor.len(), 0);
}
