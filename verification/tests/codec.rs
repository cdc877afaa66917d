use btclib::codec::{put_bytes, put_i64, put_raw, put_u128, put_u256, put_u64, put_uint};
use btclib::U256;

#[test]
fn numbers_are_written_least_significant_byte_first() {
    let mut out = vec![0xaa];
    put_u64(&mut out, 0x0102030405060708);
    assert_eq!(out, vec![0xaa, 8, 7, 6, 5, 4, 3, 2, 1]);
    let mut out = Vec::new();
    put_u128(&mut out, 1 << 120);
    assert_eq!(out.len(), 16);
    assert_eq!(out[15], 1);
    assert!(out[..15].iter().all(|b| *b == 0));
    let mut out = Vec::new();
    put_uint(&mut out, 0x010203, 2);
    assert_eq!(out, vec![3, 2]);
    put_uint(&mut out, 0x010203, 0);
    assert_eq!(out, vec![3, 2]);
}

#[test]
fn signed_numbers_are_shifted() {
    let mut out = Vec::new();
    put_i64(&mut out, i64::MIN);
    assert_eq!(out, vec![0; 8]);
    let mut out = Vec::new();
    put_i64(&mut out, -1);
    assert_eq!(out, vec![0xff, 0xff, 0xff, 0xff, 0xff, 0xff, 0xff, 0x7f]);
    let mut out = Vec::new();
    put_i64(&mut out, 0);
    assert_eq!(out, vec![0, 0, 0, 0, 0, 0, 0, 0x80]);
    let mut out = Vec::new();
    put_i64(&mut out, i64::MAX);
    assert_eq!(out, vec![0xff; 8]);
}

#[test]
fn strings_of_bytes_go_behind_their_length() {
    let mut out = Vec::new();
    put_bytes(&mut out, &[7, 8, 9]);
    assert_eq!(out, vec![3, 0, 0, 0, 0, 0, 0, 0, 7, 8, 9]);
    put_bytes(&mut out, &[]);
    assert_eq!(out.len(), 19);
    put_raw(&mut out, &[1, 2]);
    assert_eq!(&out[19..], &[1, 2]);
}

#[test]
fn wide_numbers_take_32_bytes() {
    let mut out = Vec::new();
    put_u256(&mut out, &U256(1, 2, 3, 4));
    assert_eq!(out.len(), 32);
    assert_eq!(out[0], 1);
    assert_eq!(out[8], 2);
    assert_eq!(out[16], 3);
    assert_eq!(out[24], 4);
    assert_eq!(out.iter().map(|b| *b as u32).sum::<u32>(), 10);
}
