use webpub::codec::{enc_u32, enc_u64, read_u32, read_u64};
use webpub::server::sync::u64_to_string;

#[test]
fn test_u64_little_endian_roundtrip() {
    let mut bytes: Vec<u8> = Vec::new();
    enc_u64(&mut bytes, 0x0123_4567_89ab_cdef);
    assert_eq!(bytes, vec![0xef, 0xcd, 0xab, 0x89, 0x67, 0x45, 0x23, 0x01]);
    let (x, end) = read_u64(&bytes, 0).unwrap();
    assert_eq!(x, 0x0123_4567_89ab_cdef);
    assert_eq!(end, 8);
    assert!(read_u64(&bytes, 1).is_none());
}

#[test]
fn test_u32_little_endian_roundtrip() {
    let mut bytes: Vec<u8> = Vec::new();
    enc_u32(&mut bytes, 0o755);
    let (x, end) = read_u32(&bytes, 0).unwrap();
    assert_eq!(x, 0o755);
    assert_eq!(end, 4);
}

#[test]
fn test_u64_to_string_decimal() {
    assert_eq!(u64_to_string(0), "0");
    assert_eq!(u64_to_string(7), "7");
    assert_eq!(u64_to_string(10), "10");
    assert_eq!(u64_to_string(90210), "90210");
    assert_eq!(u64_to_string(u64::MAX), "18446744073709551615");
}
