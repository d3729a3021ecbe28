use socksfinder::codec::{compare_bytes, push_decimal, push_u32_le, read_u32_le};
use socksfinder::report::decimal_string;
use socksfinder::version;

#[test]
fn u32_little_endian() {
    let mut out = vec![9u8];
    push_u32_le(&mut out, 0x0102_0304);
    assert_eq!(out, vec![9, 4, 3, 2, 1]);
    assert_eq!(read_u32_le(&out, 1), 0x0102_0304);
    push_u32_le(&mut out, u32::MAX);
    assert_eq!(read_u32_le(&out, 5), u32::MAX);
}

#[test]
fn decimal_digits() {
    let mut out = Vec::new();
    push_decimal(&mut out, 0);
    push_decimal(&mut out, 1907);
    assert_eq!(out, b"01907".to_vec());
    assert_eq!(decimal_string(u64::MAX), u64::MAX.to_string());
}

#[test]
fn byte_order() {
    assert_eq!(compare_bytes(b"abc", b"abd"), -1);
    assert_eq!(compare_bytes(b"ab", b"abc"), -1);
    assert_eq!(compare_bytes(b"b", b"abc"), 1);
    assert_eq!(compare_bytes(b"abc", b"abc"), 0);
    assert_eq!(compare_bytes(b"", b""), 0);
}

#[test]
fn version_string() {
    assert_eq!(version(), "0.1.0");
}
