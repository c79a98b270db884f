use s3_storage::digest::{content_etag, format_composite_etag};
use s3_storage::encoding::{parse_hex, parse_u32, to_decimal, to_hex, to_hex_bytes};

#[test]
fn hexadecimal_is_written_without_leading_zeros() {
    assert_eq!(to_hex(0), "0");
    assert_eq!(to_hex(9), "9");
    assert_eq!(to_hex(10), "a");
    assert_eq!(to_hex(255), "ff");
    assert_eq!(to_hex(256), "100");
    assert_eq!(to_hex(0xdead_beef), "deadbeef");
    assert_eq!(to_hex(u64::MAX), "ffffffffffffffff");
}

#[test]
fn hexadecimal_is_written_as_the_formatter_writes_it() {
    for n in [0u64, 1, 15, 16, 17, 4095, 4096, 1 << 40, u64::MAX - 1] {
        assert_eq!(to_hex(n), format!("{:x}", n));
    }
}

#[test]
fn decimal_is_written_without_leading_zeros() {
    assert_eq!(to_decimal(0), "0");
    assert_eq!(to_decimal(7), "7");
    assert_eq!(to_decimal(10), "10");
    assert_eq!(to_decimal(1000), "1000");
    assert_eq!(to_decimal(u64::MAX), "18446744073709551615");
}

#[test]
fn hexadecimal_is_read_back() {
    assert_eq!(parse_hex("0"), Some(0));
    assert_eq!(parse_hex("ff"), Some(255));
    assert_eq!(parse_hex("deadbeef"), Some(0xdead_beef));
    assert_eq!(parse_hex("ffffffffffffffff"), Some(u64::MAX));
    for n in [1u64, 9, 10, 4095, 1 << 63] {
        assert_eq!(parse_hex(&to_hex(n)), Some(n));
    }
}

#[test]
fn what_is_no_hexadecimal_number_is_not_read() {
    assert_eq!(parse_hex(""), None);
    assert_eq!(parse_hex("g"), None);
    assert_eq!(parse_hex("FF"), None);
    assert_eq!(parse_hex("0x10"), None);
    assert_eq!(parse_hex("-1"), None);
    assert_eq!(parse_hex("1 "), None);
    assert_eq!(parse_hex("é"), None);
}

#[test]
fn a_leading_zero_is_not_read() {
    assert_eq!(parse_hex("00"), None);
    assert_eq!(parse_hex("0f"), None);
    assert_eq!(parse_hex("0ffffffffffffffff"), None);
}

#[test]
fn a_number_beyond_64_bits_is_not_read() {
    assert_eq!(parse_hex("10000000000000000"), None);
    assert_eq!(parse_hex("fffffffffffffffff"), None);
}

#[test]
fn part_numbers_are_read_from_decimal_digits() {
    assert_eq!(parse_u32("1"), Some(1));
    assert_eq!(parse_u32("0"), Some(0));
    assert_eq!(parse_u32("007"), Some(7));
    assert_eq!(parse_u32("10000"), Some(10000));
    assert_eq!(parse_u32("4294967295"), Some(u32::MAX));
}

#[test]
fn one_plus_sign_may_stand_before_the_digits() {
    assert_eq!(parse_u32("+1"), Some(1));
    assert_eq!(parse_u32("+0"), Some(0));
    assert_eq!(parse_u32("+007"), Some(7));
    assert_eq!(parse_u32("+4294967295"), Some(u32::MAX));
    assert_eq!(parse_u32("+"), None);
    assert_eq!(parse_u32("++1"), None);
    assert_eq!(parse_u32("+-1"), None);
    assert_eq!(parse_u32("1+"), None);
    assert_eq!(parse_u32("+4294967296"), None);
    assert_eq!(parse_u32("+ 1"), None);
}

#[test]
fn numbers_are_read_as_the_standard_parser_reads_them() {
    for text in [
        "", "0", "1", "+1", "+", "-1", "-0", "007", "+007", "12a", "a12", " 1", "1 ",
        "4294967295", "4294967296", "+4294967295", "99999999999", "++2", "+-2", "０",
    ] {
        assert_eq!(parse_u32(text), text.parse::<u32>().ok(), "{:?}", text);
    }
}

#[test]
fn what_is_no_decimal_number_of_32_bits_is_not_read() {
    assert_eq!(parse_u32(""), None);
    assert_eq!(parse_u32("invalid"), None);
    assert_eq!(parse_u32("1a"), None);
    assert_eq!(parse_u32("a"), None);
    assert_eq!(parse_u32("-1"), None);
    assert_eq!(parse_u32(" 1"), None);
    assert_eq!(parse_u32("4294967296"), None);
    assert_eq!(parse_u32("99999999999999999999999999"), None);
}

#[test]
fn bytes_are_written_as_two_digits_each() {
    assert_eq!(to_hex_bytes(&[]), "");
    assert_eq!(to_hex_bytes(&[0]), "00");
    assert_eq!(to_hex_bytes(&[0x0f, 0xf0, 0xab]), "0ff0ab");
    assert_eq!(to_hex_bytes(&[255, 1, 16]), "ff0110");
}

#[test]
fn the_entity_tag_is_the_digest_in_hexadecimal() {
    assert_eq!(content_etag(b""), "d41d8cd98f00b204e9800998ecf8427e");
    assert_eq!(content_etag(b"hello"), "5d41402abc4b2a76b9719d911017c592");
    assert_eq!(
        content_etag(b"abcdefghijklmnopqrstuvwxyz"),
        "c3fcd3d76192e4007dfb496cca67e13b"
    );
    assert_eq!(content_etag(b"hello").len(), 32);
    assert_ne!(content_etag(b"hello"), to_hex_bytes(b"hello"));
}

#[test]
fn the_composite_tag_ends_in_the_number_of_parts() {
    assert_eq!(format_composite_etag(&[0xab, 0xcd], 2), "abcd-2");
    assert_eq!(format_composite_etag(&[], 0), "-0");
    assert_eq!(format_composite_etag(&[1], 10000), "01-10000");
    let outer = [
        0x69, 0x04, 0x51, 0xd4, 0x75, 0x12, 0xc7, 0x8e, 0xee, 0xca, 0xa5, 0x21, 0x60, 0x6f, 0x18,
        0x1b,
    ];
    assert_eq!(
        format_composite_etag(&outer, 2),
        "690451d47512c78eeecaa521606f181b-2"
    );
}
