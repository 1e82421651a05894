use grou_num::error::FormatError;
use grou_num::grou::Grou;
use grou_num::radix_convert::{
    convert_binary_string_to_Grou, convert_decimal_string_to_Grou, convert_digits_to_binary,
    convert_from_string, convert_hexadecimal_string_to_Grou, convert_to_binary, parse,
    parse_packet, string_into_base, string_into_packets, BASE_DECIMAL, BASE_HEXADECIMAL,
};

const MAX: u64 = u64::MAX;

fn num(limbs: &[u64]) -> Grou {
    Grou::from(limbs.to_vec())
}

#[test]
fn parse_round_trips_one_limb() {
    let values = [
        0,
        1,
        9,
        10,
        1234567890,
        999_999_999_999_999_999,
        9_999_999_999_999_999_999,
        10_000_000_000_000_000_000,
        10_000_000_000_000_000_001,
        MAX - 1,
        MAX,
    ];
    for n in values {
        assert_eq!(parse(&n.to_string()), Ok(Grou::from(n)));
    }
}

#[test]
fn parse_documented_hexadecimal() {
    assert_eq!(
        parse("0x314159265358979323846fffffffffff"),
        Ok(num(&[2559293633555595263, 3549216002486605715]))
    );
    assert_eq!(parse("0xFF"), Ok(num(&[255])));
    assert_eq!(parse("0xff"), Ok(num(&[255])));
    assert_eq!(parse("0x1000000000000000"), Ok(num(&[1 << 60])));
    assert_eq!(parse("0x10000000000000000"), Ok(num(&[0, 1])));
}

#[test]
fn parse_binary_fills_whole_limbs() {
    assert_eq!(parse("0b101"), Ok(num(&[5])));
    assert_eq!(parse(&format!("0b{}", "1".repeat(64))), Ok(num(&[MAX])));
    assert_eq!(parse(&format!("0b1{}", "0".repeat(64))), Ok(num(&[0, 1])));
    assert_eq!(parse(&format!("0b11{}1", "0".repeat(127))), Ok(num(&[1, 0, 3])));
    // Packets of zeros stay as zero limbs.
    assert_eq!(parse(&format!("0b{}", "0".repeat(65))), Ok(num(&[0, 0])));
}

#[test]
fn parse_keeps_what_the_prefix_leaves() {
    assert_eq!(parse(""), Ok(num(&[])));
    assert_eq!(parse("0x"), Ok(num(&[])));
    assert_eq!(parse("0b"), Ok(num(&[])));
    assert_eq!(parse("0"), Ok(num(&[0])));
    assert_eq!(parse("00"), Ok(num(&[0])));
    assert_eq!(parse("007"), Ok(num(&[7])));
    assert_eq!(parse("0x0"), Ok(num(&[0])));
}

#[test]
fn parse_accepts_a_plus_sign_at_the_head_of_a_packet() {
    assert_eq!(parse("+5"), Ok(num(&[5])));
    assert_eq!(parse("0x+f"), Ok(num(&[15])));
    assert_eq!(parse("+"), Err(FormatError::InvalidPacket));
    assert_eq!(parse("1+2"), Err(FormatError::InvalidPacket));
    assert_eq!(parse("++1"), Err(FormatError::InvalidPacket));
    assert_eq!(parse_packet(b"+0012", 10), Ok(12));
}

#[test]
fn parse_refuses_what_is_no_numeral() {
    assert_eq!(parse("12a"), Err(FormatError::InvalidPacket));
    assert_eq!(parse("-1"), Err(FormatError::InvalidPacket));
    assert_eq!(parse(" 1"), Err(FormatError::InvalidPacket));
    assert_eq!(parse("1_000"), Err(FormatError::InvalidPacket));
    assert_eq!(parse("0xg"), Err(FormatError::InvalidPacket));
    assert_eq!(parse("0b102"), Err(FormatError::InvalidPacket));
    assert_eq!(parse("0X1f"), Err(FormatError::InvalidPacket));
    assert_eq!(parse("12345678901234567890x"), Err(FormatError::InvalidPacket));
    assert_eq!(parse("x2345678901234567890"), Err(FormatError::InvalidPacket));
}

#[test]
fn parse_refuses_text_outside_ascii() {
    assert_eq!(parse("12\u{e9}"), Err(FormatError::NotAscii));
    assert_eq!(parse("\u{663}"), Err(FormatError::NotAscii));
    assert_eq!(parse("0x\u{ff11}"), Err(FormatError::NotAscii));
    assert_eq!(convert_from_string("12\u{e9}"), Err(FormatError::InvalidPacket));
}

#[test]
fn converters_by_base() {
    assert_eq!(convert_decimal_string_to_Grou("18446744073709551616"), Ok(num(&[0, 1])));
    assert_eq!(convert_decimal_string_to_Grou("0x10"), Err(FormatError::InvalidPacket));
    assert_eq!(convert_hexadecimal_string_to_Grou("0x10"), Ok(num(&[16])));
    assert_eq!(convert_hexadecimal_string_to_Grou("zz10"), Ok(num(&[16])));
    assert_eq!(convert_hexadecimal_string_to_Grou("0"), Err(FormatError::InvalidPacket));
    assert_eq!(convert_hexadecimal_string_to_Grou(""), Err(FormatError::InvalidPacket));
    assert_eq!(convert_binary_string_to_Grou("0b10"), Ok(num(&[2])));
    assert_eq!(convert_binary_string_to_Grou("0b12"), Err(FormatError::InvalidPacket));
    assert_eq!(convert_binary_string_to_Grou("b"), Err(FormatError::InvalidPacket));
    assert_eq!(convert_from_string("0b11"), Ok(num(&[3])));
    assert_eq!(convert_from_string("0x11"), Ok(num(&[17])));
    assert_eq!(convert_from_string("011"), Ok(num(&[11])));
}

#[test]
fn packets_come_from_the_end() {
    let packets = string_into_packets(b"1234567", 3);
    assert_eq!(packets, vec![&b"567"[..], &b"234"[..], &b"1"[..]]);
    assert_eq!(string_into_packets(b"123456", 3), vec![&b"456"[..], &b"123"[..]]);
    assert_eq!(string_into_packets(b"12", 3), vec![&b"12"[..]]);
    assert!(string_into_packets(b"", 3).is_empty());
    assert_eq!(string_into_base(b"1234567", 3, 10), Ok(vec![567, 234, 1]));
    assert_eq!(string_into_base(b"ff00", 2, 16), Ok(vec![0, 255]));
    assert_eq!(string_into_base(b"12x4567", 3, 10), Err(FormatError::InvalidPacket));
}

#[test]
fn packet_parsing() {
    assert_eq!(parse_packet(b"0", 2), Ok(0));
    assert_eq!(parse_packet(b"zz", 36), Ok(35 * 36 + 35));
    assert_eq!(parse_packet(b"Zz", 36), Ok(35 * 36 + 35));
    assert_eq!(parse_packet(b"18446744073709551615", 10), Ok(MAX));
    assert_eq!(parse_packet(b"18446744073709551616", 10), Err(FormatError::InvalidPacket));
    assert_eq!(parse_packet(b"99999999999999999999", 10), Err(FormatError::InvalidPacket));
    assert_eq!(parse_packet(b"", 10), Err(FormatError::InvalidPacket));
    assert_eq!(parse_packet(b"8", 8), Err(FormatError::InvalidPacket));
    assert_eq!(parse_packet(b"a", 10), Err(FormatError::InvalidPacket));
}

#[test]
fn folding_proto_digits() {
    assert_eq!(convert_to_binary(&[], 10), num(&[]));
    assert_eq!(convert_to_binary(&[5], 10), num(&[5]));
    assert_eq!(convert_to_binary(&[3, 2, 1], 10), num(&[123]));
    assert_eq!(convert_to_binary(&[0, 1], BASE_DECIMAL), num(&[BASE_DECIMAL]));
    assert_eq!(convert_to_binary(&[0, 16], BASE_HEXADECIMAL), num(&[0, 1]));
    assert_eq!(convert_to_binary(&[7, 0, 0], BASE_DECIMAL), num(&[7]));
    assert_eq!(convert_to_binary(&[MAX, MAX], MAX), num(&[0, MAX]));
}

#[test]
fn digits_fold_like_text() {
    let digits: Vec<u8> = "123456789012345678901234567890".bytes().map(|b| b - b'0').collect();
    assert_eq!(Ok(convert_digits_to_binary(&digits)), parse("123456789012345678901234567890"));
    // Leading zeros that fill no packet of their own leave no trace.
    let mut padded = vec![0u8; 5];
    padded.extend_from_slice(&[1u8; 19]);
    assert_eq!(convert_digits_to_binary(&padded), num(&[1111111111111111111]));
    assert_eq!(convert_digits_to_binary(&[0, 0, 0]), num(&[0]));
    assert_eq!(convert_digits_to_binary(&vec![0u8; 19]), num(&[0]));
    assert_eq!(convert_digits_to_binary(&vec![0u8; 20]), num(&[0]));
    assert_eq!(convert_digits_to_binary(&vec![9u8; 19]), num(&[9_999_999_999_999_999_999]));
}
