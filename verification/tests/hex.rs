use dilithium_harness::error::ParseError;
use dilithium_harness::hex::{decode_hex, encode_hex};

#[test]
fn decode_hex_reads_two_digits_per_byte() {
    assert_eq!(decode_hex(b"00ff10a5"), Ok(vec![0x00, 0xff, 0x10, 0xa5]));
}

#[test]
fn decode_hex_takes_either_case() {
    assert_eq!(decode_hex(b"DeadBEEF"), Ok(vec![0xde, 0xad, 0xbe, 0xef]));
    assert_eq!(decode_hex(b"deadbeef"), decode_hex(b"DEADBEEF"));
}

#[test]
fn decode_hex_of_nothing_is_nothing() {
    assert_eq!(decode_hex(b""), Ok(Vec::new()));
}

#[test]
fn decode_hex_gives_half_as_many_bytes() {
    let text: &[u8] = b"000102030405060708090a0b0c0d0e0f";
    let bytes: Vec<u8> = decode_hex(text).unwrap();
    assert_eq!(bytes.len() * 2, text.len());
    assert_eq!(bytes, (0u8..16).collect::<Vec<u8>>());
}

#[test]
fn decode_hex_rejects_odd_length() {
    assert_eq!(decode_hex(b"abc"), Err(ParseError::HexDecodeError));
    assert_eq!(decode_hex(b"a"), Err(ParseError::HexDecodeError));
}

#[test]
fn decode_hex_rejects_other_characters() {
    assert_eq!(decode_hex(b"0g"), Err(ParseError::HexDecodeError));
    assert_eq!(decode_hex(b"+f"), Err(ParseError::HexDecodeError));
    assert_eq!(decode_hex(b"0 "), Err(ParseError::HexDecodeError));
    assert_eq!(decode_hex(b"00 11"), Err(ParseError::HexDecodeError));
    assert_eq!(decode_hex(b"0x10"), Err(ParseError::HexDecodeError));
    assert_eq!(decode_hex(b"/0"), Err(ParseError::HexDecodeError));
    assert_eq!(decode_hex(b":0"), Err(ParseError::HexDecodeError));
    assert_eq!(decode_hex(b"@0"), Err(ParseError::HexDecodeError));
    assert_eq!(decode_hex(b"G0"), Err(ParseError::HexDecodeError));
    assert_eq!(decode_hex(b"`0"), Err(ParseError::HexDecodeError));
}

#[test]
fn encode_hex_writes_lower_case() {
    assert_eq!(encode_hex(&[0x00, 0xff, 0x10, 0xa5]), b"00ff10a5".to_vec());
    assert_eq!(encode_hex(&[0xde, 0xad, 0xbe, 0xef]), b"deadbeef".to_vec());
    assert_eq!(encode_hex(&[]), Vec::<u8>::new());
}

#[test]
fn hex_round_trip_over_every_byte() {
    let bytes: Vec<u8> = (0u8..=255).collect();
    assert_eq!(decode_hex(&encode_hex(&bytes)), Ok(bytes));
}

#[test]
fn hex_round_trip_normalises_case() {
    let text: &[u8] = b"0123456789ABCDEFabcdef";
    let bytes: Vec<u8> = decode_hex(text).unwrap();
    assert_eq!(encode_hex(&bytes), b"0123456789abcdefabcdef".to_vec());
}
