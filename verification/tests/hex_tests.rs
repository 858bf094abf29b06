use simplicity_inspect::error::Error;
use simplicity_inspect::hex::{from_hex, HexError};

#[test]
fn hex_is_read_in_either_case() {
    assert_eq!(from_hex("00ff1A2b"), Ok(vec![0x00, 0xff, 0x1a, 0x2b]));
    assert_eq!(from_hex("DEADbeef"), Ok(vec![0xde, 0xad, 0xbe, 0xef]));
    assert_eq!(from_hex(""), Ok(vec![]));
}

#[test]
fn hex_of_odd_length_is_refused() {
    assert_eq!(from_hex("abc"), Err(HexError::OddLengthString(3)));
    assert_eq!(from_hex("g"), Err(HexError::OddLengthString(1)));
}

#[test]
fn hex_with_another_character_is_refused_at_the_first() {
    assert_eq!(from_hex("0g"), Err(HexError::InvalidChar(b'g')));
    assert_eq!(from_hex("zg"), Err(HexError::InvalidChar(b'z')));
    assert_eq!(from_hex("00x1y2"), Err(HexError::InvalidChar(b'x')));
    assert_eq!(from_hex("0 "), Err(HexError::InvalidChar(b' ')));
    assert_eq!(from_hex("\u{e9}"), Err(HexError::InvalidChar(0xc3)));
}

#[test]
fn errors_carry_their_message() {
    assert_eq!(Error::Base64("Invalid padding".to_string()).message(), "Invalid padding");
    assert_eq!(Error::Simplicity("bad".to_string()).message(), "bad");
    assert_eq!(Error::IO("io".to_string()).message(), "io");
    assert_eq!(Error::Encode("enc".to_string()).message(), "enc");
    assert_eq!(Error::Json("json".to_string()).message(), "json");
    assert_eq!(Error::Fmt.message(), "an error occurred when formatting an argument");
}
