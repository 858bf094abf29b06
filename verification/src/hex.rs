//! Hexadecimal and binary numerals of byte strings.

use vstd::prelude::*;
use vstd::string::StringSliceAdditionalSpecFns;
use crate::text::{push_char, push_chars};
use crate::value::{bit_of, unpacked};

verus! {

/// The lower-case hexadecimal digit of a value below sixteen.
pub open spec fn hex_digit(n: int) -> char {
    if n < 10 {
        (48 + n) as char
    } else {
        (87 + n) as char
    }
}

/// The hexadecimal encoding of a byte string: two digits per byte, the high
/// nibble first.
pub open spec fn hex_string(bytes: Seq<u8>) -> Seq<char> {
    Seq::new(
        2 * bytes.len(),
        |i: int|
            if i % 2 == 0 {
                hex_digit(bytes[i / 2] as int / 16)
            } else {
                hex_digit(bytes[i / 2] as int % 16)
            },
    )
}

/// Computes the lower-case hexadecimal digit of a nibble.
fn digit(n: u8) -> (c: char)
    requires
        n < 16,
    ensures
        c == hex_digit(n as int),
{
    if n < 10 {
        (48u8 + n) as char
    } else {
        (87u8 + n) as char
    }
}

/// Encodes a byte string as lower-case hexadecimal text.
pub fn to_hex(bytes: &[u8]) -> (s: String)
    ensures
        s@ == hex_string(bytes@),
{
    let mut s = String::new();
    let mut i: usize = 0;
    while i < bytes.len()
        invariant
            i <= bytes.len(),
            s@.len() == 2 * i,
            forall|j: int| 0 <= j < 2 * i ==> s@[j] == hex_string(bytes@)[j],
        decreases bytes.len() - i,
    {
        let b: u8 = bytes[i];
        push_char(&mut s, digit(b / 16));
        push_char(&mut s, digit(b % 16));
        i += 1;
    }
    assert(s@ =~= hex_string(bytes@));
    s
}

/// The lower-case hexadecimal numeral of a byte, without a leading zero.
pub open spec fn hex_number(n: u8) -> Seq<char> {
    if n < 16 {
        seq![hex_digit(n as int)]
    } else {
        seq![hex_digit(n as int / 16), hex_digit(n as int % 16)]
    }
}

/// Writes a byte as a lower-case hexadecimal numeral, without a leading
/// zero.
pub fn number_to_hex(n: u8) -> (s: String)
    ensures
        s@ == hex_number(n),
{
    let mut s = String::new();
    if n >= 16 {
        push_char(&mut s, digit(n / 16));
    }
    push_char(&mut s, digit(n % 16));
    assert(s@ =~= hex_number(n));
    s
}

/// Encodes each of a list of byte strings as lower-case hexadecimal text.
pub fn all_to_hex(items: &[Vec<u8>]) -> (texts: Vec<String>)
    ensures
        texts@.len() == items@.len(),
        forall|k: int| 0 <= k < items@.len() ==> (#[trigger] texts@[k])@ == hex_string(items@[k]@),
{
    let mut texts: Vec<String> = Vec::new();
    let mut i: usize = 0;
    while i < items.len()
        invariant
            i <= items@.len(),
            texts@.len() == i,
            forall|k: int| 0 <= k < i ==> (#[trigger] texts@[k])@ == hex_string(items@[k]@),
        decreases items@.len() - i,
    {
        texts.push(to_hex(items[i].as_slice()));
        i += 1;
    }
    texts
}

/// The upper-case hexadecimal digit of a value below sixteen.
pub open spec fn upper_hex_digit(n: int) -> char {
    if n < 10 {
        (48 + n) as char
    } else {
        (55 + n) as char
    }
}

/// The upper-case hexadecimal numeral of a byte string: two digits per byte,
/// the high nibble first.
pub open spec fn upper_hex_string(bytes: Seq<u8>) -> Seq<char> {
    Seq::new(
        2 * bytes.len(),
        |i: int|
            if i % 2 == 0 {
                upper_hex_digit(bytes[i / 2] as int / 16)
            } else {
                upper_hex_digit(bytes[i / 2] as int % 16)
            },
    )
}

/// Computes the upper-case hexadecimal digit of a nibble.
fn upper_digit(n: u8) -> (c: char)
    requires
        n < 16,
    ensures
        c == upper_hex_digit(n as int),
{
    if n < 10 {
        (48u8 + n) as char
    } else {
        (55u8 + n) as char
    }
}

/// Appends the upper-case hexadecimal numeral of a byte string to a string.
pub fn push_upper_hex(s: &mut String, bytes: &[u8])
    ensures
        final(s)@ == old(s)@ + upper_hex_string(bytes@),
{
    let mut out: Vec<char> = Vec::new();
    let mut i: usize = 0;
    while i < bytes.len()
        invariant
            i <= bytes.len(),
            out@.len() == 2 * i,
            forall|j: int| 0 <= j < out@.len() ==> out@[j] == upper_hex_string(bytes@)[j],
        decreases bytes.len() - i,
    {
        let b: u8 = bytes[i];
        out.push(upper_digit(b / 16));
        out.push(upper_digit(b % 16));
        i += 1;
    }
    assert(out@ =~= upper_hex_string(bytes@));
    push_chars(s, &out);
}

/// The binary digit of a bit of a byte; bit 7 is the highest.
pub open spec fn binary_digit(byte: u8, bit: int) -> char {
    if (byte as int / pow2_upto7(bit)) % 2 == 1 {
        '1'
    } else {
        '0'
    }
}

/// Two to the power of a number up to seven.
pub open spec fn pow2_upto7(k: int) -> int {
    if k <= 0 {
        1
    } else if k == 1 {
        2
    } else if k == 2 {
        4
    } else if k == 3 {
        8
    } else if k == 4 {
        16
    } else if k == 5 {
        32
    } else if k == 6 {
        64
    } else {
        128
    }
}

/// The binary numeral of a byte string: eight digits per byte, the highest
/// bit first.
pub open spec fn binary_string(bytes: Seq<u8>) -> Seq<char> {
    Seq::new(8 * bytes.len(), |i: int| binary_digit(bytes[i / 8], 7 - i % 8))
}

/// Computes the binary digit of a bit of a byte.
fn binary_digit_of(byte: u8, bit: u8) -> (c: char)
    requires
        bit < 8,
    ensures
        c == binary_digit(byte, bit as int),
{
    let divisor: u8 = if bit == 0 {
        1
    } else if bit == 1 {
        2
    } else if bit == 2 {
        4
    } else if bit == 3 {
        8
    } else if bit == 4 {
        16
    } else if bit == 5 {
        32
    } else if bit == 6 {
        64
    } else {
        128
    };
    if (byte / divisor) % 2 == 1 {
        '1'
    } else {
        '0'
    }
}

/// Appends the binary numeral of a byte string to a string.
pub fn push_binary(s: &mut String, bytes: &[u8])
    ensures
        final(s)@ == old(s)@ + binary_string(bytes@),
{
    let mut out: Vec<char> = Vec::new();
    let mut i: usize = 0;
    while i < bytes.len()
        invariant
            i <= bytes.len(),
            out@.len() == 8 * i,
            forall|j: int| 0 <= j < out@.len() ==> out@[j] == binary_string(bytes@)[j],
        decreases bytes.len() - i,
    {
        let b: u8 = bytes[i];
        out.push(binary_digit_of(b, 7));
        out.push(binary_digit_of(b, 6));
        out.push(binary_digit_of(b, 5));
        out.push(binary_digit_of(b, 4));
        out.push(binary_digit_of(b, 3));
        out.push(binary_digit_of(b, 2));
        out.push(binary_digit_of(b, 1));
        out.push(binary_digit_of(b, 0));
        i += 1;
    }
    assert(out@ =~= binary_string(bytes@));
    push_chars(s, &out);
}

/// The digits of a bit string, one for each bit, the first bit first.
pub open spec fn bit_string(bits: Seq<bool>) -> Seq<char> {
    Seq::new(
        bits.len(),
        |i: int|
            if bits[i] {
                '1'
            } else {
                '0'
            },
    )
}

/// Appends the digits of the first `len` bits of a byte string to a string,
/// the highest bit of each byte first.
pub(crate) fn push_bits(s: &mut String, bytes: &[u8], len: usize)
    requires
        len <= 8 * bytes@.len(),
    ensures
        final(s)@ == old(s)@ + bit_string(unpacked(bytes@, len as nat)),
{
    let mut out: Vec<char> = Vec::new();
    let mut i: usize = 0;
    while i < len
        invariant
            i <= len <= 8 * bytes@.len(),
            out@.len() == i,
            forall|j: int|
                0 <= j < out@.len() ==> out@[j] == bit_string(unpacked(bytes@, len as nat))[j],
        decreases len - i,
    {
        out.push(
            if bit_of(bytes[i / 8], i % 8) {
                '1'
            } else {
                '0'
            },
        );
        i += 1;
    }
    assert(out@ =~= bit_string(unpacked(bytes@, len as nat)));
    push_chars(s, &out);
}

/// Why a text is no hexadecimal text of bytes.
#[derive(Clone, Copy, Debug, PartialEq, Eq, Structural)]
pub enum HexError {
    /// The text has an odd length, which is given.
    OddLengthString(usize),
    /// The text holds a byte, which is given, that is no hexadecimal digit.
    InvalidChar(u8),
}

/// The value of a hexadecimal digit, in either case, given by its byte.
pub open spec fn digit_value(c: u8) -> Option<u8> {
    if 48 <= c <= 57 {
        Some((c - 48) as u8)
    } else if 97 <= c <= 102 {
        Some((c - 87) as u8)
    } else if 65 <= c <= 70 {
        Some((c - 55) as u8)
    } else {
        None
    }
}

/// Whether the bytes of a text are hexadecimal digits up to position `n`.
pub open spec fn digits_upto(text: Seq<u8>, n: int) -> bool {
    forall|i: int| 0 <= i < n ==> (#[trigger] digit_value(text[i])) is Some
}

/// The bytes that a text of hexadecimal digits stands for: one for every
/// two digits, the high nibble first.
pub open spec fn hex_bytes(text: Seq<u8>) -> Seq<u8> {
    Seq::new(
        text.len() / 2,
        |i: int| (16 * digit_value(text[2 * i])->0 + digit_value(text[2 * i + 1])->0) as u8,
    )
}

/// What reading a text as hexadecimal gives: the bytes, or that the length
/// is odd, or else the first byte that is no digit.
pub open spec fn is_hex_reading(text: Seq<u8>, reading: Result<Vec<u8>, HexError>) -> bool {
    if text.len() % 2 != 0 {
        reading == Err::<Vec<u8>, HexError>(HexError::OddLengthString(text.len() as usize))
    } else if digits_upto(text, text.len() as int) {
        reading matches Ok(bytes) && bytes@ == hex_bytes(text)
    } else {
        reading matches Err(HexError::InvalidChar(c)) && exists|i: int|
            0 <= i < text.len() && digits_upto(text, i) && #[trigger] text[i] == c && digit_value(
                c,
            ) is None
    }
}

/// Computes the value of a hexadecimal digit.
pub fn value_of_digit(c: u8) -> (v: Option<u8>)
    ensures
        v == digit_value(c),
{
    if 48 <= c && c <= 57 {
        Some(c - 48)
    } else if 97 <= c && c <= 102 {
        Some(c - 87)
    } else if 65 <= c && c <= 70 {
        Some(c - 55)
    } else {
        None
    }
}

/// Reads hexadecimal text, in either case, as bytes.
pub fn from_hex(s: &str) -> (reading: Result<Vec<u8>, HexError>)
    ensures
        is_hex_reading(s.spec_bytes(), reading),
{
    let text = s.as_bytes();
    let n = text.len();
    if n % 2 != 0 {
        return Err(HexError::OddLengthString(n));
    }
    let mut bytes: Vec<u8> = Vec::new();
    let mut i: usize = 0;
    while i < n / 2
        invariant
            text@ == s.spec_bytes(),
            n == text@.len(),
            n % 2 == 0,
            i <= n / 2,
            bytes@.len() == i,
            digits_upto(text@, 2 * i),
            forall|k: int|
                0 <= k < i ==> bytes@[k] == (16 * digit_value(text@[2 * k])->0 + digit_value(
                    text@[2 * k + 1],
                )->0) as u8,
        decreases n / 2 - i,
    {
        let hi = match value_of_digit(text[2 * i]) {
            Some(hi) => hi,
            None => {
                proof {
                    let at = 2 * i as int;
                    assert(digit_value(text@[at]) is None);
                    assert(digits_upto(text@, at) && text@[at] == text@[at]);
                }
                return Err(HexError::InvalidChar(text[2 * i]));
            },
        };
        let lo = match value_of_digit(text[2 * i + 1]) {
            Some(lo) => lo,
            None => {
                proof {
                    let at = 2 * i as int + 1;
                    assert(digit_value(text@[at]) is None);
                    assert(digits_upto(text@, at) && text@[at] == text@[at]);
                }
                return Err(HexError::InvalidChar(text[2 * i + 1]));
            },
        };
        bytes.push(16 * hi + lo);
        i += 1;
    }
    assert(bytes@ =~= hex_bytes(text@));
    Ok(bytes)
}

} // verus!
