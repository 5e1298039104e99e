//! Hexadecimal text and the bytes it stands for.

use vstd::prelude::*;

use crate::ascii::{DIGIT_0, DIGIT_9, LOWER_A, LOWER_F, UPPER_A, UPPER_F};
use crate::error::ParseError;

verus! {

/// The value of one hexadecimal digit, given as an ASCII byte in either case.
pub open spec fn hex_value(c: u8) -> Option<u8> {
    if DIGIT_0 <= c <= DIGIT_9 {
        Some((c - DIGIT_0) as u8)
    } else if LOWER_A <= c <= LOWER_F {
        Some((c - LOWER_A + 10) as u8)
    } else if UPPER_A <= c <= UPPER_F {
        Some((c - UPPER_A + 10) as u8)
    } else {
        None
    }
}

/// Whether `text` is an even number of hexadecimal digits and nothing else.
pub open spec fn is_hex_text(text: Seq<u8>) -> bool {
    &&& text.len() % 2 == 0
    &&& forall|i: int| 0 <= i < text.len() ==> hex_value(#[trigger] text[i]) is Some
}

/// The byte written by the digit pair `hi`, `lo`.
pub open spec fn hex_pair(hi: u8, lo: u8) -> u8 {
    (16 * hex_value(hi).unwrap() + hex_value(lo).unwrap()) as u8
}

/// The bytes that the hexadecimal text `text` stands for, two digits per byte.
pub open spec fn hex_bytes(text: Seq<u8>) -> Seq<u8> {
    Seq::new(text.len() / 2, |i: int| hex_pair(text[2 * i], text[2 * i + 1]))
}

/// What decoding `text` gives: its bytes, or the reason why it has none.
pub open spec fn hex_decoding(text: Seq<u8>) -> Result<Seq<u8>, ParseError> {
    if is_hex_text(text) {
        Ok(hex_bytes(text))
    } else {
        Err(ParseError::HexDecodeError)
    }
}

fn hex_digit(c: u8) -> (r: Option<u8>)
    ensures
        r == hex_value(c),
{
    if DIGIT_0 <= c && c <= DIGIT_9 {
        Some(c - DIGIT_0)
    } else if LOWER_A <= c && c <= LOWER_F {
        Some(c - LOWER_A + 10)
    } else if UPPER_A <= c && c <= UPPER_F {
        Some(c - UPPER_A + 10)
    } else {
        None
    }
}

/// Decodes hexadecimal text into bytes. Any text that is not an even number of
/// hexadecimal digits is rejected as a whole.
pub fn decode_hex(text: &[u8]) -> (r: Result<Vec<u8>, ParseError>)
    ensures
        match r {
            Ok(bytes) => hex_decoding(text@) == Ok::<Seq<u8>, ParseError>(bytes@),
            Err(e) => hex_decoding(text@) == Err::<Seq<u8>, ParseError>(e),
        },
        r matches Ok(bytes) ==> 2 * bytes@.len() == text@.len(),
{
    let n: usize = text.len();
    if n % 2 != 0 {
        return Err(ParseError::HexDecodeError);
    }
    let mut bytes: Vec<u8> = Vec::new();
    let mut i: usize = 0;
    while i < n
        invariant
            n == text.len(),
            n % 2 == 0,
            i % 2 == 0,
            i <= n,
            bytes.len() == i / 2,
            forall|j: int| 0 <= j < i ==> hex_value(#[trigger] text[j]) is Some,
            forall|k: int|
                0 <= k < bytes.len() ==> #[trigger] bytes[k] == hex_pair(
                    text[2 * k],
                    text[2 * k + 1],
                ),
        decreases n - i,
    {
        let hi: u8 = match hex_digit(text[i]) {
            Some(v) => v,
            None => {
                return Err(ParseError::HexDecodeError);
            },
        };
        let lo: u8 = match hex_digit(text[i + 1]) {
            Some(v) => v,
            None => {
                return Err(ParseError::HexDecodeError);
            },
        };
        bytes.push(16 * hi + lo);
        i = i + 2;
    }
    assert(bytes@ =~= hex_bytes(text@));
    Ok(bytes)
}

/// The lower-case digit that writes a value below sixteen.
pub open spec fn hex_char(v: u8) -> u8 {
    if v < 10 {
        (DIGIT_0 + v) as u8
    } else {
        (LOWER_A + v - 10) as u8
    }
}

/// The hexadecimal text of `bytes`: two lower-case digits per byte, the high
/// half first.
pub open spec fn hex_text(bytes: Seq<u8>) -> Seq<u8> {
    Seq::new(
        2 * bytes.len(),
        |i: int|
            if i % 2 == 0 {
                hex_char((bytes[i / 2] / 16) as u8)
            } else {
                hex_char((bytes[i / 2] % 16) as u8)
            },
    )
}

/// A character with the upper-case digits `A` to `F` turned to lower case.
pub open spec fn lower_hex_char(c: u8) -> u8 {
    if UPPER_A <= c <= UPPER_F {
        (c - UPPER_A + LOWER_A) as u8
    } else {
        c
    }
}

/// A text with its upper-case hexadecimal digits turned to lower case.
pub open spec fn lower_hex_text(text: Seq<u8>) -> Seq<u8> {
    Seq::new(text.len(), |i: int| lower_hex_char(text[i]))
}

fn hex_digit_char(v: u8) -> (c: u8)
    requires
        v < 16,
    ensures
        c == hex_char(v),
{
    if v < 10 {
        DIGIT_0 + v
    } else {
        LOWER_A + (v - 10)
    }
}

/// Writes bytes as hexadecimal text, in lower case. Decoding the text gives
/// the bytes back.
pub fn encode_hex(bytes: &[u8]) -> (text: Vec<u8>)
    ensures
        text@ == hex_text(bytes@),
        hex_decoding(text@) == Ok::<Seq<u8>, ParseError>(bytes@),
{
    let mut text: Vec<u8> = Vec::new();
    let mut i: usize = 0;
    while i < bytes.len()
        invariant
            i <= bytes.len(),
            text.len() == 2 * i,
            forall|j: int| 0 <= j < text.len() ==> #[trigger] text[j] == hex_text(bytes@)[j],
        decreases bytes.len() - i,
    {
        let b: u8 = bytes[i];
        text.push(hex_digit_char(b / 16));
        text.push(hex_digit_char(b % 16));
        i = i + 1;
    }
    proof {
        assert(text@ =~= hex_text(bytes@));
        lemma_decode_of_encode(bytes@);
    }
    text
}

/// Decoding the hexadecimal text of any bytes succeeds and gives those bytes
/// back.
pub proof fn lemma_decode_of_encode(bytes: Seq<u8>)
    ensures
        is_hex_text(hex_text(bytes)),
        hex_bytes(hex_text(bytes)) == bytes,
{
    let text = hex_text(bytes);
    assert forall|i: int| 0 <= i < text.len() implies hex_value(#[trigger] text[i]) is Some by {
        let b = bytes[i / 2];
        assert(b / 16 < 16 && b % 16 < 16);
    }
    assert forall|k: int| 0 <= k < bytes.len() implies hex_bytes(text)[k] == bytes[k] by {
        let b = bytes[k];
        assert((2 * k) / 2 == k && (2 * k + 1) / 2 == k);
        assert((2 * k) % 2 == 0 && (2 * k + 1) % 2 == 1);
        assert(text[2 * k] == hex_char((b / 16) as u8));
        assert(text[2 * k + 1] == hex_char((b % 16) as u8));
        assert(hex_value(hex_char((b / 16) as u8)) == Some((b / 16) as u8));
        assert(hex_value(hex_char((b % 16) as u8)) == Some((b % 16) as u8));
        assert(16 * (b / 16) + b % 16 == b);
    }
    assert(hex_bytes(text) =~= bytes);
}

/// The case of its digits does not change what a hexadecimal text decodes to.
pub proof fn lemma_decode_ignores_case(text: Seq<u8>)
    ensures
        is_hex_text(lower_hex_text(text)) == is_hex_text(text),
        hex_bytes(lower_hex_text(text)) == hex_bytes(text),
{
    let lower = lower_hex_text(text);
    assert forall|i: int| 0 <= i < text.len() implies hex_value(#[trigger] lower[i])
        == hex_value(text[i]) by {}
    if is_hex_text(text) {
        assert forall|i: int| 0 <= i < lower.len() implies hex_value(#[trigger] lower[i])
            is Some by {
            assert(hex_value(text[i]) is Some);
        }
    }
    if is_hex_text(lower) {
        assert forall|i: int| 0 <= i < text.len() implies hex_value(#[trigger] text[i])
            is Some by {
            assert(hex_value(lower[i]) is Some);
        }
    }
    assert(hex_bytes(lower) =~= hex_bytes(text));
}

/// Writing out what a hexadecimal text decodes to gives the text back with its
/// digits in lower case.
pub proof fn lemma_encode_of_decode(text: Seq<u8>)
    requires
        is_hex_text(text),
    ensures
        hex_text(hex_bytes(text)) == lower_hex_text(text),
{
    let bytes = hex_bytes(text);
    let again = hex_text(bytes);
    assert(again.len() == text.len());
    assert forall|i: int| 0 <= i < text.len() implies again[i] == lower_hex_text(text)[i] by {
        let k = i / 2;
        assert(hex_value(text[2 * k]) is Some);
        assert(hex_value(text[2 * k + 1]) is Some);
        let hi = hex_value(text[2 * k]).unwrap();
        let lo = hex_value(text[2 * k + 1]).unwrap();
        assert(bytes[k] == (16 * hi + lo) as u8);
        assert((16 * hi + lo) / 16 == hi && (16 * hi + lo) % 16 == lo);
        if i % 2 == 0 {
            assert(i == 2 * k);
        } else {
            assert(i == 2 * k + 1);
        }
    }
    assert(again =~= lower_hex_text(text));
}

} // verus!
