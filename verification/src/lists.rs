//! Bracketed lists of signed decimal integers, and groups of such lists in
//! parentheses.
//!
//! ```text
//! group := '(' ( list ( (',' | ';') list )* )? ')'
//! list  := '[' ( int ( ',' int )* )? ']'
//! int   := '-'? digit+
//! ```
//!
//! Spaces and newlines around these tokens are skipped. A list runs from its
//! opening bracket to the first closing bracket behind it, and a group from
//! its opening parenthesis to the first closing parenthesis behind it: where
//! that closing character is missing, the error is `TruncatedInput`. Whatever
//! else keeps the text from being read, a number outside the range of `i32`
//! among it, is an `IntegerParseError`.

use vstd::prelude::*;
use vstd::slice::slice_subrange;

use crate::ascii::{
    CLOSE_BRACKET, CLOSE_PAREN, COMMA, MINUS, NEWLINE, OPEN_BRACKET, OPEN_PAREN, SEMICOLON, SPACE,
};
use crate::decimal::{decimal_value, digits_end, read_digits};
use crate::error::ParseError;
use crate::scan::{find_byte, first_byte, lemma_first_byte};

verus! {

/// Whether `c` is a space or a newline.
pub open spec fn is_blank(c: u8) -> bool {
    c == SPACE || c == NEWLINE
}

/// The first position at or after `i` that holds no blank, or the end of the
/// text.
pub open spec fn blanks_end(s: Seq<u8>, i: int) -> int
    decreases s.len() - i,
{
    if 0 <= i < s.len() && is_blank(s[i]) {
        blanks_end(s, i + 1)
    } else {
        i
    }
}

/// The position behind the last character of `s` that is no blank, or zero.
pub open spec fn blanks_start(s: Seq<u8>) -> int
    decreases s.len(),
{
    if s.len() > 0 && is_blank(s.last()) {
        blanks_start(s.drop_last())
    } else {
        s.len() as int
    }
}

/// `blanks_end` is the end of the longest run of blanks from `i`.
pub proof fn lemma_blanks_end(s: Seq<u8>, i: int)
    requires
        0 <= i <= s.len(),
    ensures
        i <= blanks_end(s, i) <= s.len(),
        forall|j: int| i <= j < blanks_end(s, i) ==> is_blank(#[trigger] s[j]),
        blanks_end(s, i) < s.len() ==> !is_blank(s[blanks_end(s, i)]),
    decreases s.len() - i,
{
    if i < s.len() && is_blank(s[i]) {
        lemma_blanks_end(s, i + 1);
    }
}

/// `s` without the blanks at its start and at its end.
pub open spec fn trim(s: Seq<u8>) -> Seq<u8> {
    if blanks_end(s, 0) < blanks_start(s) {
        s.subrange(blanks_end(s, 0), blanks_start(s))
    } else {
        Seq::empty()
    }
}

/// The integer that `token` writes: an optional minus sign and one or more
/// decimal digits, for a number in the range of `i32`.
pub open spec fn integer_of(token: Seq<u8>) -> Option<i32> {
    let negative = token.len() > 0 && token[0] == MINUS;
    let digits = if negative {
        token.skip(1)
    } else {
        token
    };
    let magnitude = decimal_value(digits);
    if digits.len() == 0 || digits_end(digits, 0) != digits.len() {
        None
    } else if negative && magnitude <= 0x8000_0000 {
        Some((-magnitude) as i32)
    } else if !negative && magnitude <= 0x7fff_ffff {
        Some(magnitude as i32)
    } else {
        None
    }
}

/// The integers that `s` writes with commas between them and blanks around
/// them, if every one of them is written well.
pub open spec fn integers_of(s: Seq<u8>) -> Option<Seq<i32>>
    decreases s.len(),
{
    match first_byte(s, COMMA, 0) {
        None => match integer_of(trim(s)) {
            Some(value) => Some(seq![value]),
            None => None,
        },
        Some(comma) => {
            proof {
                lemma_first_byte(s, COMMA, 0);
            }
            match (integer_of(trim(s.take(comma))), integers_of(s.skip(comma + 1))) {
                (Some(value), Some(rest)) => Some(seq![value] + rest),
                _ => None,
            }
        },
    }
}

/// The integers that stand between the brackets of a list: none if there is
/// nothing but blanks.
pub open spec fn list_content(s: Seq<u8>) -> Option<Seq<i32>> {
    if blanks_end(s, 0) >= s.len() {
        Some(Seq::empty())
    } else {
        integers_of(s)
    }
}

/// What reading at some position gives: the numbers read and the position
/// behind them, or the reason why nothing can be read there.
pub type Reading = Result<(Seq<i32>, int), ParseError>;

/// The list whose opening bracket is expected at position `i`.
pub open spec fn list_at(s: Seq<u8>, i: int) -> Reading {
    if i >= s.len() {
        Err(ParseError::TruncatedInput)
    } else if s[i] != OPEN_BRACKET {
        Err(ParseError::IntegerParseError)
    } else {
        match first_byte(s, CLOSE_BRACKET, i + 1) {
            None => Err(ParseError::TruncatedInput),
            Some(close) => match list_content(s.subrange(i + 1, close)) {
                Some(values) => Ok((values, close + 1)),
                None => Err(ParseError::IntegerParseError),
            },
        }
    }
}

/// A list that was read ends behind the place where it starts, and within the
/// text.
pub proof fn lemma_list_at_advances(s: Seq<u8>, i: int)
    requires
        0 <= i,
    ensures
        list_at(s, i) matches Ok((_, end)) ==> i < end <= s.len(),
{
    lemma_first_byte(s, CLOSE_BRACKET, i + 1);
}

/// The numbers of the lists of `s` from position `i` on, where the first of
/// them starts, up to the end of `s`, in the order in which they are written.
pub open spec fn lists_from(s: Seq<u8>, i: int) -> Result<Seq<i32>, ParseError>
    decreases s.len() - i,
    when 0 <= i
{
    match list_at(s, i) {
        Err(e) => Err(e),
        Ok((values, end)) => {
            let k = blanks_end(s, end);
            let next = blanks_end(s, k + 1);
            if k >= s.len() {
                Ok(values)
            } else if s[k] != COMMA && s[k] != SEMICOLON {
                Err(ParseError::IntegerParseError)
            } else if next >= s.len() {
                Err(ParseError::IntegerParseError)
            } else {
                proof {
                    lemma_list_at_advances(s, i);
                    lemma_blanks_end(s, end);
                    lemma_blanks_end(s, k + 1);
                }
                match lists_from(s, next) {
                    Ok(rest) => Ok(values + rest),
                    Err(e) => Err(e),
                }
            }
        },
    }
}

/// The numbers of the lists that stand between the parentheses of a group:
/// none if there is nothing but blanks.
pub open spec fn group_content(s: Seq<u8>) -> Result<Seq<i32>, ParseError> {
    if blanks_end(s, 0) >= s.len() {
        Ok(Seq::empty())
    } else {
        lists_from(s, blanks_end(s, 0))
    }
}

/// The group whose opening parenthesis is expected at position `i`.
pub open spec fn group_at(s: Seq<u8>, i: int) -> Reading {
    if i >= s.len() {
        Err(ParseError::TruncatedInput)
    } else if s[i] != OPEN_PAREN {
        Err(ParseError::IntegerParseError)
    } else {
        match first_byte(s, CLOSE_PAREN, i + 1) {
            None => Err(ParseError::TruncatedInput),
            Some(close) => match group_content(s.subrange(i + 1, close)) {
                Ok(values) => Ok((values, close + 1)),
                Err(e) => Err(e),
            },
        }
    }
}

/// The numbers of the bracketed list that `text` starts with.
pub open spec fn int_list(text: Seq<u8>) -> Result<Seq<i32>, ParseError> {
    match list_at(text, 0) {
        Ok((values, _)) => Ok(values),
        Err(e) => Err(e),
    }
}

/// The numbers of the group of lists that `text` starts with, list after list.
pub open spec fn nested_int_list(text: Seq<u8>) -> Result<Seq<i32>, ParseError> {
    match group_at(text, 0) {
        Ok((values, _)) => Ok(values),
        Err(e) => Err(e),
    }
}

/// Whether what was read while running is what `reading` says.
pub open spec fn is_reading(r: Result<(Vec<i32>, usize), ParseError>, reading: Reading) -> bool {
    match r {
        Ok((values, end)) => reading == Ok::<(Seq<i32>, int), ParseError>((values@, end as int)),
        Err(e) => reading == Err::<(Seq<i32>, int), ParseError>(e),
    }
}

fn skip_blanks(text: &[u8], start: usize) -> (end: usize)
    requires
        start <= text.len(),
    ensures
        end == blanks_end(text@, start as int),
        start <= end <= text.len(),
{
    let mut i: usize = start;
    while i < text.len() && (text[i] == SPACE || text[i] == NEWLINE)
        invariant
            start <= i <= text.len(),
            blanks_end(text@, start as int) == blanks_end(text@, i as int),
        decreases text.len() - i,
    {
        i = i + 1;
    }
    i
}

fn trimmed<'a>(text: &'a [u8]) -> (r: &'a [u8])
    ensures
        r@ == trim(text@),
{
    let lo: usize = skip_blanks(text, 0);
    let mut hi: usize = text.len();
    proof {
        assert(text@.take(hi as int) =~= text@);
    }
    while hi > 0 && (text[hi - 1] == SPACE || text[hi - 1] == NEWLINE)
        invariant
            hi <= text.len(),
            blanks_start(text@) == blanks_start(text@.take(hi as int)),
        decreases hi,
    {
        proof {
            assert(text@.take(hi as int).drop_last() =~= text@.take(hi - 1));
        }
        hi = hi - 1;
    }
    if lo < hi {
        slice_subrange(text, lo, hi)
    } else {
        let r = slice_subrange(text, 0, 0);
        assert(r@ =~= Seq::<u8>::empty());
        r
    }
}

fn read_integer(token: &[u8]) -> (r: Option<i32>)
    ensures
        r == integer_of(token@),
{
    let negative: bool = token.len() > 0 && token[0] == MINUS;
    let digits: &[u8] = if negative {
        slice_subrange(token, 1, token.len())
    } else {
        token
    };
    proof {
        if negative {
            assert(digits@ =~= token@.skip(1));
        }
    }
    let (end, magnitude) = read_digits(digits, 0, 0x8000_0000);
    proof {
        assert(digits@.subrange(0, digits@.len() as int) =~= digits@);
    }
    if digits.len() == 0 || end != digits.len() {
        return None;
    }
    match magnitude {
        None => None,
        Some(m) => {
            if negative {
                Some((-(m as i64)) as i32)
            } else if m <= 0x7fff_ffff {
                Some(m as i32)
            } else {
                None
            }
        },
    }
}

fn read_integers(text: &[u8]) -> (r: Option<Vec<i32>>)
    ensures
        match r {
            Some(values) => integers_of(text@) == Some(values@),
            None => integers_of(text@) is None,
        },
{
    let mut values: Vec<i32> = Vec::new();
    let mut rest: &[u8] = text;
    proof {
        match integers_of(text@) {
            Some(all) => {
                assert(values@ + all =~= all);
            },
            None => {},
        }
    }
    loop
        invariant
            match integers_of(rest@) {
                Some(more) => integers_of(text@) == Some(values@ + more),
                None => integers_of(text@) is None,
            },
        decreases rest@.len(),
    {
        let ghost before = values@;
        match find_byte(rest, 0, COMMA) {
            None => {
                match read_integer(trimmed(rest)) {
                    Some(value) => {
                        values.push(value);
                        proof {
                            assert(before + seq![value] =~= values@);
                        }
                        return Some(values);
                    },
                    None => {
                        return None;
                    },
                }
            },
            Some(comma) => {
                let length: usize = rest.len();
                let token = slice_subrange(rest, 0, comma);
                let behind = slice_subrange(rest, comma + 1, length);
                proof {
                    assert(token@ =~= rest@.take(comma as int));
                    assert(behind@ =~= rest@.skip(comma + 1));
                }
                match read_integer(trimmed(token)) {
                    Some(value) => {
                        proof {
                            match integers_of(behind@) {
                                Some(more) => {
                                    assert(before + (seq![value] + more) =~= before.push(value)
                                        + more);
                                },
                                None => {},
                            }
                        }
                        values.push(value);
                        rest = behind;
                    },
                    None => {
                        return None;
                    },
                }
            },
        }
    }
}

fn read_list(text: &[u8], start: usize) -> (r: Result<(Vec<i32>, usize), ParseError>)
    ensures
        is_reading(r, list_at(text@, start as int)),
        r matches Ok((_, end)) ==> start < end <= text.len(),
{
    if start >= text.len() {
        return Err(ParseError::TruncatedInput);
    }
    if text[start] != OPEN_BRACKET {
        return Err(ParseError::IntegerParseError);
    }
    let close: usize = match find_byte(text, start + 1, CLOSE_BRACKET) {
        Some(close) => close,
        None => {
            return Err(ParseError::TruncatedInput);
        },
    };
    let inner = slice_subrange(text, start + 1, close);
    if skip_blanks(inner, 0) >= inner.len() {
        return Ok((Vec::new(), close + 1));
    }
    match read_integers(inner) {
        Some(values) => Ok((values, close + 1)),
        None => Err(ParseError::IntegerParseError),
    }
}

fn read_lists(text: &[u8]) -> (r: Result<Vec<i32>, ParseError>)
    ensures
        match r {
            Ok(values) => group_content(text@) == Ok::<Seq<i32>, ParseError>(values@),
            Err(e) => group_content(text@) == Err::<Seq<i32>, ParseError>(e),
        },
{
    let mut values: Vec<i32> = Vec::new();
    let first: usize = skip_blanks(text, 0);
    if first >= text.len() {
        return Ok(values);
    }
    let mut pos: usize = first;
    proof {
        match lists_from(text@, pos as int) {
            Ok(all) => {
                assert(values@ + all =~= all);
            },
            Err(_) => {},
        }
    }
    loop
        invariant
            pos < text.len(),
            match lists_from(text@, pos as int) {
                Ok(more) => group_content(text@) == Ok::<Seq<i32>, ParseError>(values@ + more),
                Err(e) => group_content(text@) == Err::<Seq<i32>, ParseError>(e),
            },
        decreases text.len() - pos,
    {
        let (mut list, end) = match read_list(text, pos) {
            Ok(found) => found,
            Err(e) => {
                return Err(e);
            },
        };
        let ghost before = values@;
        let ghost read = list@;
        let k: usize = skip_blanks(text, end);
        if k >= text.len() {
            values.append(&mut list);
            return Ok(values);
        }
        if text[k] != COMMA && text[k] != SEMICOLON {
            return Err(ParseError::IntegerParseError);
        }
        let next: usize = skip_blanks(text, k + 1);
        if next >= text.len() {
            return Err(ParseError::IntegerParseError);
        }
        proof {
            match lists_from(text@, next as int) {
                Ok(more) => {
                    assert(before + (read + more) =~= (before + read) + more);
                },
                Err(_) => {},
            }
        }
        values.append(&mut list);
        pos = next;
    }
}

fn read_group(text: &[u8], start: usize) -> (r: Result<(Vec<i32>, usize), ParseError>)
    ensures
        is_reading(r, group_at(text@, start as int)),
        r matches Ok((_, end)) ==> start < end <= text.len(),
{
    if start >= text.len() {
        return Err(ParseError::TruncatedInput);
    }
    if text[start] != OPEN_PAREN {
        return Err(ParseError::IntegerParseError);
    }
    let close: usize = match find_byte(text, start + 1, CLOSE_PAREN) {
        Some(close) => close,
        None => {
            return Err(ParseError::TruncatedInput);
        },
    };
    match read_lists(slice_subrange(text, start + 1, close)) {
        Ok(values) => Ok((values, close + 1)),
        Err(e) => Err(e),
    }
}

/// Decodes the bracketed list of integers that `text` starts with. What
/// follows its closing bracket is not read.
pub fn decode_int_list(text: &[u8]) -> (r: Result<Vec<i32>, ParseError>)
    ensures
        match r {
            Ok(values) => int_list(text@) == Ok::<Seq<i32>, ParseError>(values@),
            Err(e) => int_list(text@) == Err::<Seq<i32>, ParseError>(e),
        },
{
    match read_list(text, 0) {
        Ok((values, _)) => Ok(values),
        Err(e) => Err(e),
    }
}

/// Decodes the group of lists that `text` starts with into one run of
/// integers, list after list. What follows its closing parenthesis is not
/// read.
pub fn decode_nested_list(text: &[u8]) -> (r: Result<Vec<i32>, ParseError>)
    ensures
        match r {
            Ok(values) => nested_int_list(text@) == Ok::<Seq<i32>, ParseError>(values@),
            Err(e) => nested_int_list(text@) == Err::<Seq<i32>, ParseError>(e),
        },
{
    match read_group(text, 0) {
        Ok((values, _)) => Ok(values),
        Err(e) => Err(e),
    }
}

} // verus!
