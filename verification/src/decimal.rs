//! Runs of decimal digits and the numbers they write.

use vstd::prelude::*;

use crate::ascii::{DIGIT_0, DIGIT_9};

verus! {

/// Whether `c` is one of the characters `0` to `9`.
pub open spec fn is_digit(c: u8) -> bool {
    DIGIT_0 <= c <= DIGIT_9
}

/// The number written by a run of decimal digits, the most significant first.
/// The empty run writes zero.
pub open spec fn decimal_value(digits: Seq<u8>) -> nat
    decreases digits.len(),
{
    if digits.len() == 0 {
        0
    } else {
        (decimal_value(digits.drop_last()) * 10 + (digits.last() - DIGIT_0)) as nat
    }
}

/// Where the run of digits that starts at `i` ends: the first position at or
/// after `i` that holds no digit, or the end of the text.
pub open spec fn digits_end(s: Seq<u8>, i: int) -> int
    decreases s.len() - i,
{
    if 0 <= i < s.len() && is_digit(s[i]) {
        digits_end(s, i + 1)
    } else {
        i
    }
}

/// Reads the run of digits that starts at `start`. Returns where it ends and,
/// if the number it writes is at most `limit`, that number.
pub fn read_digits(text: &[u8], start: usize, limit: u64) -> (r: (usize, Option<u64>))
    requires
        start <= text.len(),
        limit <= 0x0fff_ffff_ffff_ffff,
    ensures
        r.0 == digits_end(text@, start as int),
        r.1 == (if decimal_value(text@.subrange(start as int, r.0 as int)) <= limit {
            Some(decimal_value(text@.subrange(start as int, r.0 as int)) as u64)
        } else {
            None
        }),
{
    let mut i: usize = start;
    let mut value: u64 = 0;
    let mut fits: bool = true;
    proof {
        assert(text@.subrange(start as int, start as int) =~= Seq::<u8>::empty());
    }
    while i < text.len() && DIGIT_0 <= text[i] && text[i] <= DIGIT_9
        invariant
            start <= i <= text.len(),
            limit <= 0x0fff_ffff_ffff_ffff,
            digits_end(text@, start as int) == digits_end(text@, i as int),
            fits ==> value == decimal_value(text@.subrange(start as int, i as int)),
            fits ==> value <= limit,
            !fits ==> decimal_value(text@.subrange(start as int, i as int)) > limit,
        decreases text.len() - i,
    {
        proof {
            let longer = text@.subrange(start as int, i + 1);
            assert(longer.drop_last() =~= text@.subrange(start as int, i as int));
            assert(longer.last() == text@[i as int]);
        }
        if fits {
            let next: u64 = value * 10 + (text[i] - DIGIT_0) as u64;
            if next <= limit {
                value = next;
            } else {
                fits = false;
            }
        }
        i = i + 1;
    }
    if fits {
        (i, Some(value))
    } else {
        (i, None)
    }
}

} // verus!
