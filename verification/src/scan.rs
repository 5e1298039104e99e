//! Looking for a character, or for a given run of characters, in a text.

use vstd::prelude::*;

verus! {

/// Whether `pattern` stands in `s` at position `i`.
pub open spec fn occurs_at(s: Seq<u8>, pattern: Seq<u8>, i: int) -> bool {
    &&& 0 <= i
    &&& i + pattern.len() <= s.len()
    &&& s.subrange(i, i + pattern.len()) == pattern
}

/// The first position at or after `from` at which `pattern` stands in `s`.
pub open spec fn first_occurrence(s: Seq<u8>, pattern: Seq<u8>, from: int) -> Option<int>
    decreases s.len() - from,
{
    if from < 0 || from + pattern.len() > s.len() {
        None
    } else if occurs_at(s, pattern, from) {
        Some(from)
    } else if from >= s.len() {
        None
    } else {
        first_occurrence(s, pattern, from + 1)
    }
}

/// `first_occurrence` gives a position where the pattern stands and before
/// which, from `from` on, it does not; it gives none only if the pattern
/// stands nowhere from `from` on.
pub proof fn lemma_first_occurrence(s: Seq<u8>, pattern: Seq<u8>, from: int)
    requires
        0 <= from,
    ensures
        match first_occurrence(s, pattern, from) {
            Some(at) => {
                &&& from <= at
                &&& occurs_at(s, pattern, at)
                &&& forall|k: int| from <= k < at ==> !occurs_at(s, pattern, k)
            },
            None => forall|k: int| from <= k ==> !occurs_at(s, pattern, k),
        },
    decreases s.len() - from,
{
    if from + pattern.len() <= s.len() && !occurs_at(s, pattern, from) {
        if from >= s.len() {
            assert(s.subrange(from, from + pattern.len()) =~= pattern);
        } else {
            lemma_first_occurrence(s, pattern, from + 1);
        }
    }
}

/// Tells whether `pattern` stands in `text` at position `pos`.
pub fn starts_with_at(text: &[u8], pos: usize, pattern: &[u8]) -> (r: bool)
    ensures
        r == occurs_at(text@, pattern@, pos as int),
{
    let n: usize = pattern.len();
    if pos > text.len() || n > text.len() - pos {
        return false;
    }
    let mut j: usize = 0;
    while j < n
        invariant
            n == pattern.len(),
            pos + n <= text.len(),
            j <= n,
            forall|t: int| 0 <= t < j ==> text@[pos + t] == #[trigger] pattern@[t],
        decreases n - j,
    {
        if text[pos + j] != pattern[j] {
            proof {
                let part = text@.subrange(pos as int, pos + n);
                assert(part[j as int] == text@[pos + j]);
            }
            return false;
        }
        j = j + 1;
    }
    assert(text@.subrange(pos as int, pos + n) =~= pattern@);
    true
}

/// Finds the first position at or after `from` at which `pattern` stands in
/// `text`.
pub fn find(text: &[u8], from: usize, pattern: &[u8]) -> (r: Option<usize>)
    ensures
        match r {
            Some(at) => first_occurrence(text@, pattern@, from as int) == Some(at as int) && from
                <= at && at + pattern@.len() <= text@.len(),
            None => first_occurrence(text@, pattern@, from as int) is None,
        },
{
    let n: usize = pattern.len();
    if from > text.len() {
        return None;
    }
    let mut i: usize = from;
    while n <= text.len() - i
        invariant
            n == pattern.len(),
            from <= i <= text.len(),
            first_occurrence(text@, pattern@, from as int) == first_occurrence(
                text@,
                pattern@,
                i as int,
            ),
        decreases text.len() - i,
    {
        if starts_with_at(text, i, pattern) {
            return Some(i);
        }
        proof {
            if i >= text.len() {
                assert(text@.subrange(i as int, i + n) =~= pattern@);
            }
        }
        i = i + 1;
    }
    None
}

/// The first position at or after `from` that holds the character `c`.
pub open spec fn first_byte(s: Seq<u8>, c: u8, from: int) -> Option<int>
    decreases s.len() - from,
{
    if from < 0 || from >= s.len() {
        None
    } else if s[from] == c {
        Some(from)
    } else {
        first_byte(s, c, from + 1)
    }
}

/// `first_byte` gives a position that holds the character and before which,
/// from `from` on, none does; it gives none only if no position from `from`
/// on holds it.
pub proof fn lemma_first_byte(s: Seq<u8>, c: u8, from: int)
    requires
        0 <= from,
    ensures
        match first_byte(s, c, from) {
            Some(at) => {
                &&& from <= at < s.len()
                &&& s[at] == c
                &&& forall|k: int| from <= k < at ==> s[k] != c
            },
            None => forall|k: int| from <= k < s.len() ==> s[k] != c,
        },
    decreases s.len() - from,
{
    if from < s.len() && s[from] != c {
        lemma_first_byte(s, c, from + 1);
    }
}

/// Finds the first position at or after `from` that holds the character `c`.
pub fn find_byte(text: &[u8], from: usize, c: u8) -> (r: Option<usize>)
    ensures
        match r {
            Some(at) => first_byte(text@, c, from as int) == Some(at as int) && from <= at
                < text@.len(),
            None => first_byte(text@, c, from as int) is None,
        },
{
    let mut i: usize = from;
    while i < text.len()
        invariant
            from <= i,
            first_byte(text@, c, from as int) == first_byte(text@, c, i as int),
        decreases text.len() - i,
    {
        if text[i] == c {
            return Some(i);
        }
        i = i + 1;
    }
    None
}

} // verus!
