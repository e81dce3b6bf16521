//! Cursor movement in the input line. Positions count characters.
use vstd::prelude::*;
use crate::suggest::rfind_ws;
use crate::text::{chars_of, is_whitespace, is_ws, keep_before_ws, keep_ws_end, skip_ws, skip_ws_from, slice_copy, string_of};

verus! {

/// Index of the first whitespace character at or after `i`.
pub open spec fn word_end_from(s: Seq<char>, i: int) -> int
    decreases s.len() - i,
{
    if 0 <= i < s.len() && !is_ws(s[i]) {
        word_end_from(s, i + 1)
    } else {
        i
    }
}

pub open spec fn clamp(pos: int, len: int) -> int {
    if pos > len {
        len
    } else {
        pos
    }
}

/// The position one character to the left; 0 stays 0.
pub fn prev_char_pos(s: &str, pos: usize) -> (r: usize)
    ensures
        r == (if clamp(pos as int, s@.len() as int) == 0 { 0 } else { clamp(pos as int, s@.len() as int) - 1 }),
{
    let n = s.unicode_len();
    let p = if pos > n { n } else { pos };
    if p == 0 { 0 } else { p - 1 }
}

/// The position one character to the right, at most the end.
pub fn next_char_pos(s: &str, pos: usize) -> (r: usize)
    ensures
        r == (if pos + 1 < s@.len() { pos + 1 } else { s@.len() as int }),
{
    let n = s.unicode_len();
    if pos < n && pos + 1 < n { pos + 1 } else { n }
}

/// Start of the word before `pos`, trailing whitespace skipped: just after
/// the last whitespace before it, or 0.
pub open spec fn prev_word_boundary(s: Seq<char>, pos: int) -> int {
    let t = keep_before_ws(s, clamp(pos, s.len() as int));
    if t == 0 {
        0
    } else {
        match rfind_ws(s, t) {
            Some(w) => w + 1,
            None => 0,
        }
    }
}

pub fn find_prev_word_boundary(s: &str, pos: usize) -> (r: usize)
    ensures
        r == prev_word_boundary(s@, pos as int),
{
    let c = chars_of(s);
    let p = if pos > c.len() { c.len() } else { pos };
    let t = keep_ws_end(&c, p);
    if t == 0 {
        return 0;
    }
    proof { crate::text::lemma_keep_bounds(c@, p as int); }
    let mut j = t;
    while j > 0 && !is_whitespace(c[j - 1])
        invariant
            j <= t <= c@.len(),
            rfind_ws(c@, j as int) == rfind_ws(c@, t as int),
        decreases j,
    {
        j -= 1;
    }
    j
}

/// End of the word at `pos` and of the whitespace after it.
pub open spec fn next_word_boundary(s: Seq<char>, pos: int) -> int {
    if pos > s.len() {
        pos
    } else {
        skip_ws_from(s, word_end_from(s, pos))
    }
}

pub fn find_next_word_boundary(s: &str, pos: usize) -> (r: usize)
    ensures
        r == next_word_boundary(s@, pos as int),
{
    let c = chars_of(s);
    if pos > c.len() {
        return pos;
    }
    let mut i = pos;
    while i < c.len() && !is_whitespace(c[i])
        invariant
            pos <= i <= c@.len(),
            word_end_from(c@, i as int) == word_end_from(c@, pos as int),
        decreases c.len() - i,
    {
        i += 1;
    }
    skip_ws(&c, i)
}

/// Leading whitespace and the first word of `text`.
pub open spec fn first_word(text: Seq<char>) -> Seq<char> {
    text.take(word_end_from(text, skip_ws_from(text, 0)))
}

pub fn extract_first_word(text: &str) -> (r: String)
    ensures
        r@ == first_word(text@),
{
    let c = chars_of(text);
    let a = skip_ws(&c, 0);
    proof { crate::text::lemma_skip_ws_bounds(c@, 0); }
    let mut i = a;
    while i < c.len() && !is_whitespace(c[i])
        invariant
            a <= i <= c@.len(),
            word_end_from(c@, i as int) == word_end_from(c@, a as int),
        decreases c.len() - i,
    {
        i += 1;
    }
    let w = slice_copy(&c, 0, i);
    assert(w@ =~= c@.take(i as int));
    string_of(&w)
}

} // verus!
