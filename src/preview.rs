//! What the input line becomes, or shows, for a suggestion.
use vstd::prelude::*;
use crate::suggest::{rfind_ws, SuggestionType};
use crate::text::{chars_of, has_prefix, is_whitespace, is_ws, keep_ws_end, slice_copy, string_of, trim_end};

verus! {

pub open spec fn ends_with_space(s: Seq<char>) -> bool {
    s.len() > 0 && s.last() == ' '
}

/// Start of the word being typed: just after the last whitespace, or 0.
pub open spec fn last_word_start(s: Seq<char>) -> int {
    match rfind_ws(s, s.len() as int) {
        Some(w) => w + 1,
        None => 0,
    }
}

/// The part of the input kept when a flag or value replaces the word being
/// typed: up to and including the last whitespace of the trimmed input.
pub open spec fn kept_prefix(s: Seq<char>) -> Seq<char> {
    let t = trim_end(s);
    match rfind_ws(t, t.len() as int) {
        Some(w) => t.take(w + 1),
        None => seq![],
    }
}

/// The dim text shown after the input for a suggestion, if any.
pub open spec fn preview_spec(input: Seq<char>, text: Seq<char>, kind: SuggestionType) -> Option<Seq<char>> {
    match kind {
        SuggestionType::FullCommand => if has_prefix(text, input) {
            Some(text.skip(input.len() as int))
        } else if input.len() == 0 {
            Some(text)
        } else {
            None
        },
        _ => if ends_with_space(input) {
            Some(text)
        } else {
            let cur = input.skip(last_word_start(input));
            if has_prefix(text, cur) {
                Some(text.skip(cur.len() as int))
            } else {
                Some(seq![' '] + text)
            }
        },
    }
}

/// The input after accepting a suggestion.
pub open spec fn accept_spec(input: Seq<char>, text: Seq<char>, kind: SuggestionType) -> Seq<char> {
    match kind {
        SuggestionType::FullCommand => text,
        _ => if ends_with_space(input) {
            input + text
        } else {
            kept_prefix(input) + text
        },
    }
}

/// The command a suggestion leads to, as (already typed, new).
pub open spec fn full_preview_spec(input: Seq<char>, text: Seq<char>, kind: SuggestionType) -> (Seq<char>, Seq<char>) {
    match kind {
        SuggestionType::FullCommand => if has_prefix(text, input) && input.len() > 0 {
            (input, text.skip(input.len() as int))
        } else {
            (seq![], text)
        },
        _ => if ends_with_space(input) {
            (input, text)
        } else {
            (kept_prefix(input), text)
        },
    }
}

fn last_ws_end(c: &Vec<char>, n: usize) -> (r: usize)
    requires
        n <= c@.len(),
    ensures
        r == (match rfind_ws(c@, n as int) {
            Some(w) => w + 1,
            None => 0,
        }),
{
    let mut j = n;
    while j > 0 && !is_whitespace(c[j - 1])
        invariant
            j <= n <= c@.len(),
            rfind_ws(c@, j as int) == rfind_ws(c@, n as int),
        decreases j,
    {
        j -= 1;
    }
    j
}

fn kept_prefix_chars(c: &Vec<char>) -> (r: Vec<char>)
    ensures
        r@ == kept_prefix(c@),
{
    let e = keep_ws_end(c, c.len());
    proof { crate::text::lemma_keep_bounds(c@, c@.len() as int); }
    let t = slice_copy(c, 0, e);
    assert(t@ =~= trim_end(c@));
    let k = last_ws_end(&t, t.len());
    proof { lemma_rfind_bounds(t@, t@.len() as int); }
    let r = slice_copy(&t, 0, k);
    assert(r@ =~= kept_prefix(c@));
    r
}

fn starts_with_str(text: &Vec<char>, p: &[char]) -> (r: bool)
    ensures
        r == has_prefix(text@, p@),
{
    crate::text::starts_with(text, p)
}

/// The dim text shown after the input for a suggestion.
pub fn suggestion_preview(input: &str, text: &str, kind: SuggestionType) -> (r: Option<String>)
    ensures
        match r {
            Some(s) => preview_spec(input@, text@, kind) == Some(s@),
            None => preview_spec(input@, text@, kind) is None,
        },
{
    let ic = chars_of(input);
    let tc = chars_of(text);
    match kind {
        SuggestionType::FullCommand => {
            if starts_with_str(&tc, &ic) {
                let rest = slice_copy(&tc, ic.len(), tc.len());
                assert(rest@ =~= tc@.skip(ic@.len() as int));
                Some(string_of(&rest))
            } else if ic.len() == 0 {
                Some(string_of(&tc))
            } else {
                None
            }
        },
        _ => {
            if ic.len() > 0 && ic[ic.len() - 1] == ' ' {
                return Some(string_of(&tc));
            }
            let s = last_ws_end(&ic, ic.len());
            proof {
                if let Some(w) = rfind_ws(ic@, ic@.len() as int) {
                    lemma_rfind_bounds(ic@, ic@.len() as int);
                }
            }
            let cur = slice_copy(&ic, s, ic.len());
            assert(cur@ =~= ic@.skip(last_word_start(ic@)));
            if starts_with_str(&tc, &cur) {
                let rest = slice_copy(&tc, cur.len(), tc.len());
                assert(rest@ =~= tc@.skip(cur@.len() as int));
                Some(string_of(&rest))
            } else {
                let mut out = vec![' '];
                let mut i: usize = 0;
                while i < tc.len()
                    invariant
                        i <= tc@.len(),
                        out@ == seq![' '] + tc@.take(i as int),
                    decreases tc.len() - i,
                {
                    out.push(tc[i]);
                    i += 1;
                    assert(out@ =~= seq![' '] + tc@.take(i as int));
                }
                assert(tc@.take(i as int) =~= tc@);
                Some(string_of(&out))
            }
        },
    }
}

proof fn lemma_rfind_bounds(t: Seq<char>, j: int)
    requires
        0 <= j <= t.len(),
    ensures
        rfind_ws(t, j) matches Some(w) ==> 0 <= w < j,
    decreases j,
{
    if j > 0 && !is_ws(t[j - 1]) {
        lemma_rfind_bounds(t, j - 1);
    }
}

/// The input after accepting a suggestion: a whole command replaces it; a
/// flag or value replaces the word being typed, or follows a trailing space.
pub fn accepted_input(input: &str, text: &str, kind: SuggestionType) -> (r: String)
    ensures
        r@ == accept_spec(input@, text@, kind),
{
    match kind {
        SuggestionType::FullCommand => String::from_str(text),
        _ => {
            let ic = chars_of(input);
            let mut s = if ic.len() > 0 && ic[ic.len() - 1] == ' ' {
                String::from_str(input)
            } else {
                let k = kept_prefix_chars(&ic);
                string_of(&k)
            };
            s.append(text);
            s
        },
    }
}

/// The command a suggestion leads to, split into what is typed and what is new.
pub fn suggestion_full_preview(input: &str, text: &str, kind: SuggestionType) -> (r: (String, String))
    ensures
        (r.0@, r.1@) == full_preview_spec(input@, text@, kind),
{
    let ic = chars_of(input);
    let tc = chars_of(text);
    match kind {
        SuggestionType::FullCommand => {
            if starts_with_str(&tc, &ic) && ic.len() > 0 {
                let rest = slice_copy(&tc, ic.len(), tc.len());
                assert(rest@ =~= tc@.skip(ic@.len() as int));
                (String::from_str(input), string_of(&rest))
            } else {
                (String::new(), String::from_str(text))
            }
        },
        _ => {
            if ic.len() > 0 && ic[ic.len() - 1] == ' ' {
                (String::from_str(input), String::from_str(text))
            } else {
                let k = kept_prefix_chars(&ic);
                (string_of(&k), String::from_str(text))
            }
        },
    }
}

} // verus!

verus! {

/// How a word of a whole-command suggestion is shown.
#[derive(Debug, Clone, Copy, PartialEq, Eq, Structural)]
pub enum TokenKind {
    /// Already typed.
    Typed,
    /// A prefix word not typed yet.
    Subcommand,
    /// A flag or option.
    Flag,
    /// Anything else: a value or a positional word.
    Value,
}

/// Number of leading words that `a` and `b` share.
pub open spec fn common_words(a: Seq<Seq<char>>, b: Seq<Seq<char>>, i: int) -> int
    decreases a.len() - i,
{
    if 0 <= i < a.len() && i < b.len() && a[i] == b[i] {
        common_words(a, b, i + 1)
    } else {
        i
    }
}

pub open spec fn token_kind(i: int, typed: int, prefix_end: int, t: Seq<char>) -> TokenKind {
    if i < typed {
        TokenKind::Typed
    } else if i < prefix_end {
        TokenKind::Subcommand
    } else if crate::suggest::is_flag(t) && t != crate::suggest::end_of_options() {
        TokenKind::Flag
    } else {
        TokenKind::Value
    }
}

/// The words of a suggested command, each with how it is shown.
pub open spec fn classify_spec(input: Seq<char>, text: Seq<char>) -> Seq<(Seq<char>, TokenKind)> {
    let ts = crate::text::words(text);
    let typed = common_words(crate::text::words(input), ts, 0);
    let pe = crate::suggest::prefix_end(ts);
    Seq::new(ts.len(), |i: int| (ts[i], token_kind(i, typed, pe, ts[i])))
}

pub open spec fn classified_view(v: Seq<(String, TokenKind)>) -> Seq<(Seq<char>, TokenKind)> {
    v.map_values(|x: (String, TokenKind)| (x.0@, x.1))
}

/// Splits a suggested command into words and says how each is shown.
pub fn classify_tokens(input: &str, text: &str) -> (r: Vec<(String, TokenKind)>)
    ensures
        classified_view(r@) == classify_spec(input@, text@),
{
    let ic = chars_of(input);
    let tc = chars_of(text);
    let its = crate::text::split_words(&ic);
    let ts = crate::text::split_words(&tc);
    let ghost iv = crate::text::strs(its@);
    let ghost tv = crate::text::strs(ts@);
    let mut typed: usize = 0;
    while typed < its.len() && typed < ts.len() && its[typed] == ts[typed]
        invariant
            iv == crate::text::strs(its@),
            tv == crate::text::strs(ts@),
            typed <= its@.len(),
            common_words(iv, tv, typed as int) == common_words(iv, tv, 0),
        decreases its.len() - typed,
    {
        assert(iv[typed as int] == its@[typed as int]@);
        assert(tv[typed as int] == ts@[typed as int]@);
        typed += 1;
    }
    proof {
        if typed < its.len() && typed < ts.len() {
            assert(iv[typed as int] == its@[typed as int]@);
            assert(tv[typed as int] == ts@[typed as int]@);
        }
    }
    let pe = crate::suggest::find_prefix_end(&ts);
    let ghost f = |i: int| (tv[i], token_kind(i, typed as int, pe as int, tv[i]));
    let mut out: Vec<(String, TokenKind)> = Vec::new();
    let mut i: usize = 0;
    while i < ts.len()
        invariant
            tv == crate::text::strs(ts@),
            i <= ts@.len(),
            f == (|i: int| (tv[i], token_kind(i, typed as int, pe as int, tv[i]))),
            classified_view(out@) == Seq::new(i as nat, f),
        decreases ts.len() - i,
    {
        let t = &ts[i];
        assert(tv[i as int] == t@);
        let kind = if i < typed {
            TokenKind::Typed
        } else if i < pe {
            TokenKind::Subcommand
        } else {
            let c = chars_of(t.as_str());
            let flag = c.len() > 0 && c[0] == '-';
            let dd = c.len() == 2 && c[0] == '-' && c[1] == '-';
            assert(dd == (c@ == crate::suggest::end_of_options())) by {
                if c@ == crate::suggest::end_of_options() {
                    assert(c@[1] == '-');
                }
                if dd {
                    assert(c@ =~= crate::suggest::end_of_options());
                }
            }
            if flag && !dd { TokenKind::Flag } else { TokenKind::Value }
        };
        let ghost before = classified_view(out@);
        out.push((t.clone(), kind));
        assert(classified_view(out@) =~= before.push((t@, kind)));
        i += 1;
        assert(classified_view(out@) =~= Seq::new(i as nat, f));
    }
    out
}

} // verus!
