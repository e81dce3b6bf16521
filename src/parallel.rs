//! Parallel expansion of a command template.
//!
//! `[name=range] ... template` runs the template once per assignment:
//! separate `[...]` blocks combine as a cross product, names inside one block
//! are zipped. A range is `a,b,c` (a list), `M-N` (the integers from `M` to
//! `N`, zero-padded when `M` is written with a leading zero) or one value.
use vstd::prelude::*;
use crate::text::{
    chars_of, decimal, decimal_chars, find, find_char, lemma_digits_nonneg, lemma_find_from,
    lemma_skip_ws_bounds, pad_zero, pad_zero_chars, parse_i64, parse_i64_spec, push_char,
    replace_all, replace_chars, skip_ws, skip_ws_from, slice_copy, split_on, split_on_char,
    split_words, string_of, strs, trim, trim_chars, trim_start, vecs, words,
};

verus! {

/// A single named parameter with its values.
#[derive(Debug, Clone)]
pub struct ParamDef {
    pub name: String,
    pub values: Vec<String>,
}

/// Parameters of one `[...]` block; they are zipped.
#[derive(Debug, Clone)]
pub struct ParamGroup {
    pub params: Vec<ParamDef>,
}

/// The groups of a parallel command and its template.
#[derive(Debug)]
pub struct ParsedParallel {
    pub groups: Vec<ParamGroup>,
    pub template: String,
}

/// One command of an expansion, with its label (`[n=1][region=a]`).
#[derive(Debug)]
pub struct ExpandedCommand {
    pub command: String,
    pub label: String,
}

pub type ParamV = (Seq<char>, Seq<Seq<char>>);

pub type GroupV = Seq<ParamV>;

impl View for ParamDef {
    type V = ParamV;

    open spec fn view(&self) -> ParamV {
        (self.name@, strs(self.values@))
    }
}

pub open spec fn params_view(v: Seq<ParamDef>) -> GroupV {
    v.map_values(|p: ParamDef| p@)
}

impl View for ParamGroup {
    type V = GroupV;

    open spec fn view(&self) -> GroupV {
        params_view(self.params@)
    }
}

pub open spec fn groups_view(v: Seq<ParamGroup>) -> Seq<GroupV> {
    v.map_values(|g: ParamGroup| g@)
}

impl View for ParsedParallel {
    type V = (Seq<GroupV>, Seq<char>);

    open spec fn view(&self) -> (Seq<GroupV>, Seq<char>) {
        (groups_view(self.groups@), self.template@)
    }
}

impl View for ExpandedCommand {
    type V = (Seq<char>, Seq<char>);

    open spec fn view(&self) -> (Seq<char>, Seq<char>) {
        (self.command@, self.label@)
    }
}

pub open spec fn expanded_view(v: Seq<ExpandedCommand>) -> Seq<(Seq<char>, Seq<char>)> {
    v.map_values(|e: ExpandedCommand| e@)
}

// ---------------------------------------------------------------- ranges

/// Width of the zero padding of `M-N`: none unless `M` has a leading zero.
pub open spec fn pad_width(start: Seq<char>, end: Seq<char>) -> nat {
    if start.len() > 1 && start[0] == '0' {
        if start.len() >= end.len() {
            start.len()
        } else {
            end.len()
        }
    } else {
        0
    }
}

/// The values a range stands for; `None` if it is malformed.
pub open spec fn range_values(r: Seq<char>) -> Option<Seq<Seq<char>>> {
    if find(r, ',') is Some {
        Some(split_on(r, ',').map_values(|v: Seq<char>| trim(v)))
    } else {
        match find(r, '-') {
            Some(p) => {
                let a = r.take(p);
                let b = r.skip(p + 1);
                match (parse_i64_spec(a), parse_i64_spec(b)) {
                    (Some(m), Some(n)) => if m > n {
                        None
                    } else {
                        Some(
                            Seq::new(
                                (n - m + 1) as nat,
                                |k: int| pad_zero(decimal((m + k) as nat), pad_width(a, b)),
                            ),
                        )
                    },
                    _ => None,
                }
            },
            None => Some(seq![r]),
        }
    }
}

proof fn lemma_parse_no_minus_nonneg(a: Seq<char>)
    requires
        parse_i64_spec(a) is Some,
        a.len() > 0 ==> a[0] != '-',
    ensures
        parse_i64_spec(a)->0 >= 0,
{
    let signed = a.len() > 0 && (a[0] == '-' || a[0] == '+');
    let d = if signed { a.drop_first() } else { a };
    lemma_digits_nonneg(d);
}

/// Parses a range: `"1-3"` gives `["1", "2", "3"]`, `"01-03"` gives
/// `["01", "02", "03"]`, `"a,b"` gives `["a", "b"]`, `"x"` gives `["x"]`.
pub fn parse_range(range: &str) -> (r: Option<Vec<String>>)
    ensures
        r matches Some(v) ==> range_values(range@) == Some(strs(v@)),
        r is None ==> range_values(range@) is None,
{
    let c = chars_of(range);
    range_values_chars(&c)
}

fn range_values_chars(r: &[char]) -> (res: Option<Vec<String>>)
    ensures
        res matches Some(v) ==> range_values(r@) == Some(strs(v@)),
        res is None ==> range_values(r@) is None,
{
    if find_char(r, ',').is_some() {
        let pieces = split_on_char(r, ',');
        let ghost pv = vecs(pieces@);
        let mut out: Vec<String> = Vec::new();
        let mut i: usize = 0;
        while i < pieces.len()
            invariant
                i <= pieces@.len(),
                pv == vecs(pieces@),
                pv == split_on(r@, ','),
                strs(out@) == pv.take(i as int).map_values(|v: Seq<char>| trim(v)),
            decreases pieces.len() - i,
        {
            assert(pv[i as int] == pieces@[i as int]@);
            let t = trim_chars(&pieces[i]);
            let s = string_of(&t);
            let ghost before = strs(out@);
            out.push(s);
            assert(strs(out@) =~= before.push(s@));
            i += 1;
            assert(strs(out@) =~= pv.take(i as int).map_values(|v: Seq<char>| trim(v)));
        }
        assert(pv.take(i as int) =~= pv);
        return Some(out);
    }
    match find_char(r, '-') {
        Some(p) => {
            proof { lemma_find_from(r@, '-', 0); }
            assert(p < r.len());
            let a = slice_copy(r, 0, p);
            let b = slice_copy(r, p + 1, r.len());
            assert(a@ =~= r@.take(p as int));
            assert(b@ =~= r@.skip(p + 1));
            let m = match parse_i64(&a) {
                Some(m) => m,
                None => return None,
            };
            let n = match parse_i64(&b) {
                Some(n) => n,
                None => return None,
            };
            if m > n {
                return None;
            }
            proof {
                assert(a@.len() > 0 ==> a@[0] == r@[0]);
                lemma_parse_no_minus_nonneg(a@);
            }
            let width: usize = if a.len() > 1 && a[0] == '0' {
                if a.len() >= b.len() { a.len() } else { b.len() }
            } else {
                0
            };
            let ghost f = |k: int| pad_zero(decimal((m + k) as nat), pad_width(a@, b@));
            let mut out: Vec<String> = Vec::new();
            let mut x: i64 = m;
            loop
                invariant_except_break
                    strs(out@) == Seq::new((x - m) as nat, f),
                invariant
                    0 <= m <= x <= n,
                    width == pad_width(a@, b@),
                    f == (|k: int| pad_zero(decimal((m + k) as nat), pad_width(a@, b@))),
                ensures
                    strs(out@) == Seq::new((n - m + 1) as nat, f),
                decreases n - x,
            {
                let d = decimal_chars(x as u64);
                let t = pad_zero_chars(&d, width);
                let ghost before = strs(out@);
                let st = string_of(&t);
                out.push(st);
                assert(strs(out@) =~= before.push(st@));
                assert(st@ == f((x - m) as int));
                assert(strs(out@) =~= Seq::new((x - m + 1) as nat, f));
                if x == n {
                    break;
                }
                x += 1;
            }
            Some(out)
        },
        None => {
            let one = string_of(r);
            let out = vec![one];
            assert(strs(out@) =~= seq![r@]);
            Some(out)
        },
    }
}

} // verus!

verus! {

// ---------------------------------------------------------------- blocks

/// `name=range`: the name before the first `=`, the values of what follows.
pub open spec fn param_of(part: Seq<char>) -> Option<ParamV> {
    match find(part, '=') {
        Some(p) => match range_values(part.skip(p + 1)) {
            Some(v) => Some((part.take(p), v)),
            None => None,
        },
        None => None,
    }
}

pub open spec fn params_of(parts: Seq<Seq<char>>) -> Option<GroupV>
    decreases parts.len(),
{
    if parts.len() == 0 {
        Some(seq![])
    } else {
        match (params_of(parts.drop_last()), param_of(parts.last())) {
            (Some(g), Some(p)) => Some(g.push(p)),
            _ => None,
        }
    }
}

/// Every parameter of the group has as many values as the first.
pub open spec fn zip_ok(g: GroupV) -> bool {
    forall|i: int| 0 <= i < g.len() ==> (#[trigger] g[i]).1.len() == g[0].1.len()
}

/// The group that a `[...]` block holds: one or more whitespace-separated
/// `name=range` pairs of equal lengths.
pub open spec fn bracket_group(b: Seq<char>) -> Option<GroupV> {
    if b.len() >= 2 && b[0] == '[' && b.last() == ']' {
        match params_of(words(b.subrange(1, b.len() - 1))) {
            Some(g) => if g.len() > 0 && zip_ok(g) {
                Some(g)
            } else {
                None
            },
            None => None,
        }
    } else {
        None
    }
}

fn param_of_chars(part: &[char]) -> (r: Option<ParamDef>)
    ensures
        r matches Some(p) ==> param_of(part@) == Some(p@),
        r is None ==> param_of(part@) is None,
{
    match find_char(part, '=') {
        Some(p) => {
            proof { lemma_find_from(part@, '=', 0); }
            assert(p < part.len());
            let range = slice_copy(part, p + 1, part.len());
            assert(range@ =~= part@.skip(p + 1));
            match range_values_chars(&range) {
                Some(values) => {
                    let name = slice_copy(part, 0, p);
                    assert(name@ =~= part@.take(p as int));
                    Some(ParamDef { name: string_of(&name), values })
                },
                None => None,
            }
        },
        None => None,
    }
}

/// Parses one `[...]` block into its group.
pub fn parse_bracket_block(block: &str) -> (r: Option<ParamGroup>)
    ensures
        r matches Some(g) ==> bracket_group(block@) == Some(g@),
        r is None ==> bracket_group(block@) is None,
{
    let b = chars_of(block);
    bracket_group_chars(&b)
}

fn bracket_group_chars(b: &[char]) -> (r: Option<ParamGroup>)
    ensures
        r matches Some(g) ==> bracket_group(b@) == Some(g@),
        r is None ==> bracket_group(b@) is None,
{
    let n = b.len();
    if !(n >= 2 && b[0] == '[' && b[n - 1] == ']') {
        return None;
    }
    let inner = slice_copy(b, 1, n - 1);
    let parts = split_words(&inner);
    let ghost pv = strs(parts@);
    let mut params: Vec<ParamDef> = Vec::new();
    let mut i: usize = 0;
    while i < parts.len()
        invariant
            n == b@.len() >= 2 && b@[0] == '[' && b@[n - 1] == ']',
            inner@ == b@.subrange(1, n - 1),
            i <= parts@.len(),
            pv == strs(parts@),
            pv == words(inner@),
            params_of(pv.take(i as int)) == Some(params_view(params@)),
        decreases parts.len() - i,
    {
        let ghost t = pv.take(i as int + 1);
        assert(t.drop_last() =~= pv.take(i as int));
        assert(t.last() == parts@[i as int]@);
        let pc = chars_of(parts[i].as_str());
        match param_of_chars(&pc) {
            Some(p) => {
                let ghost before = params_view(params@);
                params.push(p);
                assert(params_view(params@) =~= before.push(p@));
            },
            None => {
                proof {
                    let mut k = i as int + 1;
                    assert(params_of(pv.take(k)) is None);
                    lemma_params_of_none_extends(pv, k);
                    assert(pv.take(pv.len() as int) =~= pv);
                }
                return None;
            },
        }
        i += 1;
    }
    assert(pv.take(i as int) =~= pv);
    assert(params_of(words(b@.subrange(1, n - 1))) == Some(params_view(params@)));
    if params.len() == 0 {
        return None;
    }
    let len0 = params[0].values.len();
    let mut j: usize = 0;
    while j < params.len()
        invariant
            n == b@.len() >= 2 && b@[0] == '[' && b@[n - 1] == ']',
            params_of(words(b@.subrange(1, n - 1))) == Some(params_view(params@)),
            j <= params@.len(),
            params@.len() > 0,
            len0 == params@[0].values@.len(),
            forall|q: int| 0 <= q < j ==> (#[trigger] params@[q]).values@.len() == len0,
        decreases params.len() - j,
    {
        if params[j].values.len() != len0 {
            proof {
                let g = params_view(params@);
                assert(g[j as int].1.len() != g[0].1.len());
            }
            return None;
        }
        j += 1;
    }
    let g = ParamGroup { params };
    proof {
        let gv = params_view(g.params@);
        assert forall|q: int| 0 <= q < gv.len() implies (#[trigger] gv[q]).1.len() == gv[0].1.len() by {
            assert(g.params@[q].values@.len() == len0);
        }
    }
    Some(g)
}

proof fn lemma_params_of_none_extends(pv: Seq<Seq<char>>, k: int)
    requires
        0 < k <= pv.len(),
        params_of(pv.take(k)) is None,
    ensures
        params_of(pv.take(pv.len() as int)) is None,
    decreases pv.len() - k,
{
    if k < pv.len() {
        let t = pv.take(k + 1);
        assert(t.drop_last() =~= pv.take(k));
        lemma_params_of_none_extends(pv, k + 1);
    }
}

/// Consecutive `[...]` blocks at the start of `rem`, and what follows them.
pub open spec fn parse_blocks(rem: Seq<char>) -> Option<(Seq<GroupV>, Seq<char>)>
    decreases rem.len(),
    via parse_blocks_decreases
{
    if rem.len() > 0 && rem[0] == '[' {
        match find(rem, ']') {
            Some(c) => match bracket_group(rem.take(c + 1)) {
                Some(g) => match parse_blocks(trim_start(rem.skip(c + 1))) {
                    Some(r) => Some((seq![g] + r.0, r.1)),
                    None => None,
                },
                None => None,
            },
            None => None,
        }
    } else {
        Some((seq![], rem))
    }
}

#[via_fn]
proof fn parse_blocks_decreases(rem: Seq<char>) {
    if rem.len() > 0 && rem[0] == '[' {
        lemma_find_from(rem, ']', 0);
        if let Some(c) = find(rem, ']') {
            let x = rem.skip(c + 1);
            lemma_skip_ws_bounds(x, 0);
            assert(trim_start(x).len() < rem.len());
        }
    }
}

/// The groups and template of a parallel command; `None` for an input that
/// does not start with a well-formed block or has no template after them.
pub open spec fn parallel_spec(input: Seq<char>) -> Option<(Seq<GroupV>, Seq<char>)> {
    let t = trim(input);
    if t.len() > 0 && t[0] == '[' {
        match parse_blocks(t) {
            Some(r) => if r.0.len() > 0 && r.1.len() > 0 {
                Some(r)
            } else {
                None
            },
            None => None,
        }
    } else {
        None
    }
}

proof fn lemma_blocks_ok(rem: Seq<char>)
    ensures
        parse_blocks(rem) matches Some(r) ==> groups_ok(r.0),
    decreases rem.len(),
{
    if rem.len() > 0 && rem[0] == '[' {
        if let Some(c) = find(rem, ']') {
            let next = trim_start(rem.skip(c + 1));
            lemma_find_from(rem, ']', 0);
            lemma_skip_ws_bounds(rem.skip(c + 1), 0);
            assert(next.len() < rem.len());
            lemma_blocks_ok(next);
            if let Some(r) = parse_blocks(rem) {
                let g = bracket_group(rem.take(c + 1))->0;
                let rest = parse_blocks(next)->0;
                assert(r.0 == seq![g] + rest.0);
                assert forall|k: int| 0 <= k < r.0.len() implies (#[trigger] r.0[k]).len() > 0 && zip_ok(r.0[k]) by {
                    if k > 0 {
                        assert(r.0[k] == rest.0[k - 1]);
                    }
                }
            }
        }
    }
}

/// Parses `[name=range] ... template`; `None` if the input is not of that form.
pub fn parse_parallel(input: &str) -> (r: Option<ParsedParallel>)
    ensures
        r matches Some(p) ==> parallel_spec(input@) == Some(p@) && groups_ok(p@.0),
        r is None ==> parallel_spec(input@) is None,
{
    let ic = chars_of(input);
    let t = trim_chars(&ic);
    if !(t.len() > 0 && t[0] == '[') {
        return None;
    }
    let mut rem = t.clone();
    let mut groups: Vec<ParamGroup> = Vec::new();
    while rem.len() > 0 && rem[0] == '['
        invariant
            t@ == trim(input@),
            t@.len() > 0 && t@[0] == '[',
            parse_blocks(t@) == match parse_blocks(rem@) {
                Some(r) => Some((groups_view(groups@) + r.0, r.1)),
                None => None,
            },
        decreases rem@.len(),
    {
        let close = match find_char(&rem, ']') {
            Some(c) => c,
            None => return None,
        };
        proof { lemma_find_from(rem@, ']', 0); }
        assert(close < rem.len());
        let block = slice_copy(&rem, 0, close + 1);
        assert(block@ =~= rem@.take(close + 1));
        let g = match bracket_group_chars(&block) {
            Some(g) => g,
            None => return None,
        };
        let after = slice_copy(&rem, close + 1, rem.len());
        assert(after@ =~= rem@.skip(close + 1));
        let start = skip_ws(&after, 0);
        proof { lemma_skip_ws_bounds(after@, 0); }
        let next = slice_copy(&after, start, after.len());
        assert(next@ =~= trim_start(after@));
        assert(next@.len() < rem@.len());
        let ghost before = groups_view(groups@);
        groups.push(g);
        assert(groups_view(groups@) =~= before.push(g@));
        proof {
            match parse_blocks(next@) {
                Some(r) => {
                    assert(before + (seq![g@] + r.0) =~= groups_view(groups@) + r.0);
                },
                None => {},
            }
        }
        rem = next;
    }
    assert(groups_view(groups@) + seq![] =~= groups_view(groups@));
    if groups.len() == 0 || rem.len() == 0 {
        return None;
    }
    proof { lemma_blocks_ok(t@); }
    Some(ParsedParallel { groups, template: string_of(&rem) })
}

} // verus!

verus! {

// ---------------------------------------------------------------- expansion

/// An assignment: `(name, value)` pairs in parameter order.
pub type Assign = Seq<(Seq<char>, Seq<char>)>;

/// Every group has a parameter, and its parameters have equal lengths.
pub open spec fn groups_ok(gs: Seq<GroupV>) -> bool {
    forall|k: int| 0 <= k < gs.len() ==> (#[trigger] gs[k]).len() > 0 && zip_ok(gs[k])
}

/// Number of zipped rows of a group.
pub open spec fn group_len(g: GroupV) -> nat {
    g[0].1.len()
}

pub open spec fn group_row(g: GroupV, i: int) -> Assign {
    g.map_values(|p: ParamV| (p.0, p.1[i]))
}

pub open spec fn group_rows(g: GroupV) -> Seq<Assign> {
    Seq::new(group_len(g), |i: int| group_row(g, i))
}

/// Every assignment of `cs` extended by every row, the rows varying fastest.
pub open spec fn cross(cs: Seq<Assign>, rows: Seq<Assign>) -> Seq<Assign>
    decreases cs.len(),
{
    if cs.len() == 0 {
        seq![]
    } else {
        cross(cs.drop_last(), rows) + rows.map_values(|r: Assign| cs.last() + r)
    }
}

/// The assignments of a parallel command: the cross product of its groups.
pub open spec fn combos(gs: Seq<GroupV>) -> Seq<Assign>
    decreases gs.len(),
{
    if gs.len() == 0 {
        seq![seq![]]
    } else {
        cross(combos(gs.drop_last()), group_rows(gs.last()))
    }
}

pub open spec fn brace(name: Seq<char>) -> Seq<char> {
    seq!['{'] + name + seq!['}']
}

/// The template with `{name}` replaced by its value for each pair in turn,
/// and `{}` too when the command has a single parameter.
pub open spec fn subst(t: Seq<char>, a: Assign, single: bool) -> Seq<char>
    decreases a.len(),
{
    if a.len() == 0 {
        t
    } else {
        let c = replace_all(subst(t, a.drop_last(), single), brace(a.last().0), a.last().1);
        if single {
            replace_all(c, seq!['{', '}'], a.last().1)
        } else {
            c
        }
    }
}

/// `[name=value]` for each pair, in order.
pub open spec fn label(a: Assign) -> Seq<char>
    decreases a.len(),
{
    if a.len() == 0 {
        seq![]
    } else {
        label(a.drop_last()) + seq!['['] + a.last().0 + seq!['='] + a.last().1 + seq![']']
    }
}

pub open spec fn single_param(gs: Seq<GroupV>) -> bool {
    gs.len() == 1 && gs[0].len() == 1
}

/// The commands and labels that a parsed parallel command expands to.
pub open spec fn expansion(p: (Seq<GroupV>, Seq<char>)) -> Seq<(Seq<char>, Seq<char>)> {
    combos(p.0).map_values(|a: Assign| (subst(p.1, a, single_param(p.0)), label(a)))
}

pub open spec fn assign_view(v: Seq<(String, String)>) -> Assign {
    v.map_values(|p: (String, String)| (p.0@, p.1@))
}

pub open spec fn assigns_view(v: Seq<Vec<(String, String)>>) -> Seq<Assign> {
    v.map_values(|r: Vec<(String, String)>| assign_view(r@))
}

fn concat_assign(a: &Vec<(String, String)>, b: &Vec<(String, String)>) -> (r: Vec<
    (String, String),
>)
    ensures
        assign_view(r@) == assign_view(a@) + assign_view(b@),
{
    let mut r: Vec<(String, String)> = Vec::new();
    let mut i: usize = 0;
    while i < a.len()
        invariant
            i <= a@.len(),
            assign_view(r@) == assign_view(a@).take(i as int),
        decreases a.len() - i,
    {
        let ghost before = assign_view(r@);
        r.push((a[i].0.clone(), a[i].1.clone()));
        assert(assign_view(r@) =~= before.push(assign_view(a@)[i as int]));
        i += 1;
        assert(assign_view(r@) =~= assign_view(a@).take(i as int));
    }
    let mut j: usize = 0;
    while j < b.len()
        invariant
            j <= b@.len(),
            assign_view(r@) == assign_view(a@) + assign_view(b@).take(j as int),
        decreases b.len() - j,
    {
        let ghost before = assign_view(r@);
        r.push((b[j].0.clone(), b[j].1.clone()));
        assert(assign_view(r@) =~= before.push(assign_view(b@)[j as int]));
        j += 1;
        assert(assign_view(r@) =~= assign_view(a@) + assign_view(b@).take(j as int));
    }
    assert(assign_view(a@).take(a@.len() as int) =~= assign_view(a@));
    assert(assign_view(b@).take(b@.len() as int) =~= assign_view(b@));
    r
}

fn rows_of(g: &ParamGroup) -> (r: Vec<Vec<(String, String)>>)
    requires
        g@.len() > 0,
        zip_ok(g@),
    ensures
        assigns_view(r@) == group_rows(g@),
{
    let ghost gv = g@;
    let len = g.params[0].values.len();
    assert(gv[0].1.len() == len);
    let mut rows: Vec<Vec<(String, String)>> = Vec::new();
    let mut i: usize = 0;
    while i < len
        invariant
            gv == g@,
            gv.len() > 0,
            zip_ok(gv),
            len == group_len(gv),
            i <= len,
            assigns_view(rows@) == group_rows(gv).take(i as int),
        decreases len - i,
    {
        let mut row: Vec<(String, String)> = Vec::new();
        let mut q: usize = 0;
        while q < g.params.len()
            invariant
                gv == g@,
                zip_ok(gv),
                len == group_len(gv),
                i < len,
                q <= gv.len(),
                assign_view(row@) == group_row(gv, i as int).take(q as int),
            decreases g.params.len() - q,
        {
            assert(gv[q as int] == g.params@[q as int]@);
            assert(gv[q as int].1.len() == len);
            let p = &g.params[q];
            assert(strs(p.values@)[i as int] == p.values@[i as int]@);
            let ghost rb = assign_view(row@);
            row.push((p.name.clone(), p.values[i].clone()));
            assert(assign_view(row@) =~= rb.push(group_row(gv, i as int)[q as int]));
            q += 1;
            assert(assign_view(row@) =~= group_row(gv, i as int).take(q as int));
        }
        assert(group_row(gv, i as int).take(q as int) =~= group_row(gv, i as int));
        let ghost before = assigns_view(rows@);
        let ghost rowv = assign_view(row@);
        rows.push(row);
        assert(assigns_view(rows@) =~= before.push(rowv));
        i += 1;
        assert(assigns_view(rows@) =~= group_rows(gv).take(i as int));
    }
    assert(group_rows(gv).take(len as int) =~= group_rows(gv));
    rows
}

fn cross_exec(cs: &Vec<Vec<(String, String)>>, rows: &Vec<Vec<(String, String)>>) -> (r: Vec<
    Vec<(String, String)>,
>)
    ensures
        assigns_view(r@) == cross(assigns_view(cs@), assigns_view(rows@)),
{
    let ghost cv = assigns_view(cs@);
    let ghost rv = assigns_view(rows@);
    let mut out: Vec<Vec<(String, String)>> = Vec::new();
    let mut j: usize = 0;
    while j < cs.len()
        invariant
            cv == assigns_view(cs@),
            rv == assigns_view(rows@),
            j <= cs@.len(),
            assigns_view(out@) == cross(cv.take(j as int), rv),
        decreases cs.len() - j,
    {
        let ghost base = assigns_view(out@);
        let mut q: usize = 0;
        while q < rows.len()
            invariant
                cv == assigns_view(cs@),
                rv == assigns_view(rows@),
                j < cs@.len(),
                q <= rows@.len(),
                assigns_view(out@) == base + rv.take(q as int).map_values(|x: Assign| cv[j as int] + x),
            decreases rows.len() - q,
        {
            let c = concat_assign(&cs[j], &rows[q]);
            let ghost before = assigns_view(out@);
            let ghost cview = assign_view(c@);
            out.push(c);
            assert(assigns_view(out@) =~= before.push(cview));
            q += 1;
            assert(assigns_view(out@) =~= base + rv.take(q as int).map_values(
                |x: Assign| cv[j as int] + x,
            ));
        }
        let ghost t = cv.take(j as int + 1);
        assert(t.drop_last() =~= cv.take(j as int));
        assert(rv.take(q as int) =~= rv);
        j += 1;
    }
    assert(cv.take(j as int) =~= cv);
    out
}

fn brace_chars(name: &[char]) -> (r: Vec<char>)
    ensures
        r@ == brace(name@),
{
    let mut r = vec!['{'];
    let mut i: usize = 0;
    while i < name.len()
        invariant
            i <= name@.len(),
            r@ == seq!['{'] + name@.take(i as int),
        decreases name.len() - i,
    {
        r.push(name[i]);
        i += 1;
        assert(r@ =~= seq!['{'] + name@.take(i as int));
    }
    r.push('}');
    assert(name@.take(i as int) =~= name@);
    assert(r@ =~= brace(name@));
    r
}

fn append_chars(out: &mut Vec<char>, s: &[char])
    ensures
        final(out)@ == old(out)@ + s@,
{
    let mut i: usize = 0;
    while i < s.len()
        invariant
            i <= s@.len(),
            out@ == old(out)@ + s@.take(i as int),
        decreases s.len() - i,
    {
        out.push(s[i]);
        i += 1;
        assert(out@ =~= old(out)@ + s@.take(i as int));
    }
    assert(s@.take(i as int) =~= s@);
}

fn expand_one(template: &[char], a: &Vec<(String, String)>, single: bool) -> (r: ExpandedCommand)
    ensures
        r@ == (subst(template@, assign_view(a@), single), label(assign_view(a@))),
{
    let ghost av = assign_view(a@);
    let mut cmd: Vec<char> = slice_copy(template, 0, template.len());
    assert(cmd@ =~= template@);
    let mut lab: Vec<char> = Vec::new();
    let empty_braces = vec!['{', '}'];
    let mut i: usize = 0;
    while i < a.len()
        invariant
            av == assign_view(a@),
            empty_braces@ == seq!['{', '}'],
            i <= a@.len(),
            cmd@ == subst(template@, av.take(i as int), single),
            lab@ == label(av.take(i as int)),
        decreases a.len() - i,
    {
        let ghost t = av.take(i as int + 1);
        assert(t.drop_last() =~= av.take(i as int));
        let name = chars_of(a[i].0.as_str());
        let value = chars_of(a[i].1.as_str());
        let pat = brace_chars(&name);
        cmd = replace_chars(&cmd, &pat, &value);
        if single {
            cmd = replace_chars(&cmd, &empty_braces, &value);
        }
        lab.push('[');
        append_chars(&mut lab, &name);
        lab.push('=');
        append_chars(&mut lab, &value);
        lab.push(']');
        i += 1;
        assert(lab@ =~= label(t));
    }
    assert(av.take(i as int) =~= av);
    ExpandedCommand { command: string_of(&cmd), label: string_of(&lab) }
}

/// Expands a parsed parallel command into its commands, in order: the first
/// group varies slowest.
pub fn expand(parsed: &ParsedParallel) -> (r: Vec<ExpandedCommand>)
    requires
        groups_ok(parsed@.0),
    ensures
        expanded_view(r@) == expansion(parsed@),
{
    let ghost gv = parsed@.0;
    let e: Vec<(String, String)> = Vec::new();
    assert(assign_view(e@) =~= seq![]);
    let mut cs: Vec<Vec<(String, String)>> = Vec::new();
    cs.push(e);
    assert(gv.take(0).len() == 0);
    assert(assigns_view(cs@) =~= combos(gv.take(0)));
    let mut k: usize = 0;
    while k < parsed.groups.len()
        invariant
            gv == parsed@.0,
            groups_ok(gv),
            k <= gv.len(),
            assigns_view(cs@) == combos(gv.take(k as int)),
        decreases parsed.groups.len() - k,
    {
        assert(gv[k as int] == parsed.groups@[k as int]@);
        let rows = rows_of(&parsed.groups[k]);
        let ghost t = gv.take(k as int + 1);
        assert(t.drop_last() =~= gv.take(k as int));
        cs = cross_exec(&cs, &rows);
        k += 1;
    }
    assert(gv.take(k as int) =~= gv);
    let single = parsed.groups.len() == 1 && parsed.groups[0].params.len() == 1;
    let template = chars_of(parsed.template.as_str());
    let ghost cv = assigns_view(cs@);
    let ghost f = |a: Assign| (subst(parsed@.1, a, single_param(gv)), label(a));
    let mut out: Vec<ExpandedCommand> = Vec::new();
    let mut i: usize = 0;
    while i < cs.len()
        invariant
            cv == assigns_view(cs@),
            cv == combos(gv),
            gv == parsed@.0,
            template@ == parsed@.1,
            single == single_param(gv),
            f == (|a: Assign| (subst(parsed@.1, a, single_param(gv)), label(a))),
            i <= cs@.len(),
            expanded_view(out@) == cv.take(i as int).map_values(f),
        decreases cs.len() - i,
    {
        let e = expand_one(&template, &cs[i], single);
        let ghost before = expanded_view(out@);
        out.push(e);
        assert(expanded_view(out@) =~= before.push(f(cv[i as int])));
        i += 1;
        assert(expanded_view(out@) =~= cv.take(i as int).map_values(f));
    }
    assert(cv.take(i as int) =~= cv);
    out
}

// ---------------------------------------------------------------- laws

/// Product of the group sizes.
pub open spec fn size_product(gs: Seq<GroupV>) -> nat
    decreases gs.len(),
{
    if gs.len() == 0 {
        1
    } else {
        size_product(gs.drop_last()) * group_len(gs.last())
    }
}

proof fn lemma_cross_len(cs: Seq<Assign>, rows: Seq<Assign>)
    ensures
        cross(cs, rows).len() == cs.len() * rows.len(),
    decreases cs.len(),
{
    if cs.len() > 0 {
        lemma_cross_len(cs.drop_last(), rows);
        assert(cs.len() * rows.len() == (cs.len() - 1) * rows.len() + rows.len()) by (
        nonlinear_arith);
    }
}

/// An expansion has as many commands as the product of its group sizes, a
/// group's size being the length of its zipped parameters.
pub proof fn lemma_expansion_count(p: (Seq<GroupV>, Seq<char>))
    ensures
        expansion(p).len() == size_product(p.0),
    decreases p.0.len(),
{
    lemma_combos_len(p.0);
}

proof fn lemma_combos_len(gs: Seq<GroupV>)
    ensures
        combos(gs).len() == size_product(gs),
    decreases gs.len(),
{
    if gs.len() > 0 {
        lemma_combos_len(gs.drop_last());
        lemma_cross_len(combos(gs.drop_last()), group_rows(gs.last()));
    }
}

} // verus!
