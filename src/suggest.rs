//! Argument-aware suggestions: what a command line's prefix, flags and flag
//! values were in past commands, and what to offer for the one being typed.
use vstd::prelude::*;
use crate::rank::{lemma_ranked_ok, ranked_ok, scored_view, top_scored, ScoredV};
use crate::searcher::{results_view, search_spec, HistorySearcher};
use crate::text::{
    chars_of, find, find_char, is_whitespace, is_ws, keep_before_ws, keep_ws_end,
    has_prefix, lemma_find_from, lemma_keep_bounds, lemma_push_contains, slice_copy, split_words, string_of, strs,
    trim_end, words,
};

verus! {

/// The words that `shell_words::split` makes of `s`, or `None` where it
/// reports an unclosed quote.
pub uninterp spec fn shell_split_of(s: Seq<char>) -> Option<Seq<Seq<char>>>;

/// Relies on `shell_words::split`: shell-style words of `s` (quotes,
/// backslashes, `#` comments), an error on an unclosed quote; the result
/// depends on `s` alone.
#[verifier::external_body]
fn shell_split(s: &str) -> (r: Option<Vec<String>>)
    ensures
        match r {
            Some(v) => shell_split_of(s@) == Some(strs(v@)),
            None => shell_split_of(s@) is None,
        },
{
    match shell_words::split(s) {
        Ok(v) => Some(v),
        Err(_) => None,
    }
}

/// Shell-aware words of `s`; plain whitespace words where quoting is broken.
pub open spec fn tokens_of(s: Seq<char>) -> Seq<Seq<char>> {
    match shell_split_of(s) {
        Some(t) => t,
        None => words(s),
    }
}

pub fn tokenize(s: &str) -> (r: Vec<String>)
    ensures
        strs(r@) == tokens_of(s@),
{
    match shell_split(s) {
        Some(v) => v,
        None => {
            let c = chars_of(s);
            split_words(&c)
        },
    }
}

// ---------------------------------------------------------------- commands

/// A flag or option: its name and, if it carried one, its value.
#[derive(Debug, Clone)]
pub struct ParsedArg {
    pub name: String,
    pub value: Option<String>,
}

/// A command split into its prefixes (`cargo`, `cargo build`) and arguments.
#[derive(Debug, Clone)]
pub struct ParsedCommand {
    pub prefixes: Vec<String>,
    pub args: Vec<ParsedArg>,
}

pub type ArgV = (Seq<char>, Option<Seq<char>>);

pub type ParsedV = (Seq<Seq<char>>, Seq<ArgV>);

impl View for ParsedArg {
    type V = ArgV;

    open spec fn view(&self) -> ArgV {
        (
            self.name@,
            match self.value {
                Some(v) => Some(v@),
                None => None,
            },
        )
    }
}

pub open spec fn args_view(v: Seq<ParsedArg>) -> Seq<ArgV> {
    v.map_values(|a: ParsedArg| a@)
}

impl View for ParsedCommand {
    type V = ParsedV;

    open spec fn view(&self) -> ParsedV {
        (strs(self.prefixes@), args_view(self.args@))
    }
}

pub open spec fn is_flag(t: Seq<char>) -> bool {
    t.len() > 0 && t[0] == '-'
}

pub open spec fn end_of_options() -> Seq<char> {
    seq!['-', '-']
}

/// Index of the first flag at or after `i`, or the length if there is none.
pub open spec fn prefix_end_from(ts: Seq<Seq<char>>, i: int) -> int
    decreases ts.len() - i,
{
    if 0 <= i < ts.len() && !is_flag(ts[i]) {
        prefix_end_from(ts, i + 1)
    } else {
        i
    }
}

pub open spec fn prefix_end(ts: Seq<Seq<char>>) -> int {
    prefix_end_from(ts, 0)
}

/// The words joined by single spaces.
pub open spec fn join_words(ts: Seq<Seq<char>>) -> Seq<char>
    decreases ts.len(),
{
    if ts.len() == 0 {
        seq![]
    } else if ts.len() == 1 {
        ts[0]
    } else {
        join_words(ts.drop_last()) + seq![' '] + ts.last()
    }
}

/// The growing joins of the first `k` words: `a`, `a b`, `a b c`, ...
pub open spec fn prefixes_of(ts: Seq<Seq<char>>, k: int) -> Seq<Seq<char>> {
    Seq::new(k as nat, |i: int| join_words(ts.take(i + 1)))
}

/// The arguments of argument words: `--` ends them; `-x=v` carries `v`;
/// `-x v` carries `v` when `v` is not a flag itself.
pub open spec fn args_of(ts: Seq<Seq<char>>) -> Seq<ArgV>
    decreases ts.len(),
{
    if ts.len() == 0 {
        seq![]
    } else {
        let t = ts[0];
        if t == end_of_options() {
            seq![]
        } else if is_flag(t) {
            match find(t, '=') {
                Some(p) => seq![(t.take(p), Some(t.skip(p + 1)))] + args_of(ts.drop_first()),
                None => if ts.len() >= 2 && !is_flag(ts[1]) {
                    seq![(t, Some(ts[1]))] + args_of(ts.skip(2))
                } else {
                    seq![(t, None::<Seq<char>>)] + args_of(ts.drop_first())
                },
            }
        } else {
            args_of(ts.drop_first())
        }
    }
}

pub open spec fn parse_tokens_spec(ts: Seq<Seq<char>>) -> ParsedV {
    let k = prefix_end(ts);
    (prefixes_of(ts, k), args_of(ts.skip(k)))
}

pub open spec fn parse_command_spec(s: Seq<char>) -> ParsedV {
    parse_tokens_spec(tokens_of(s))
}

proof fn lemma_prefix_end_bounds(ts: Seq<Seq<char>>, i: int)
    requires
        0 <= i <= ts.len(),
    ensures
        i <= prefix_end_from(ts, i) <= ts.len(),
        forall|k: int| i <= k < prefix_end_from(ts, i) ==> !is_flag(#[trigger] ts[k]),
    decreases ts.len() - i,
{
    if i < ts.len() && !is_flag(ts[i]) {
        lemma_prefix_end_bounds(ts, i + 1);
    }
}

fn is_flag_str(t: &str) -> (r: bool)
    ensures
        r == is_flag(t@),
{
    let c = chars_of(t);
    c.len() > 0 && c[0] == '-'
}

fn is_end_of_options(t: &str) -> (r: bool)
    ensures
        r == (t@ == end_of_options()),
{
    let c = chars_of(t);
    let r = c.len() == 2 && c[0] == '-' && c[1] == '-';
    assert(r ==> c@ =~= end_of_options());
    r
}

/// Index of the first flag among `ts`, or its length.
pub fn find_prefix_end(ts: &Vec<String>) -> (r: usize)
    ensures
        r == prefix_end(strs(ts@)),
{
    let ghost tv = strs(ts@);
    let mut i: usize = 0;
    while i < ts.len() && !is_flag_str(ts[i].as_str())
        invariant
            tv == strs(ts@),
            i <= ts@.len(),
            prefix_end_from(tv, i as int) == prefix_end(tv),
        decreases ts.len() - i,
    {
        assert(tv[i as int] == ts@[i as int]@);
        i += 1;
    }
    proof {
        if i < ts.len() {
            assert(tv[i as int] == ts@[i as int]@);
        }
    }
    i
}

/// The growing space-joined prefixes of the first `k` words.
pub fn build_prefixes(ts: &Vec<String>, k: usize) -> (r: Vec<String>)
    requires
        k <= ts@.len(),
    ensures
        strs(r@) == prefixes_of(strs(ts@), k as int),
{
    let ghost tv = strs(ts@);
    let mut out: Vec<String> = Vec::new();
    let mut running = String::new();
    let mut i: usize = 0;
    while i < k
        invariant
            tv == strs(ts@),
            k <= ts@.len(),
            i <= k,
            strs(out@) == prefixes_of(tv, i as int),
            running@ == join_words(tv.take(i as int)),
        decreases k - i,
    {
        let ghost t = tv.take(i as int + 1);
        assert(t.drop_last() =~= tv.take(i as int));
        assert(t.last() == ts@[i as int]@);
        if i > 0 {
            crate::text::push_char(&mut running, ' ');
        } else {
            assert(tv.take(0) =~= seq![]);
        }
        running.append(ts[i].as_str());
        assert(running@ =~= join_words(t));
        let ghost before = strs(out@);
        out.push(running.clone());
        assert(strs(out@) =~= before.push(running@));
        i += 1;
        assert(strs(out@) =~= prefixes_of(tv, i as int));
    }
    out
}

fn copy_string(s: &String) -> (r: String)
    ensures
        r@ == s@,
{
    s.clone()
}

/// The arguments among the words `ts[start..]`.
pub fn parse_args_from(ts: &Vec<String>, start: usize) -> (r: Vec<ParsedArg>)
    requires
        start <= ts@.len(),
    ensures
        args_view(r@) == args_of(strs(ts@).skip(start as int)),
{
    let ghost tv = strs(ts@);
    let mut out: Vec<ParsedArg> = Vec::new();
    let mut i: usize = start;
    while i < ts.len()
        invariant
            tv == strs(ts@),
            start <= i <= ts@.len(),
            args_view(out@) + args_of(tv.skip(i as int)) == args_of(tv.skip(start as int)),
        decreases ts.len() - i,
    {
        let ghost rest = tv.skip(i as int);
        assert(rest[0] == ts@[i as int]@);
        let tok = ts[i].as_str();
        if is_end_of_options(tok) {
            assert(args_view(out@) + seq![] =~= args_view(out@));
            return out;
        }
        let ghost before = args_view(out@);
        if is_flag_str(tok) {
            let c = chars_of(tok);
            match find_char(&c, '=') {
                Some(p) => {
                    proof { lemma_find_from(c@, '=', 0); }
                    assert(p < c.len());
                    let name = slice_copy(&c, 0, p);
                    let value = slice_copy(&c, p + 1, c.len());
                    assert(name@ =~= c@.take(p as int));
                    assert(value@ =~= c@.skip(p + 1));
                    let a = ParsedArg { name: string_of(&name), value: Some(string_of(&value)) };
                    out.push(a);
                    assert(args_view(out@) =~= before.push(a@));
                    assert(rest.drop_first() =~= tv.skip(i + 1));
                    i += 1;
                },
                None => {
                    if i + 1 < ts.len() && !is_flag_str(ts[i + 1].as_str()) {
                        assert(rest[1] == ts@[i + 1]@);
                        let a = ParsedArg {
                            name: copy_string(&ts[i]),
                            value: Some(copy_string(&ts[i + 1])),
                        };
                        out.push(a);
                        assert(args_view(out@) =~= before.push(a@));
                        assert(rest.skip(2) =~= tv.skip(i + 2));
                        i += 2;
                    } else {
                        proof {
                            if i + 1 < ts.len() {
                                assert(rest[1] == ts@[i + 1]@);
                            }
                        }
                        let a = ParsedArg { name: copy_string(&ts[i]), value: None };
                        out.push(a);
                        assert(args_view(out@) =~= before.push(a@));
                        assert(rest.drop_first() =~= tv.skip(i + 1));
                        i += 1;
                    }
                },
            }
        } else {
            assert(rest.drop_first() =~= tv.skip(i + 1));
            i += 1;
        }
    }
    assert(tv.skip(i as int) =~= seq![]);
    assert(args_view(out@) + seq![] =~= args_view(out@));
    out
}

/// Prefixes and arguments of already split words.
pub fn parse_tokens(ts: &Vec<String>) -> (r: ParsedCommand)
    ensures
        r@ == parse_tokens_spec(strs(ts@)),
{
    let k = find_prefix_end(ts);
    proof { lemma_prefix_end_bounds(strs(ts@), 0); }
    let prefixes = build_prefixes(ts, k);
    let args = parse_args_from(ts, k);
    ParsedCommand { prefixes, args }
}

/// Splits a command the way a shell would and parses its words.
pub fn parse_command(command: &str) -> (r: ParsedCommand)
    ensures
        r@ == parse_command_spec(command@),
{
    let ts = tokenize(command);
    parse_tokens(&ts)
}

// ---------------------------------------------------------------- input

/// Index of the last whitespace character in `t[..j]`.
pub open spec fn rfind_ws(t: Seq<char>, j: int) -> Option<int>
    decreases j,
{
    if j <= 0 || j > t.len() {
        None
    } else if is_ws(t[j - 1]) {
        Some(j - 1)
    } else {
        rfind_ws(t, j - 1)
    }
}

/// Completed words and the word being typed: after trailing whitespace
/// nothing is being typed; otherwise the last raw word is, and the words before it
/// are split the way a shell would.
pub open spec fn split_input_spec(s: Seq<char>) -> (Seq<Seq<char>>, Seq<char>) {
    let raw = words(s);
    if raw.len() == 0 {
        (seq![], seq![])
    } else if is_ws(s.last()) {
        (tokens_of(s), seq![])
    } else {
        let t = trim_end(s);
        let before = match rfind_ws(t, t.len() as int) {
            Some(w) => t.take(w),
            None => seq![],
        };
        (if before.len() == 0 { seq![] } else { tokens_of(before) }, raw.last())
    }
}

/// Splits the input line into completed words and the partial word.
pub fn split_input(input: &str) -> (r: (Vec<String>, String))
    ensures
        (strs(r.0@), r.1@) == split_input_spec(input@),
{
    let c = chars_of(input);
    let raw = split_words(&c);
    if raw.len() == 0 {
        let e: Vec<String> = Vec::new();
        assert(strs(e@) =~= seq![]);
        return (e, String::new());
    }
    assert(c@.len() > 0) by {
        if c@.len() == 0 {
            assert(strs(raw@).len() == 0);
        }
    }
    if is_whitespace(c[c.len() - 1]) {
        return (tokenize(input), String::new());
    }
    assert(strs(raw@).last() == raw@[raw@.len() - 1]@);
    let partial = copy_string(&raw[raw.len() - 1]);
    let end = keep_ws_end(&c, c.len());
    proof { lemma_keep_bounds(c@, c@.len() as int); }
    let t = slice_copy(&c, 0, end);
    assert(t@ =~= trim_end(c@));
    let mut j = t.len();
    while j > 0 && !is_whitespace(t[j - 1])
        invariant
            j <= t@.len(),
            rfind_ws(t@, j as int) == rfind_ws(t@, t@.len() as int),
        decreases j,
    {
        j -= 1;
    }
    let before = if j > 0 {
        assert(rfind_ws(t@, j as int) == Some(j - 1));
        let b = slice_copy(&t, 0, j - 1);
        assert(b@ =~= t@.take(j - 1));
        b
    } else {
        let b: Vec<char> = Vec::new();
        assert(b@ =~= seq![]);
        b
    };
    let completed = if before.len() == 0 {
        let e: Vec<String> = Vec::new();
        assert(strs(e@) =~= seq![]);
        e
    } else {
        let bs = string_of(&before);
        tokenize(bs.as_str())
    };
    (completed, partial)
}

} // verus!

verus! {

// ---------------------------------------------------------------- counts

/// A parsed command of the index: its prefixes, arguments and weight.
pub type EntryP = (Seq<Seq<char>>, Seq<ArgV>, nat);

/// Counts stop at the largest `u64`.
pub open spec fn cap(x: int) -> int {
    if x > u64::MAX {
        u64::MAX as int
    } else {
        x
    }
}

pub open spec fn count_eq(ps: Seq<Seq<char>>, p: Seq<char>) -> nat
    decreases ps.len(),
{
    if ps.len() == 0 {
        0
    } else {
        count_eq(ps.drop_last(), p) + if ps.last() == p {
            1nat
        } else {
            0nat
        }
    }
}

pub open spec fn count_name(args: Seq<ArgV>, n: Seq<char>) -> nat
    decreases args.len(),
{
    if args.len() == 0 {
        0
    } else {
        count_name(args.drop_last(), n) + if args.last().0 == n {
            1nat
        } else {
            0nat
        }
    }
}

pub open spec fn count_value(args: Seq<ArgV>, n: Seq<char>, v: Seq<char>) -> nat
    decreases args.len(),
{
    if args.len() == 0 {
        0
    } else {
        count_value(args.drop_last(), n, v) + if args.last().0 == n && args.last().1 == Some(v) {
            1nat
        } else {
            0nat
        }
    }
}

/// Weighted number of (prefix `p`, argument `n`) pairs over the entries.
pub open spec fn total_arg(es: Seq<EntryP>, p: Seq<char>, n: Seq<char>) -> int
    decreases es.len(),
{
    if es.len() == 0 {
        0
    } else {
        let e = es.last();
        total_arg(es.drop_last(), p, n) + e.2 * count_eq(e.0, p) * count_name(e.1, n)
    }
}

/// Weighted number of (prefix `p`, argument `n` with value `v`) pairs.
pub open spec fn total_value(es: Seq<EntryP>, p: Seq<char>, n: Seq<char>, v: Seq<char>) -> int
    decreases es.len(),
{
    if es.len() == 0 {
        0
    } else {
        let e = es.last();
        total_value(es.drop_last(), p, n, v) + e.2 * count_eq(e.0, p) * count_value(e.1, n, v)
    }
}

/// Weighted number of (any prefix, argument `n` with value `v`) pairs.
pub open spec fn total_global(es: Seq<EntryP>, n: Seq<char>, v: Seq<char>) -> int
    decreases es.len(),
{
    if es.len() == 0 {
        0
    } else {
        let e = es.last();
        total_global(es.drop_last(), n, v) + e.2 * e.0.len() * count_value(e.1, n, v)
    }
}

/// `arg_index[p][n]`.
pub open spec fn arg_count(es: Seq<EntryP>, p: Seq<char>, n: Seq<char>) -> int {
    cap(total_arg(es, p, n))
}

/// `arg_value_index[p][n][v]`.
pub open spec fn value_count(es: Seq<EntryP>, p: Seq<char>, n: Seq<char>, v: Seq<char>) -> int {
    cap(total_value(es, p, n, v))
}

/// `global_arg_values[n][v]`.
pub open spec fn global_count(es: Seq<EntryP>, n: Seq<char>, v: Seq<char>) -> int {
    cap(total_global(es, n, v))
}

/// `n` was seen carrying a value under some prefix.
pub open spec fn takes_value(es: Seq<EntryP>, n: Seq<char>) -> bool {
    exists|i: int, j: int|
        0 <= i < es.len() && 0 <= j < es[i].1.len() && es[i].0.len() > 0 && (
        #[trigger] es[i].1[j]).0 == n && es[i].1[j].1 is Some
}

proof fn lemma_cap_add(a: int, b: int)
    requires
        a >= 0,
        b >= 0,
    ensures
        cap(cap(a) + cap(b)) == cap(a + b),
{
}

proof fn lemma_cap_mul(a: int, b: int)
    requires
        a >= 0,
        b >= 0,
    ensures
        cap(cap(a) * b) == cap(a * b),
{
    if a > u64::MAX && b >= 1 {
        assert(a * b >= a) by (nonlinear_arith)
            requires
                b >= 1,
                a >= 0,
        ;
        assert((u64::MAX as int) * b >= u64::MAX) by (nonlinear_arith)
            requires
                b >= 1,
        ;
    }
    if b == 0 {
        assert(cap(a) * b == 0);
        assert(a * b == 0);
    }
}

fn cap_mul(a: u64, b: u64) -> (r: u64)
    ensures
        r == cap(a * b),
{
    match a.checked_mul(b) {
        Some(x) => x,
        None => u64::MAX,
    }
}

fn count_eq_exec(ps: &Vec<String>, p: &String) -> (r: u64)
    ensures
        r == count_eq(strs(ps@), p@),
{
    let ghost pv = strs(ps@);
    let mut c: u64 = 0;
    let mut i: usize = 0;
    while i < ps.len()
        invariant
            pv == strs(ps@),
            i <= ps@.len(),
            c == count_eq(pv.take(i as int), p@),
            c <= i,
        decreases ps.len() - i,
    {
        let ghost t = pv.take(i as int + 1);
        assert(t.drop_last() =~= pv.take(i as int));
        assert(t.last() == ps@[i as int]@);
        if ps[i] == *p {
            c += 1;
        }
        i += 1;
    }
    assert(pv.take(i as int) =~= pv);
    c
}

fn count_name_exec(args: &Vec<ParsedArg>, n: &String) -> (r: u64)
    ensures
        r == count_name(args_view(args@), n@),
{
    let ghost av = args_view(args@);
    let mut c: u64 = 0;
    let mut i: usize = 0;
    while i < args.len()
        invariant
            av == args_view(args@),
            i <= args@.len(),
            c == count_name(av.take(i as int), n@),
            c <= i,
        decreases args.len() - i,
    {
        let ghost t = av.take(i as int + 1);
        assert(t.drop_last() =~= av.take(i as int));
        assert(t.last() == args@[i as int]@);
        if args[i].name == *n {
            c += 1;
        }
        i += 1;
    }
    assert(av.take(i as int) =~= av);
    c
}

fn count_value_exec(args: &Vec<ParsedArg>, n: &String, v: &String) -> (r: u64)
    ensures
        r == count_value(args_view(args@), n@, v@),
{
    let ghost av = args_view(args@);
    let mut c: u64 = 0;
    let mut i: usize = 0;
    while i < args.len()
        invariant
            av == args_view(args@),
            i <= args@.len(),
            c == count_value(av.take(i as int), n@, v@),
            c <= i,
        decreases args.len() - i,
    {
        let ghost t = av.take(i as int + 1);
        assert(t.drop_last() =~= av.take(i as int));
        assert(t.last() == args@[i as int]@);
        let hit = match &args[i].value {
            Some(x) => args[i].name == *n && *x == *v,
            None => false,
        };
        if hit {
            c += 1;
        }
        i += 1;
    }
    assert(av.take(i as int) =~= av);
    c
}

// ---------------------------------------------------------------- engine

struct WeightedParse {
    parsed: ParsedCommand,
    weight: u64,
}

impl View for WeightedParse {
    type V = EntryP;

    closed spec fn view(&self) -> EntryP {
        (self.parsed@.0, self.parsed@.1, self.weight as nat)
    }
}

spec fn entries_view(v: Seq<WeightedParse>) -> Seq<EntryP> {
    v.map_values(|e: WeightedParse| e@)
}

/// Argument-aware suggestion engine over the commands it has indexed.
pub struct SuggestionEngine {
    entries: Vec<WeightedParse>,
}

/// A suggestion and its kind.
#[derive(Debug, Clone)]
pub struct Suggestion {
    pub text: String,
    /// Twice the rank score, so that the weights 1, 1.5 and 2 stay whole.
    pub score: u128,
    pub suggestion_type: SuggestionType,
}

#[derive(Debug, Clone, Copy, PartialEq, Eq, Structural)]
pub enum SuggestionType {
    /// A whole command from history.
    FullCommand,
    /// A flag or option of the current command.
    Argument,
    /// A value of the current flag.
    ArgumentValue,
}

/// The weight of an indexed command: its frequency, at least one.
pub open spec fn weight_of(frequency: u32) -> nat {
    if frequency >= 1 {
        frequency as nat
    } else {
        1
    }
}

pub open spec fn entry_of(command: Seq<char>, frequency: u32) -> EntryP {
    let p = parse_command_spec(command);
    (p.0, p.1, weight_of(frequency))
}

pub open spec fn commands_model(cs: Seq<crate::searcher::IndexedCommand>) -> Seq<EntryP> {
    cs.map_values(|c: crate::searcher::IndexedCommand| entry_of(c.command@, c.frequency))
}

impl SuggestionEngine {
    /// The indexed commands, parsed and weighted, in the order indexed.
    pub closed spec fn model(&self) -> Seq<EntryP> {
        entries_view(self.entries@)
    }

    /// Builds the engine from the indexed commands, each weighted by its frequency.
    pub fn new(commands: &[crate::searcher::IndexedCommand]) -> (r: Self)
        ensures
            r.model() == commands_model(commands@),
    {
        let mut entries: Vec<WeightedParse> = Vec::new();
        let mut i: usize = 0;
        while i < commands.len()
            invariant
                i <= commands@.len(),
                entries_view(entries@) == commands_model(commands@.take(i as int)),
            decreases commands.len() - i,
        {
            let c = &commands[i];
            let parsed = parse_command(c.command.as_str());
            let weight: u64 = if c.frequency >= 1 { c.frequency as u64 } else { 1 };
            let e = WeightedParse { parsed, weight };
            let ghost before = entries_view(entries@);
            entries.push(e);
            assert(entries_view(entries@) =~= before.push(e@));
            i += 1;
            assert(commands_model(commands@.take(i as int)) =~= commands_model(
                commands@.take(i as int - 1),
            ).push(entry_of(c.command@, c.frequency)));
        }
        assert(commands@.take(i as int) =~= commands@);
        SuggestionEngine { entries }
    }

    /// Indexes one more command, with weight one.
    pub fn index_command(&mut self, command: &str)
        ensures
            final(self).model() == old(self).model().push(
                (parse_command_spec(command@).0, parse_command_spec(command@).1, 1),
            ),
    {
        let parsed = parse_command(command);
        let e = WeightedParse { parsed, weight: 1 };
        let ghost before = entries_view(self.entries@);
        self.entries.push(e);
        assert(entries_view(self.entries@) =~= before.push(e@));
    }

    /// `arg_index[prefix][name]`: 0 where the pair was never seen.
    pub fn arg_count(&self, prefix: &str, name: &str) -> (r: u64)
        ensures
            r == arg_count(self.model(), prefix@, name@),
    {
        let p = String::from_str(prefix);
        let n = String::from_str(name);
        self.arg_count_of(&p, &n)
    }

    fn arg_count_of(&self, p: &String, n: &String) -> (r: u64)
        ensures
            r == arg_count(self.model(), p@, n@),
    {
        let ghost es = self.model();
        let mut total: u64 = 0;
        let mut i: usize = 0;
        while i < self.entries.len()
            invariant
                es == self.model(),
                i <= es.len(),
                total == cap(total_arg(es.take(i as int), p@, n@)),
                total_arg(es.take(i as int), p@, n@) >= 0,
            decreases self.entries.len() - i,
        {
            let e = &self.entries[i];
            let ghost t = es.take(i as int + 1);
            assert(t.drop_last() =~= es.take(i as int));
            assert(t.last() == e@);
            let c1 = count_eq_exec(&e.parsed.prefixes, p);
            let c2 = count_name_exec(&e.parsed.args, n);
            let term = cap_mul(cap_mul(e.weight, c1), c2);
            proof {
                lemma_cap_mul(e.weight * c1, c2 as int);
                lemma_cap_add(total_arg(es.take(i as int), p@, n@), e.weight * c1 * c2);
                assert(e.weight * c1 * c2 >= 0) by (nonlinear_arith);
            }
            total = total.saturating_add(term);
            i += 1;
        }
        assert(es.take(i as int) =~= es);
        total
    }

    /// `arg_value_index[prefix][name][value]`: 0 where never seen.
    pub fn arg_value_count(&self, prefix: &str, name: &str, value: &str) -> (r: u64)
        ensures
            r == value_count(self.model(), prefix@, name@, value@),
    {
        let p = String::from_str(prefix);
        let n = String::from_str(name);
        let v = String::from_str(value);
        self.value_count_of(&p, &n, &v)
    }

    fn value_count_of(&self, p: &String, n: &String, v: &String) -> (r: u64)
        ensures
            r == value_count(self.model(), p@, n@, v@),
    {
        let ghost es = self.model();
        let mut total: u64 = 0;
        let mut i: usize = 0;
        while i < self.entries.len()
            invariant
                es == self.model(),
                i <= es.len(),
                total == cap(total_value(es.take(i as int), p@, n@, v@)),
                total_value(es.take(i as int), p@, n@, v@) >= 0,
            decreases self.entries.len() - i,
        {
            let e = &self.entries[i];
            let ghost t = es.take(i as int + 1);
            assert(t.drop_last() =~= es.take(i as int));
            assert(t.last() == e@);
            let c1 = count_eq_exec(&e.parsed.prefixes, p);
            let c2 = count_value_exec(&e.parsed.args, n, v);
            let term = cap_mul(cap_mul(e.weight, c1), c2);
            proof {
                lemma_cap_mul(e.weight * c1, c2 as int);
                lemma_cap_add(total_value(es.take(i as int), p@, n@, v@), e.weight * c1 * c2);
                assert(e.weight * c1 * c2 >= 0) by (nonlinear_arith);
            }
            total = total.saturating_add(term);
            i += 1;
        }
        assert(es.take(i as int) =~= es);
        total
    }

    /// `global_arg_values[name][value]`: 0 where never seen.
    pub fn global_value_count(&self, name: &str, value: &str) -> (r: u64)
        ensures
            r == global_count(self.model(), name@, value@),
    {
        let n = String::from_str(name);
        let v = String::from_str(value);
        self.global_count_of(&n, &v)
    }

    fn global_count_of(&self, n: &String, v: &String) -> (r: u64)
        ensures
            r == global_count(self.model(), n@, v@),
    {
        let ghost es = self.model();
        let mut total: u64 = 0;
        let mut i: usize = 0;
        while i < self.entries.len()
            invariant
                es == self.model(),
                i <= es.len(),
                total == cap(total_global(es.take(i as int), n@, v@)),
                total_global(es.take(i as int), n@, v@) >= 0,
            decreases self.entries.len() - i,
        {
            let e = &self.entries[i];
            let ghost t = es.take(i as int + 1);
            assert(t.drop_last() =~= es.take(i as int));
            assert(t.last() == e@);
            assert(strs(e.parsed.prefixes@).len() == e.parsed.prefixes@.len());
            let c1 = e.parsed.prefixes.len() as u64;
            let c2 = count_value_exec(&e.parsed.args, n, v);
            let term = cap_mul(cap_mul(e.weight, c1), c2);
            proof {
                lemma_cap_mul(e.weight * c1, c2 as int);
                lemma_cap_add(total_global(es.take(i as int), n@, v@), e.weight * c1 * c2);
                assert(e.weight * c1 * c2 >= 0) by (nonlinear_arith);
            }
            total = total.saturating_add(term);
            i += 1;
        }
        assert(es.take(i as int) =~= es);
        total
    }

    /// Whether `arg_name` was ever seen carrying a value.
    pub fn arg_takes_value(&self, arg_name: &str) -> (r: bool)
        ensures
            r == takes_value(self.model(), arg_name@),
    {
        let n = String::from_str(arg_name);
        self.takes_value_of(&n)
    }

    fn takes_value_of(&self, n: &String) -> (r: bool)
        ensures
            r == takes_value(self.model(), n@),
    {
        let ghost es = self.model();
        let mut i: usize = 0;
        while i < self.entries.len()
            invariant
                es == self.model(),
                i <= es.len(),
                forall|a: int, b: int|
                    0 <= a < i && 0 <= b < es[a].1.len() && es[a].0.len() > 0 ==> !((
                    #[trigger] es[a].1[b]).0 == n@ && es[a].1[b].1 is Some),
            decreases self.entries.len() - i,
        {
            let e = &self.entries[i];
            assert(es[i as int] == e@);
            if e.parsed.prefixes.len() > 0 {
                let mut j: usize = 0;
                while j < e.parsed.args.len()
                    invariant
                        es == self.model(),
                        i < es.len(),
                        es[i as int] == e@,
                        e.parsed.prefixes@.len() > 0,
                        j <= e.parsed.args@.len(),
                        forall|b: int|
                            0 <= b < j ==> !((#[trigger] es[i as int].1[b]).0 == n@ && es[i as int].1[b].1 is Some),
                    decreases e.parsed.args.len() - j,
                {
                    assert(es[i as int].1[j as int] == e.parsed.args@[j as int]@);
                    if e.parsed.args[j].name == *n && e.parsed.args[j].value.is_some() {
                        assert(es[i as int].0.len() > 0);
                        return true;
                    }
                    j += 1;
                }
            }
            i += 1;
        }
        false
    }
}

} // verus!

verus! {

// ---------------------------------------------------------------- context

/// What the engine should offer next.
#[derive(Debug, Clone, PartialEq, Eq)]
pub enum NextExpected {
    /// No word is complete yet: a command.
    Command,
    /// Only prefix words so far: a subcommand or a first flag.
    Subcommand,
    /// A flag or option.
    Argument,
    /// A value of the named flag.
    Value(String),
}

/// `(0, _)` command, `(1, _)` subcommand, `(2, _)` argument, `(3, a)` value of `a`.
pub type NextV = (nat, Seq<char>);

pub open spec fn next_view(n: NextExpected) -> NextV {
    match n {
        NextExpected::Command => (0, seq![]),
        NextExpected::Subcommand => (1, seq![]),
        NextExpected::Argument => (2, seq![]),
        NextExpected::Value(a) => (3, a@),
    }
}

/// What the completed words say about the input.
#[derive(Debug)]
pub struct InputContext {
    pub prefixes: Vec<String>,
    pub next_expected: NextExpected,
    /// Flags already present, for leaving them out of suggestions.
    pub existing_args: Vec<String>,
}

/// Flags present among `c[i..]`: `--` ends them, `-k=v` adds `-k`, and a
/// value-taking flag skips the value word after it.
pub open spec fn walk_args(es: Seq<EntryP>, c: Seq<Seq<char>>, i: int) -> Set<Seq<char>>
    decreases c.len() - i,
{
    if i < 0 || i >= c.len() {
        Set::empty()
    } else {
        let t = c[i];
        if t == end_of_options() {
            Set::empty()
        } else if is_flag(t) {
            match find(t, '=') {
                Some(p) => walk_args(es, c, i + 1).insert(t.take(p)),
                None => if takes_value(es, t) && i + 1 < c.len() && !is_flag(c[i + 1]) {
                    walk_args(es, c, i + 2).insert(t)
                } else {
                    walk_args(es, c, i + 1).insert(t)
                },
            }
        } else {
            walk_args(es, c, i + 1)
        }
    }
}

pub open spec fn existing_of(es: Seq<EntryP>, c: Seq<Seq<char>>) -> Set<Seq<char>> {
    if c.len() == 0 || prefix_end(c) == c.len() {
        Set::empty()
    } else {
        walk_args(es, c, prefix_end(c))
    }
}

pub open spec fn expected_of(es: Seq<EntryP>, c: Seq<Seq<char>>) -> NextV {
    if c.len() == 0 {
        (0, seq![])
    } else if prefix_end(c) == c.len() {
        (1, seq![])
    } else {
        let l = c.last();
        if is_flag(l) && find(l, '=') is None && l != end_of_options() && takes_value(es, l) {
            (3, l)
        } else {
            (2, seq![])
        }
    }
}

impl SuggestionEngine {
    /// The command prefixes of the completed words, what to offer next, and
    /// the flags already present.
    pub fn analyze_completed(&self, completed: &[String]) -> (r: InputContext)
        ensures
            strs(r.prefixes@) == prefixes_of(strs(completed@), prefix_end(strs(completed@))),
            next_view(r.next_expected) == expected_of(self.model(), strs(completed@)),
            strs(r.existing_args@).to_set() == existing_of(self.model(), strs(completed@)),
    {
        let ghost es = self.model();
        let ghost c = strs(completed@);
        let mut ts: Vec<String> = Vec::new();
        let mut q: usize = 0;
        while q < completed.len()
            invariant
                q <= completed@.len(),
                c == strs(completed@),
                strs(ts@) == c.take(q as int),
            decreases completed.len() - q,
        {
            let ghost before = strs(ts@);
            let x = copy_string(&completed[q]);
            ts.push(x);
            assert(strs(ts@) =~= before.push(x@));
            q += 1;
            assert(strs(ts@) =~= c.take(q as int));
        }
        assert(c.take(q as int) =~= c);
        let empty: Vec<String> = Vec::new();
        assert(strs(empty@).to_set() =~= Set::<Seq<char>>::empty());
        if ts.len() == 0 {
            assert(prefixes_of(c, 0) =~= seq![]);
            return InputContext {
                prefixes: Vec::new(),
                next_expected: NextExpected::Command,
                existing_args: empty,
            };
        }
        let k = find_prefix_end(&ts);
        proof { lemma_prefix_end_bounds(c, 0); }
        let prefixes = build_prefixes(&ts, k);
        if k == ts.len() {
            return InputContext { prefixes, next_expected: NextExpected::Subcommand, existing_args: empty };
        }
        let mut existing: Vec<String> = Vec::new();
        let mut i = k;
        while i < ts.len()
            invariant
                es == self.model(),
                c == strs(ts@),
                k <= i <= ts@.len(),
                strs(existing@).to_set().union(walk_args(es, c, i as int)) == walk_args(es, c, k as int),
            ensures
                strs(existing@).to_set() == walk_args(es, c, k as int),
            decreases ts.len() - i,
        {
            let tok = ts[i].as_str();
            assert(c[i as int] == tok@);
            if is_end_of_options(tok) {
                assert(walk_args(es, c, i as int) == Set::<Seq<char>>::empty());
                assert(strs(existing@).to_set().union(Set::empty()) =~= strs(existing@).to_set());
                break;
            }
            let ghost before = strs(existing@);
            if is_flag_str(tok) {
                let tc = chars_of(tok);
                match find_char(&tc, '=') {
                    Some(p) => {
                        proof { lemma_find_from(tc@, '=', 0); }
                        assert(p < tc.len());
                        let name = slice_copy(&tc, 0, p);
                        assert(name@ =~= tc@.take(p as int));
                        let ns = string_of(&name);
                        existing.push(ns);
                        assert(strs(existing@) =~= before.push(ns@));
                        assert(strs(existing@).to_set().union(walk_args(es, c, i + 1)) =~= before.to_set().union(
                            walk_args(es, c, i as int),
                        )) by {
                            broadcast use vstd::seq_lib::group_seq_properties;
                        }
                        i += 1;
                    },
                    None => {
                        let ns = copy_string(&ts[i]);
                        existing.push(ns);
                        assert(strs(existing@) =~= before.push(ns@));
                        let skip = self.takes_value_of(&ts[i]) && i + 1 < ts.len() && !is_flag_str(
                            ts[i + 1].as_str(),
                        );
                        proof {
                            if i + 1 < ts.len() {
                                assert(c[i + 1] == ts@[i + 1]@);
                            }
                        }
                        if skip {
                            assert(strs(existing@).to_set().union(walk_args(es, c, i + 2)) =~= before.to_set().union(
                                walk_args(es, c, i as int),
                            )) by {
                                broadcast use vstd::seq_lib::group_seq_properties;
                            }
                            i += 2;
                        } else {
                            assert(strs(existing@).to_set().union(walk_args(es, c, i + 1)) =~= before.to_set().union(
                                walk_args(es, c, i as int),
                            )) by {
                                broadcast use vstd::seq_lib::group_seq_properties;
                            }
                            i += 1;
                        }
                    },
                }
            } else {
                i += 1;
            }
        }
        let last = ts[ts.len() - 1].as_str();
        assert(c.last() == last@);
        let lc = chars_of(last);
        let next_expected = if is_flag_str(last) && find_char(&lc, '=').is_none()
            && !is_end_of_options(last) && self.takes_value_of(&ts[ts.len() - 1]) {
            NextExpected::Value(copy_string(&ts[ts.len() - 1]))
        } else {
            NextExpected::Argument
        };
        InputContext { prefixes, next_expected, existing_args: existing }
    }
}

} // verus!

verus! {

// ---------------------------------------------------------------- ranking

/// Twice the boost of the `i`-th of `k` prefixes for arguments: the
/// innermost counts double.
pub open spec fn arg_boost(i: int, k: int) -> int {
    if i == k - 1 {
        4
    } else {
        2
    }
}

/// Twice the boost of the `i`-th of `k` prefixes for values: the innermost
/// counts double, the others one and a half.
pub open spec fn value_boost(i: int, k: int) -> int {
    if i == k - 1 {
        4
    } else {
        3
    }
}

pub open spec fn max_int(a: int, b: int) -> int {
    if a >= b {
        a
    } else {
        b
    }
}

pub open spec fn arg_score_upto(es: Seq<EntryP>, ps: Seq<Seq<char>>, n: Seq<char>, j: int) -> int
    decreases j,
{
    if j <= 0 {
        0
    } else {
        max_int(
            arg_score_upto(es, ps, n, j - 1),
            arg_count(es, ps[j - 1], n) * arg_boost(j - 1, ps.len() as int),
        )
    }
}

/// Score of flag `n` under the prefixes: the best boosted count.
pub open spec fn arg_score(es: Seq<EntryP>, ps: Seq<Seq<char>>, n: Seq<char>) -> int {
    arg_score_upto(es, ps, n, ps.len() as int)
}

pub open spec fn arg_candidate(
    es: Seq<EntryP>,
    ps: Seq<Seq<char>>,
    partial: Seq<char>,
    exclude: Seq<Seq<char>>,
    n: Seq<char>,
) -> bool {
    has_prefix(n, partial) && !exclude.contains(n) && arg_score(es, ps, n) > 0
}

pub open spec fn value_score_upto(
    es: Seq<EntryP>,
    ps: Seq<Seq<char>>,
    n: Seq<char>,
    v: Seq<char>,
    j: int,
) -> int
    decreases j,
{
    if j <= 0 {
        0
    } else {
        max_int(
            value_score_upto(es, ps, n, v, j - 1),
            value_count(es, ps[j - 1], n, v) * value_boost(j - 1, ps.len() as int),
        )
    }
}

/// Score of value `v` of flag `n` under the prefixes: the best boosted count.
pub open spec fn value_score(es: Seq<EntryP>, ps: Seq<Seq<char>>, n: Seq<char>, v: Seq<char>) -> int {
    value_score_upto(es, ps, n, v, ps.len() as int)
}

pub open spec fn value_candidate(
    es: Seq<EntryP>,
    ps: Seq<Seq<char>>,
    n: Seq<char>,
    partial: Seq<char>,
    v: Seq<char>,
) -> bool {
    has_prefix(v, partial) && value_score(es, ps, n, v) > 0
}

pub open spec fn global_candidate(es: Seq<EntryP>, n: Seq<char>, partial: Seq<char>, v: Seq<char>) -> bool {
    has_prefix(v, partial) && global_count(es, n, v) > 0
}

pub open spec fn sugg_view(r: Seq<Suggestion>) -> Seq<ScoredV> {
    r.map_values(|s: Suggestion| (s.text@, s.score as int))
}

pub open spec fn all_of_type(r: Seq<Suggestion>, t: SuggestionType) -> bool {
    forall|i: int| 0 <= i < r.len() ==> (#[trigger] r[i]).suggestion_type == t
}

proof fn lemma_count_eq_pos(ps: Seq<Seq<char>>, p: Seq<char>)
    requires
        count_eq(ps, p) > 0,
    ensures
        exists|x: int| 0 <= x < ps.len() && ps[x] == p,
    decreases ps.len(),
{
    if ps.last() != p {
        lemma_count_eq_pos(ps.drop_last(), p);
        let x = choose|x: int| 0 <= x < ps.len() - 1 && ps.drop_last()[x] == p;
        assert(ps[x] == p);
    } else {
        assert(ps[ps.len() - 1] == p);
    }
}

proof fn lemma_count_name_pos(args: Seq<ArgV>, n: Seq<char>)
    requires
        count_name(args, n) > 0,
    ensures
        exists|b: int| 0 <= b < args.len() && args[b].0 == n,
    decreases args.len(),
{
    if args.last().0 != n {
        lemma_count_name_pos(args.drop_last(), n);
        let b = choose|b: int| 0 <= b < args.len() - 1 && args.drop_last()[b].0 == n;
        assert(args[b].0 == n);
    } else {
        assert(args[args.len() - 1].0 == n);
    }
}

proof fn lemma_count_value_pos(args: Seq<ArgV>, n: Seq<char>, v: Seq<char>)
    requires
        count_value(args, n, v) > 0,
    ensures
        exists|b: int| 0 <= b < args.len() && args[b].0 == n && args[b].1 == Some(v),
    decreases args.len(),
{
    if !(args.last().0 == n && args.last().1 == Some(v)) {
        lemma_count_value_pos(args.drop_last(), n, v);
        let b = choose|b: int|
            0 <= b < args.len() - 1 && args.drop_last()[b].0 == n && args.drop_last()[b].1 == Some(v);
        assert(args[b] == args.drop_last()[b]);
    } else {
        assert(args[args.len() - 1] == args.last());
    }
}

proof fn lemma_pos_factors(a: int, b: int, c: int)
    requires
        a >= 0,
        b >= 0,
        c >= 0,
        a * b * c > 0,
    ensures
        b > 0,
        c > 0,
{
    if b == 0 {
        assert(a * b == 0) by (nonlinear_arith)
            requires
                b == 0,
        ;
    }
    if c == 0 {
        assert(a * b * c == 0) by (nonlinear_arith)
            requires
                c == 0,
        ;
    }
}

proof fn lemma_total_arg_pos(es: Seq<EntryP>, p: Seq<char>, n: Seq<char>)
    requires
        total_arg(es, p, n) > 0,
    ensures
        exists|a: int| 0 <= a < es.len() && count_eq(es[a].0, p) > 0 && count_name(es[a].1, n) > 0,
    decreases es.len(),
{
    let e = es.last();
    let t = e.2 * count_eq(e.0, p) * count_name(e.1, n);
    assert(t >= 0) by (nonlinear_arith)
        requires
            t == e.2 * count_eq(e.0, p) * count_name(e.1, n),
    ;
    if t > 0 {
        lemma_pos_factors(e.2 as int, count_eq(e.0, p) as int, count_name(e.1, n) as int);
        assert(es[es.len() - 1] == e);
    } else {
        lemma_total_arg_pos(es.drop_last(), p, n);
        let a = choose|a: int|
            0 <= a < es.len() - 1 && count_eq(es.drop_last()[a].0, p) > 0 && count_name(
                es.drop_last()[a].1,
                n,
            ) > 0;
        assert(es[a] == es.drop_last()[a]);
    }
}

proof fn lemma_total_value_pos(es: Seq<EntryP>, p: Seq<char>, n: Seq<char>, v: Seq<char>)
    requires
        total_value(es, p, n, v) > 0,
    ensures
        exists|a: int|
            0 <= a < es.len() && count_eq(es[a].0, p) > 0 && count_value(es[a].1, n, v) > 0,
    decreases es.len(),
{
    let e = es.last();
    let t = e.2 * count_eq(e.0, p) * count_value(e.1, n, v);
    assert(t >= 0) by (nonlinear_arith)
        requires
            t == e.2 * count_eq(e.0, p) * count_value(e.1, n, v),
    ;
    if t > 0 {
        lemma_pos_factors(e.2 as int, count_eq(e.0, p) as int, count_value(e.1, n, v) as int);
        assert(es[es.len() - 1] == e);
    } else {
        lemma_total_value_pos(es.drop_last(), p, n, v);
        let a = choose|a: int|
            0 <= a < es.len() - 1 && count_eq(es.drop_last()[a].0, p) > 0 && count_value(
                es.drop_last()[a].1,
                n,
                v,
            ) > 0;
        assert(es[a] == es.drop_last()[a]);
    }
}

proof fn lemma_total_global_pos(es: Seq<EntryP>, n: Seq<char>, v: Seq<char>)
    requires
        total_global(es, n, v) > 0,
    ensures
        exists|a: int| 0 <= a < es.len() && es[a].0.len() > 0 && count_value(es[a].1, n, v) > 0,
    decreases es.len(),
{
    let e = es.last();
    let t = e.2 * e.0.len() * count_value(e.1, n, v);
    assert(t >= 0) by (nonlinear_arith)
        requires
            t == e.2 * e.0.len() * count_value(e.1, n, v),
    ;
    if t > 0 {
        lemma_pos_factors(e.2 as int, e.0.len() as int, count_value(e.1, n, v) as int);
        assert(es[es.len() - 1] == e);
    } else {
        lemma_total_global_pos(es.drop_last(), n, v);
        let a = choose|a: int|
            0 <= a < es.len() - 1 && es.drop_last()[a].0.len() > 0 && count_value(
                es.drop_last()[a].1,
                n,
                v,
            ) > 0;
        assert(es[a] == es.drop_last()[a]);
    }
}

proof fn lemma_arg_score_pos(es: Seq<EntryP>, ps: Seq<Seq<char>>, n: Seq<char>, j: int)
    requires
        0 <= j <= ps.len(),
        arg_score_upto(es, ps, n, j) > 0,
    ensures
        exists|i: int| 0 <= i < j && arg_count(es, ps[i], n) > 0,
    decreases j,
{
    if arg_score_upto(es, ps, n, j - 1) > 0 {
        lemma_arg_score_pos(es, ps, n, j - 1);
    } else {
        assert(arg_count(es, ps[j - 1], n) > 0);
    }
}

proof fn lemma_value_score_pos(es: Seq<EntryP>, ps: Seq<Seq<char>>, n: Seq<char>, v: Seq<char>, j: int)
    requires
        0 <= j <= ps.len(),
        value_score_upto(es, ps, n, v, j) > 0,
    ensures
        exists|i: int| 0 <= i < j && value_count(es, ps[i], n, v) > 0,
    decreases j,
{
    if value_score_upto(es, ps, n, v, j - 1) > 0 {
        lemma_value_score_pos(es, ps, n, v, j - 1);
    } else {
        assert(value_count(es, ps[j - 1], n, v) > 0);
    }
}

pub open spec fn shares(a: Seq<Seq<char>>, b: Seq<Seq<char>>) -> bool {
    exists|x: int, y: int| 0 <= x < a.len() && 0 <= y < b.len() && a[x] == b[y]
}

fn contains_string(v: &[String], n: &String) -> (r: bool)
    ensures
        r == strs(v@).contains(n@),
{
    let mut i: usize = 0;
    while i < v.len()
        invariant
            i <= v@.len(),
            forall|k: int| 0 <= k < i ==> strs(v@)[k] != n@,
        decreases v.len() - i,
    {
        if v[i] == *n {
            assert(strs(v@)[i as int] == n@);
            return true;
        }
        i += 1;
    }
    false
}

fn shares_exec(a: &Vec<String>, b: &[String]) -> (r: bool)
    ensures
        r == shares(strs(a@), strs(b@)),
{
    let mut x: usize = 0;
    while x < a.len()
        invariant
            x <= a@.len(),
            forall|i: int, j: int| 0 <= i < x && 0 <= j < b@.len() ==> strs(a@)[i] != strs(b@)[j],
        decreases a.len() - x,
    {
        if contains_string(b, &a[x]) {
            assert(strs(a@)[x as int] == a@[x as int]@);
            return true;
        }
        x += 1;
    }
    false
}

fn prefix_of_string(n: &String, partial: &[char]) -> (r: bool)
    ensures
        r == has_prefix(n@, partial@),
{
    let c = chars_of(n.as_str());
    crate::text::starts_with(&c, partial)
}

/// `t` is one of the first `q` items of `c`.
pub open spec fn in_prefix(c: Seq<Seq<char>>, q: int, t: Seq<char>) -> bool {
    exists|k: int| 0 <= k < q && c[k] == t
}

proof fn lemma_push_distinct(s: Seq<Seq<char>>, x: Seq<char>)
    requires
        s.no_duplicates(),
        !s.contains(x),
    ensures
        s.push(x).no_duplicates(),
{
    let t = s.push(x);
    assert forall|i: int, j: int| 0 <= i < t.len() && 0 <= j < t.len() && i != j implies t[i] != t[j] by {
        if i == s.len() {
            assert(t[j] == s[j]);
        } else if j == s.len() {
            assert(t[i] == s[i]);
        } else {
            assert(t[i] == s[i] && t[j] == s[j]);
        }
    }
}

proof fn lemma_list_push(l: Seq<ScoredV>, x: Seq<char>, sc: int, c: Seq<Seq<char>>, q: int)
    requires
        0 <= q < c.len(),
        c.no_duplicates(),
        c[q] == x,
        crate::rank::distinct_texts(l),
        forall|i: int| 0 <= i < l.len() ==> in_prefix(c, q, (#[trigger] l[i]).0),
    ensures
        crate::rank::distinct_texts(l.push((x, sc))),
        forall|i: int| 0 <= i < l.len() + 1 ==> in_prefix(c, q + 1, (#[trigger] l.push((x, sc))[i]).0),
{
    let t = l.push((x, sc));
    assert forall|i: int, j: int| 0 <= i < j < t.len() implies t[i].0 != t[j].0 by {
        if j == l.len() {
            let k = choose|k: int| 0 <= k < q && l[i].0 == c[k];
            assert(t[i] == l[i]);
        } else {
            assert(t[i] == l[i] && t[j] == l[j]);
        }
    }
    assert forall|i: int| 0 <= i < l.len() + 1 implies in_prefix(c, q + 1, (#[trigger] t[i]).0) by {
        if i < l.len() {
            let k = choose|k: int| 0 <= k < q && l[i].0 == c[k];
            assert(t[i] == l[i]);
        } else {
            assert(t[i].0 == c[q]);
        }
    }
}

impl SuggestionEngine {
    fn arg_score_of(&self, prefixes: &[String], n: &String) -> (r: u128)
        ensures
            r == arg_score(self.model(), strs(prefixes@), n@),
    {
        let ghost ps = strs(prefixes@);
        let k = prefixes.len();
        let mut best: u128 = 0;
        let mut j: usize = 0;
        while j < k
            invariant
                ps == strs(prefixes@),
                k == ps.len(),
                j <= k,
                best == arg_score_upto(self.model(), ps, n@, j as int),
                0 <= best <= 4 * (u64::MAX as int),
            decreases k - j,
        {
            assert(ps[j as int] == prefixes@[j as int]@);
            let c = self.arg_count_of(&prefixes[j], n) as u128;
            let boost: u128 = if j == k - 1 { 4 } else { 2 };
            let t = c * boost;
            if t > best {
                best = t;
            }
            j += 1;
        }
        best
    }

    fn value_score_of(&self, prefixes: &[String], n: &String, v: &String) -> (r: u128)
        ensures
            r == value_score(self.model(), strs(prefixes@), n@, v@),
    {
        let ghost ps = strs(prefixes@);
        let k = prefixes.len();
        let mut best: u128 = 0;
        let mut j: usize = 0;
        while j < k
            invariant
                ps == strs(prefixes@),
                k == ps.len(),
                j <= k,
                best == value_score_upto(self.model(), ps, n@, v@, j as int),
                0 <= best <= 4 * (u64::MAX as int),
            decreases k - j,
        {
            assert(ps[j as int] == prefixes@[j as int]@);
            let c = self.value_count_of(&prefixes[j], n, v) as u128;
            let boost: u128 = if j == k - 1 { 4 } else { 3 };
            let t = c * boost;
            if t > best {
                best = t;
            }
            j += 1;
        }
        best
    }

    /// Flags seen under the prefixes that start with `partial` and are not in
    /// `exclude`, best first; the innermost prefix counts double.
    pub fn suggest_args(&self, prefixes: &[String], partial: &str, exclude: &[String], limit: usize) -> (r: Vec<Suggestion>)
        ensures
            all_of_type(r@, SuggestionType::Argument),
            ranked_ok(
                sugg_view(r@),
                |n: Seq<char>| arg_candidate(self.model(), strs(prefixes@), partial@, strs(exclude@), n),
                |n: Seq<char>| arg_score(self.model(), strs(prefixes@), n),
                limit as nat,
            ),
    {
        let ghost es = self.model();
        let ghost ps = strs(prefixes@);
        let ghost ex = strs(exclude@);
        let ghost cand = |n: Seq<char>| arg_candidate(es, ps, partial@, ex, n);
        let ghost score = |n: Seq<char>| arg_score(es, ps, n);
        let pc = chars_of(partial);
        let mut cands: Vec<String> = Vec::new();
        let mut a: usize = 0;
        while a < self.entries.len()
            invariant
                es == self.model(),
                ps == strs(prefixes@),
                ex == strs(exclude@),
                pc@ == partial@,
                strs(cands@).no_duplicates(),
                a <= es.len(),
                forall|a2: int, b2: int|
                    0 <= a2 < a && 0 <= b2 < es[a2].1.len() && shares(es[a2].0, ps) && has_prefix(
                        (#[trigger] es[a2].1[b2]).0,
                        partial@,
                    ) && !ex.contains(es[a2].1[b2].0) ==> strs(cands@).contains(es[a2].1[b2].0),
            decreases self.entries.len() - a,
        {
            let e = &self.entries[a];
            assert(es[a as int] == e@);
            if shares_exec(&e.parsed.prefixes, prefixes) {
                let mut b: usize = 0;
                while b < e.parsed.args.len()
                    invariant
                        es == self.model(),
                        ps == strs(prefixes@),
                        ex == strs(exclude@),
                        pc@ == partial@,
                        strs(cands@).no_duplicates(),
                        a < es.len(),
                        es[a as int] == e@,
                        shares(es[a as int].0, ps),
                        b <= es[a as int].1.len(),
                        forall|a2: int, b2: int|
                            0 <= a2 < a && 0 <= b2 < es[a2].1.len() && shares(es[a2].0, ps)
                                && has_prefix((#[trigger] es[a2].1[b2]).0, partial@) && !ex.contains(
                                es[a2].1[b2].0,
                            ) ==> strs(cands@).contains(es[a2].1[b2].0),
                        forall|b2: int|
                            0 <= b2 < b && has_prefix((#[trigger] es[a as int].1[b2]).0, partial@)
                                && !ex.contains(es[a as int].1[b2].0) ==> strs(cands@).contains(
                                es[a as int].1[b2].0,
                            ),
                    decreases e.parsed.args.len() - b,
                {
                    let n = &e.parsed.args[b].name;
                    assert(es[a as int].1[b as int] == e.parsed.args@[b as int]@);
                    if prefix_of_string(n, &pc) && !contains_string(exclude, n) && !contains_string(&cands, n) {
                        let ghost before = strs(cands@);
                        cands.push(copy_string(n));
                        assert(strs(cands@) =~= before.push(n@));
                        proof { lemma_push_contains(before, n@); lemma_push_distinct(before, n@); }
                    }
                    b += 1;
                }
            }
            a += 1;
        }
        let mut list: Vec<(String, u128)> = Vec::new();
        let mut q: usize = 0;
        while q < cands.len()
            invariant
                es == self.model(),
                ps == strs(prefixes@),
                ex == strs(exclude@),
                cand == (|n: Seq<char>| arg_candidate(es, ps, partial@, ex, n)),
                score == (|n: Seq<char>| arg_score(es, ps, n)),
                pc@ == partial@,
                q <= cands@.len(),
                strs(cands@).no_duplicates(),
                crate::rank::distinct_texts(scored_view(list@)),
                forall|i: int| 0 <= i < list@.len() ==> in_prefix(strs(cands@), q as int, (#[trigger] scored_view(list@)[i]).0),
                forall|i: int|
                    0 <= i < list@.len() ==> cand(#[trigger] scored_view(list@)[i].0)
                        && scored_view(list@)[i].1 == score(scored_view(list@)[i].0),
                forall|i: int|
                    0 <= i < q && score(#[trigger] strs(cands@)[i]) > 0 && has_prefix(strs(cands@)[i], partial@)
                        && !ex.contains(strs(cands@)[i]) ==> exists|k: int|
                        0 <= k < list@.len() && scored_view(list@)[k].0 == strs(cands@)[i],
            decreases cands.len() - q,
        {
            let n = &cands[q];
            assert(strs(cands@)[q as int] == n@);
            let s = self.arg_score_of(prefixes, n);
            let ok = prefix_of_string(n, &pc) && !contains_string(exclude, n);
            if s > 0 && ok {
                let ghost before = scored_view(list@);
                list.push((copy_string(n), s));
                assert(scored_view(list@) =~= before.push((n@, s as int)));
                proof { lemma_list_push(before, n@, s as int, strs(cands@), q as int); }
                assert(cand(n@));
                assert(s == score(n@));
                assert(scored_view(list@)[before.len() as int].0 == n@);
                assert forall|i: int|
                    0 <= i < q && score(#[trigger] strs(cands@)[i]) > 0 && has_prefix(strs(cands@)[i], partial@)
                        && !ex.contains(strs(cands@)[i]) implies exists|k: int|
                        0 <= k < list@.len() && scored_view(list@)[k].0 == strs(cands@)[i] by {
                    let k = choose|k: int| 0 <= k < before.len() && before[k].0 == strs(cands@)[i];
                    assert(scored_view(list@)[k] == before[k]);
                }
            }
            proof {
                if s > 0 && ok {
                    let k = (list@.len() - 1) as int;
                    assert(scored_view(list@)[k].0 == strs(cands@)[q as int]);
                }
            }
            q += 1;
        }
        proof {
            let lv = scored_view(list@);
            assert forall|x: Seq<char>| #![trigger cand(x)] cand(x) implies exists|i: int|
                0 <= i < lv.len() && (#[trigger] lv[i]).0 == x by {
                lemma_arg_score_pos(es, ps, x, ps.len() as int);
                let j = choose|j: int| 0 <= j < ps.len() && arg_count(es, ps[j], x) > 0;
                lemma_total_arg_pos(es, ps[j], x);
                let a2 = choose|a2: int|
                    0 <= a2 < es.len() && count_eq(es[a2].0, ps[j]) > 0 && count_name(es[a2].1, x) > 0;
                lemma_count_eq_pos(es[a2].0, ps[j]);
                lemma_count_name_pos(es[a2].1, x);
                let b2 = choose|b2: int| 0 <= b2 < es[a2].1.len() && es[a2].1[b2].0 == x;
                let xi = choose|xi: int| 0 <= xi < es[a2].0.len() && es[a2].0[xi] == ps[j];
                assert(shares(es[a2].0, ps));
                assert(strs(cands@).contains(es[a2].1[b2].0));
                let qi = choose|qi: int| 0 <= qi < strs(cands@).len() && strs(cands@)[qi] == x;
                assert(score(strs(cands@)[qi]) > 0);
            }
            lemma_ranked_ok(lv, cand, score, limit as nat);
        }
        let top = top_scored(list, limit);
        let mut out: Vec<Suggestion> = Vec::new();
        let mut i: usize = 0;
        while i < top.len()
            invariant
                i <= top@.len(),
                sugg_view(out@) == scored_view(top@).take(i as int),
                all_of_type(out@, SuggestionType::Argument),
            decreases top.len() - i,
        {
            let s = Suggestion {
                text: copy_string(&top[i].0),
                score: top[i].1,
                suggestion_type: SuggestionType::Argument,
            };
            let ghost before = sugg_view(out@);
            out.push(s);
            assert(sugg_view(out@) =~= before.push((s.text@, s.score as int)));
            i += 1;
            assert(sugg_view(out@) =~= scored_view(top@).take(i as int));
        }
        assert(scored_view(top@).take(i as int) =~= scored_view(top@));
        out
    }
}

} // verus!

verus! {

fn to_suggestions(top: &Vec<(String, u128)>, t: SuggestionType) -> (out: Vec<Suggestion>)
    ensures
        sugg_view(out@) == scored_view(top@),
        all_of_type(out@, t),
{
    let mut out: Vec<Suggestion> = Vec::new();
    let mut i: usize = 0;
    while i < top.len()
        invariant
            i <= top@.len(),
            sugg_view(out@) == scored_view(top@).take(i as int),
            all_of_type(out@, t),
        decreases top.len() - i,
    {
        let s = Suggestion { text: copy_string(&top[i].0), score: top[i].1, suggestion_type: t };
        let ghost before = sugg_view(out@);
        out.push(s);
        assert(sugg_view(out@) =~= before.push((s.text@, s.score as int)));
        i += 1;
        assert(sugg_view(out@) =~= scored_view(top@).take(i as int));
    }
    assert(scored_view(top@).take(i as int) =~= scored_view(top@));
    out
}

impl SuggestionEngine {
    /// Values of `n` that start with `partial`, seen under a prefix that
    /// `ps` shares (`global` false) or under any prefix (`global` true).
    fn value_scan(&self, prefixes: &[String], n: &String, pc: &Vec<char>, global: bool) -> (cands: Vec<String>)
        ensures
            strs(cands@).no_duplicates(),
            forall|a2: int, b2: int|
                0 <= a2 < self.model().len() && 0 <= b2 < self.model()[a2].1.len() && (if global {
                    self.model()[a2].0.len() > 0
                } else {
                    shares(self.model()[a2].0, strs(prefixes@))
                }) && (#[trigger] self.model()[a2].1[b2]).0 == n@ && self.model()[a2].1[b2].1 is Some
                    && has_prefix(self.model()[a2].1[b2].1->0, pc@) ==> strs(cands@).contains(self.model()[a2].1[b2].1->0),
    {
        let ghost es = self.model();
        let ghost ps = strs(prefixes@);
        let mut cands: Vec<String> = Vec::new();
        let mut a: usize = 0;
        while a < self.entries.len()
            invariant
                es == self.model(),
                ps == strs(prefixes@),
                strs(cands@).no_duplicates(),
                a <= es.len(),
                forall|a2: int, b2: int|
                    0 <= a2 < a && 0 <= b2 < es[a2].1.len() && (if global {
                        es[a2].0.len() > 0
                    } else {
                        shares(es[a2].0, ps)
                    }) && (#[trigger] es[a2].1[b2]).0 == n@ && es[a2].1[b2].1 is Some
                        && has_prefix(es[a2].1[b2].1->0, pc@) ==> strs(cands@).contains(es[a2].1[b2].1->0),
            decreases self.entries.len() - a,
        {
            let e = &self.entries[a];
            assert(es[a as int] == e@);
            assert(strs(e.parsed.prefixes@).len() == e.parsed.prefixes@.len());
            let hit = if global { e.parsed.prefixes.len() > 0 } else { shares_exec(&e.parsed.prefixes, prefixes) };
            if hit {
                let mut b: usize = 0;
                while b < e.parsed.args.len()
                    invariant
                        es == self.model(),
                        ps == strs(prefixes@),
                        strs(cands@).no_duplicates(),
                        a < es.len(),
                        es[a as int] == e@,
                        b <= es[a as int].1.len(),
                        forall|a2: int, b2: int|
                            0 <= a2 < a && 0 <= b2 < es[a2].1.len() && (if global {
                                es[a2].0.len() > 0
                            } else {
                                shares(es[a2].0, ps)
                            }) && (#[trigger] es[a2].1[b2]).0 == n@ && es[a2].1[b2].1 is Some
                                && has_prefix(es[a2].1[b2].1->0, pc@) ==> strs(cands@).contains(es[a2].1[b2].1->0),
                        forall|b2: int|
                            0 <= b2 < b && (#[trigger] es[a as int].1[b2]).0 == n@
                                && es[a as int].1[b2].1 is Some && has_prefix(es[a as int].1[b2].1->0, pc@)
                                ==> strs(cands@).contains(es[a as int].1[b2].1->0),
                    decreases e.parsed.args.len() - b,
                {
                    let arg = &e.parsed.args[b];
                    assert(es[a as int].1[b as int] == arg@);
                    if arg.name == *n {
                        match &arg.value {
                            Some(v) => {
                                if prefix_of_string(v, pc) && !contains_string(&cands, v) {
                                    let ghost before = strs(cands@);
                                    cands.push(copy_string(v));
                                    assert(strs(cands@) =~= before.push(v@));
                                    proof { lemma_push_contains(before, v@); lemma_push_distinct(before, v@); }
                                }
                            },
                            None => {},
                        }
                    }
                    b += 1;
                }
            }
            a += 1;
        }
        cands
    }

    /// Values of flag `arg_name` that start with `partial`, best first: those
    /// seen under the prefixes (innermost double, others one and a half), or,
    /// where there are none, those seen under any prefix.
    pub fn suggest_arg_values(&self, prefixes: &[String], arg_name: &str, partial: &str, limit: usize) -> (r: Vec<Suggestion>)
        ensures
            all_of_type(r@, SuggestionType::ArgumentValue),
            (exists|v: Seq<char>| value_candidate(self.model(), strs(prefixes@), arg_name@, partial@, v))
                ==> ranked_ok(
                sugg_view(r@),
                |v: Seq<char>| value_candidate(self.model(), strs(prefixes@), arg_name@, partial@, v),
                |v: Seq<char>| value_score(self.model(), strs(prefixes@), arg_name@, v),
                limit as nat,
            ),
            !(exists|v: Seq<char>| value_candidate(self.model(), strs(prefixes@), arg_name@, partial@, v))
                ==> ranked_ok(
                sugg_view(r@),
                |v: Seq<char>| global_candidate(self.model(), arg_name@, partial@, v),
                |v: Seq<char>| 2 * global_count(self.model(), arg_name@, v),
                limit as nat,
            ),
    {
        let ghost es = self.model();
        let ghost ps = strs(prefixes@);
        let n = String::from_str(arg_name);
        let pc = chars_of(partial);
        let ghost cand = |v: Seq<char>| value_candidate(es, ps, n@, partial@, v);
        let ghost score = |v: Seq<char>| value_score(es, ps, n@, v);
        let cands = self.value_scan(prefixes, &n, &pc, false);
        let mut list: Vec<(String, u128)> = Vec::new();
        let mut q: usize = 0;
        while q < cands.len()
            invariant
                es == self.model(),
                ps == strs(prefixes@),
                cand == (|v: Seq<char>| value_candidate(es, ps, n@, partial@, v)),
                score == (|v: Seq<char>| value_score(es, ps, n@, v)),
                pc@ == partial@,
                q <= cands@.len(),
                strs(cands@).no_duplicates(),
                crate::rank::distinct_texts(scored_view(list@)),
                forall|i: int| 0 <= i < list@.len() ==> in_prefix(strs(cands@), q as int, (#[trigger] scored_view(list@)[i]).0),
                forall|i: int|
                    0 <= i < list@.len() ==> cand(#[trigger] scored_view(list@)[i].0)
                        && scored_view(list@)[i].1 == score(scored_view(list@)[i].0),
                forall|i: int|
                    0 <= i < q && cand(#[trigger] strs(cands@)[i]) ==> exists|k: int|
                        0 <= k < list@.len() && scored_view(list@)[k].0 == strs(cands@)[i],
            decreases cands.len() - q,
        {
            let v = &cands[q];
            assert(strs(cands@)[q as int] == v@);
            let s = self.value_score_of(prefixes, &n, v);
            if s > 0 && prefix_of_string(v, &pc) {
                let ghost before = scored_view(list@);
                list.push((copy_string(v), s));
                assert(scored_view(list@) =~= before.push((v@, s as int)));
                proof { lemma_list_push(before, v@, s as int, strs(cands@), q as int); }
                assert(cand(v@));
                assert(scored_view(list@)[before.len() as int].0 == v@);
                assert forall|i: int| 0 <= i < q && cand(#[trigger] strs(cands@)[i]) implies exists|k: int|
                    0 <= k < list@.len() && scored_view(list@)[k].0 == strs(cands@)[i] by {
                    let k = choose|k: int| 0 <= k < before.len() && before[k].0 == strs(cands@)[i];
                    assert(scored_view(list@)[k] == before[k]);
                }
            }
            q += 1;
        }
        proof {
            assert forall|x: Seq<char>| #![trigger cand(x)] cand(x) implies exists|i: int|
                0 <= i < scored_view(list@).len() && (#[trigger] scored_view(list@)[i]).0 == x by {
                lemma_value_score_pos(es, ps, n@, x, ps.len() as int);
                let j = choose|j: int| 0 <= j < ps.len() && value_count(es, ps[j], n@, x) > 0;
                lemma_total_value_pos(es, ps[j], n@, x);
                let a2 = choose|a2: int|
                    0 <= a2 < es.len() && count_eq(es[a2].0, ps[j]) > 0 && count_value(es[a2].1, n@, x) > 0;
                lemma_count_eq_pos(es[a2].0, ps[j]);
                lemma_count_value_pos(es[a2].1, n@, x);
                let b2 = choose|b2: int| 0 <= b2 < es[a2].1.len() && es[a2].1[b2].0 == n@ && es[a2].1[b2].1 == Some(x);
                let xi = choose|xi: int| 0 <= xi < es[a2].0.len() && es[a2].0[xi] == ps[j];
                assert(shares(es[a2].0, ps));
                assert(strs(cands@).contains(x));
                let qi = choose|qi: int| 0 <= qi < strs(cands@).len() && strs(cands@)[qi] == x;
            }
        }
        if list.len() > 0 {
            proof {
                lemma_ranked_ok(scored_view(list@), cand, score, limit as nat);
                assert(cand(scored_view(list@)[0].0));
            }
            let top = top_scored(list, limit);
            return to_suggestions(&top, SuggestionType::ArgumentValue);
        }
        proof {
            assert forall|x: Seq<char>| #![trigger cand(x)] !cand(x) by {
                if cand(x) {
                    let i = choose|i: int| 0 <= i < scored_view(list@).len() && (#[trigger] scored_view(list@)[i]).0 == x;
                }
            }
            assert(!(exists|v: Seq<char>| value_candidate(es, ps, arg_name@, partial@, v))) by {
                if exists|v: Seq<char>| value_candidate(es, ps, arg_name@, partial@, v) {
                    let v = choose|v: Seq<char>| value_candidate(es, ps, arg_name@, partial@, v);
                    assert(cand(v));
                }
            }
        }
        let ghost gcand = |v: Seq<char>| global_candidate(es, n@, partial@, v);
        let ghost gscore = |v: Seq<char>| 2 * global_count(es, n@, v);
        let gc = self.value_scan(prefixes, &n, &pc, true);
        let mut glist: Vec<(String, u128)> = Vec::new();
        let mut q: usize = 0;
        while q < gc.len()
            invariant
                es == self.model(),
                gcand == (|v: Seq<char>| global_candidate(es, n@, partial@, v)),
                gscore == (|v: Seq<char>| 2 * global_count(es, n@, v)),
                pc@ == partial@,
                q <= gc@.len(),
                strs(gc@).no_duplicates(),
                crate::rank::distinct_texts(scored_view(glist@)),
                forall|i: int| 0 <= i < glist@.len() ==> in_prefix(strs(gc@), q as int, (#[trigger] scored_view(glist@)[i]).0),
                forall|i: int|
                    0 <= i < glist@.len() ==> gcand(#[trigger] scored_view(glist@)[i].0)
                        && scored_view(glist@)[i].1 == gscore(scored_view(glist@)[i].0),
                forall|i: int|
                    0 <= i < q && gcand(#[trigger] strs(gc@)[i]) ==> exists|k: int|
                        0 <= k < glist@.len() && scored_view(glist@)[k].0 == strs(gc@)[i],
            decreases gc.len() - q,
        {
            let v = &gc[q];
            assert(strs(gc@)[q as int] == v@);
            let c = self.global_count_of(&n, v);
            if c > 0 && prefix_of_string(v, &pc) {
                let s = 2 * (c as u128);
                let ghost before = scored_view(glist@);
                glist.push((copy_string(v), s));
                assert(scored_view(glist@) =~= before.push((v@, s as int)));
                proof { lemma_list_push(before, v@, s as int, strs(gc@), q as int); }
                assert(gcand(v@));
                assert(scored_view(glist@)[before.len() as int].0 == v@);
                assert forall|i: int| 0 <= i < q && gcand(#[trigger] strs(gc@)[i]) implies exists|k: int|
                    0 <= k < glist@.len() && scored_view(glist@)[k].0 == strs(gc@)[i] by {
                    let k = choose|k: int| 0 <= k < before.len() && before[k].0 == strs(gc@)[i];
                    assert(scored_view(glist@)[k] == before[k]);
                }
            }
            q += 1;
        }
        proof {
            assert forall|x: Seq<char>| #![trigger gcand(x)] gcand(x) implies exists|i: int|
                0 <= i < scored_view(glist@).len() && (#[trigger] scored_view(glist@)[i]).0 == x by {
                lemma_total_global_pos(es, n@, x);
                let a2 = choose|a2: int|
                    0 <= a2 < es.len() && es[a2].0.len() > 0 && count_value(es[a2].1, n@, x) > 0;
                lemma_count_value_pos(es[a2].1, n@, x);
                let b2 = choose|b2: int| 0 <= b2 < es[a2].1.len() && es[a2].1[b2].0 == n@ && es[a2].1[b2].1 == Some(x);
                assert(strs(gc@).contains(x));
                let qi = choose|qi: int| 0 <= qi < strs(gc@).len() && strs(gc@)[qi] == x;
            }
            lemma_ranked_ok(scored_view(glist@), gcand, gscore, limit as nat);
        }
        let top = top_scored(glist, limit);
        to_suggestions(&top, SuggestionType::ArgumentValue)
    }
}

} // verus!

verus! {

// ---------------------------------------------------------------- routing

/// Whole-command suggestions from search results, in rank units.
pub open spec fn command_suggestions(rs: Seq<ScoredV>) -> Seq<ScoredV> {
    rs.map_values(|x: ScoredV| (x.0, 2 * x.1))
}

pub open spec fn args_ok(
    es: Seq<EntryP>,
    ps: Seq<Seq<char>>,
    partial: Seq<char>,
    exclude: Seq<Seq<char>>,
    limit: nat,
    r: Seq<Suggestion>,
) -> bool {
    &&& all_of_type(r, SuggestionType::Argument)
    &&& ranked_ok(
        sugg_view(r),
        |n: Seq<char>| arg_candidate(es, ps, partial, exclude, n),
        |n: Seq<char>| arg_score(es, ps, n),
        limit,
    )
}

pub open spec fn values_ok(
    es: Seq<EntryP>,
    ps: Seq<Seq<char>>,
    name: Seq<char>,
    partial: Seq<char>,
    limit: nat,
    r: Seq<Suggestion>,
) -> bool {
    &&& all_of_type(r, SuggestionType::ArgumentValue)
    &&& (exists|v: Seq<char>| value_candidate(es, ps, name, partial, v)) ==> ranked_ok(
        sugg_view(r),
        |v: Seq<char>| value_candidate(es, ps, name, partial, v),
        |v: Seq<char>| value_score(es, ps, name, v),
        limit,
    )
    &&& !(exists|v: Seq<char>| value_candidate(es, ps, name, partial, v)) ==> ranked_ok(
        sugg_view(r),
        |v: Seq<char>| global_candidate(es, name, partial, v),
        |v: Seq<char>| 2 * global_count(es, name, v),
        limit,
    )
}

/// What `suggest` offers for `input` once the commands that the searcher
/// returns for a query are known (`found`): `r` is the answer.
pub open spec fn suggest_ok(
    es: Seq<EntryP>,
    input: Seq<char>,
    limit: nat,
    found: spec_fn(Seq<char>) -> Seq<ScoredV>,
    r: Seq<Suggestion>,
) -> bool {
    let t = crate::text::trim_start(input);
    let sp = split_input_spec(t);
    let c = sp.0;
    let partial = sp.1;
    let ps = prefixes_of(c, prefix_end(c));
    let ex = existing_of(es, c);
    let k = expected_of(es, c);
    let full = command_suggestions(found(t));
    if t.len() == 0 {
        sugg_view(r) == command_suggestions(found(seq![])) && all_of_type(r, SuggestionType::FullCommand)
    } else if k.0 == 0 {
        sugg_view(r) == command_suggestions(found(partial)) && all_of_type(r, SuggestionType::FullCommand)
    } else if full.len() > 0 {
        sugg_view(r) == full && all_of_type(r, SuggestionType::FullCommand)
    } else if k.0 == 1 {
        if has_prefix(partial, seq!['-']) {
            exists|x: Seq<Seq<char>>| x.to_set() == ex && args_ok(es, ps, partial, x, limit, r)
        } else {
            r.len() == 0
        }
    } else if k.0 == 2 {
        exists|x: Seq<Seq<char>>| x.to_set() == ex && args_ok(es, ps, partial, x, limit, r)
    } else {
        let any = (exists|v: Seq<char>| value_candidate(es, ps, k.1, partial, v)) || (exists|v: Seq<char>|
            global_candidate(es, k.1, partial, v));
        if limit > 0 && any {
            values_ok(es, ps, k.1, partial, limit, r)
        } else {
            exists|x: Seq<Seq<char>>| x.to_set() == ex && args_ok(es, ps, partial, x, limit, r)
        }
    }
}

fn commands_from_searcher(searcher: &mut HistorySearcher, query: &str, limit: usize) -> (r: Vec<Suggestion>)
    requires
        old(searcher).wf(),
    ensures
        final(searcher).wf(),
        final(searcher).entries() == old(searcher).entries(),
        final(searcher).store_model() == old(searcher).store_model(),
        sugg_view(r@) == command_suggestions(search_spec(old(searcher).entries(), query@, limit as nat)),
        all_of_type(r@, SuggestionType::FullCommand),
{
    let res = searcher.search(query, limit);
    let ghost rv = results_view(res@);
    let mut out: Vec<Suggestion> = Vec::new();
    let mut i: usize = 0;
    while i < res.len()
        invariant
            rv == results_view(res@),
            i <= res@.len(),
            sugg_view(out@) == command_suggestions(rv.take(i as int)),
            all_of_type(out@, SuggestionType::FullCommand),
        decreases res.len() - i,
    {
        let s = Suggestion {
            text: copy_string(&res[i].command),
            score: 2 * (res[i].score as u128),
            suggestion_type: SuggestionType::FullCommand,
        };
        let ghost before = sugg_view(out@);
        out.push(s);
        assert(sugg_view(out@) =~= before.push((s.text@, s.score as int)));
        i += 1;
        assert(sugg_view(out@) =~= command_suggestions(rv.take(i as int)));
    }
    assert(rv.take(i as int) =~= rv);
    out
}

impl SuggestionEngine {
    /// Suggestions for the input line: whole commands from the searcher
    /// first; where it has none, flags, or values of the flag just typed.
    pub fn suggest(&self, input: &str, searcher: &mut HistorySearcher, limit: usize) -> (r: Vec<Suggestion>)
        requires
            old(searcher).wf(),
        ensures
            final(searcher).wf(),
            final(searcher).entries() == old(searcher).entries(),
            final(searcher).store_model() == old(searcher).store_model(),
            suggest_ok(
                self.model(),
                input@,
                limit as nat,
                |q: Seq<char>| search_spec(old(searcher).entries(), q, limit as nat),
                r@,
            ),
    {
        let ghost es = self.model();
        let ghost found = |q: Seq<char>| search_spec(old(searcher).entries(), q, limit as nat);
        let ic = chars_of(input);
        let start = crate::text::skip_ws(&ic, 0);
        proof { crate::text::lemma_skip_ws_bounds(ic@, 0); }
        let tc = slice_copy(&ic, start, ic.len());
        assert(tc@ =~= crate::text::trim_start(input@));
        let trimmed = string_of(&tc);
        if tc.len() == 0 {
            let e = String::new();
            assert(e@ =~= seq![]);
            return commands_from_searcher(searcher, e.as_str(), limit);
        }
        let (completed, partial) = split_input(trimmed.as_str());
        let ctx = self.analyze_completed(&completed);
        proof {
            assert(strs(completed@) == split_input_spec(trimmed@).0);
        }
        match ctx.next_expected {
            NextExpected::Command => commands_from_searcher(searcher, partial.as_str(), limit),
            NextExpected::Subcommand => {
                let full = commands_from_searcher(searcher, trimmed.as_str(), limit);
                if full.len() > 0 {
                    return full;
                }
                let pc = chars_of(partial.as_str());
                let dash = vec!['-'];
                assert(dash@ =~= seq!['-']);
                if crate::text::starts_with(&pc, &dash) {
                    let r = self.suggest_args(&ctx.prefixes, partial.as_str(), &ctx.existing_args, limit);
                    assert(strs(ctx.existing_args@).to_set() == existing_of(es, strs(completed@)));
                    r
                } else {
                    Vec::new()
                }
            },
            NextExpected::Argument => {
                let full = commands_from_searcher(searcher, trimmed.as_str(), limit);
                if full.len() > 0 {
                    return full;
                }
                self.suggest_args(&ctx.prefixes, partial.as_str(), &ctx.existing_args, limit)
            },
            NextExpected::Value(ref arg_name) => {
                let full = commands_from_searcher(searcher, trimmed.as_str(), limit);
                if full.len() > 0 {
                    return full;
                }
                let vals = self.suggest_arg_values(&ctx.prefixes, arg_name.as_str(), partial.as_str(), limit);
                proof {
                    let ps = strs(ctx.prefixes@);
                    let any = (exists|v: Seq<char>| value_candidate(es, ps, arg_name@, partial@, v)) || (exists|v: Seq<char>|
                        global_candidate(es, arg_name@, partial@, v));
                    if limit > 0 && any {
                        if exists|v: Seq<char>| value_candidate(es, ps, arg_name@, partial@, v) {
                            let v = choose|v: Seq<char>| value_candidate(es, ps, arg_name@, partial@, v);
                            let cand = |v: Seq<char>| value_candidate(es, ps, arg_name@, partial@, v);
                            assert(cand(v));
                        } else {
                            let v = choose|v: Seq<char>| global_candidate(es, arg_name@, partial@, v);
                            let cand = |v: Seq<char>| global_candidate(es, arg_name@, partial@, v);
                            assert(cand(v));
                        }
                    }
                }
                if vals.len() > 0 {
                    proof {
                        let ps = strs(ctx.prefixes@);
                        let sv = sugg_view(vals@);
                        let x = sv[0].0;
                        if !(exists|v: Seq<char>| value_candidate(es, ps, arg_name@, partial@, v)) {
                            let gc = |v: Seq<char>| global_candidate(es, arg_name@, partial@, v);
                            assert(gc(x));
                            assert(global_candidate(es, arg_name@, partial@, x));
                        } else {
                            let vc = |v: Seq<char>| value_candidate(es, ps, arg_name@, partial@, v);
                            assert(vc(x));
                        }
                        assert(sv.len() <= limit);
                    }
                    return vals;
                }
                self.suggest_args(&ctx.prefixes, partial.as_str(), &ctx.existing_args, limit)
            },
        }
    }
}

} // verus!

verus! {

// ---------------------------------------------------------------- laws

/// Flag suggestions never offer a flag that the completed words already hold.
pub proof fn lemma_suggestions_skip_existing(
    es: Seq<EntryP>,
    input: Seq<char>,
    limit: nat,
    found: spec_fn(Seq<char>) -> Seq<ScoredV>,
    r: Seq<Suggestion>,
)
    requires
        suggest_ok(es, input, limit, found, r),
    ensures
        forall|i: int|
            0 <= i < r.len() && (#[trigger] r[i]).suggestion_type == SuggestionType::Argument
                ==> !existing_of(es, split_input_spec(crate::text::trim_start(input)).0).contains(r[i].text@),
{
    let t = crate::text::trim_start(input);
    let sp = split_input_spec(t);
    let c = sp.0;
    let partial = sp.1;
    let ps = prefixes_of(c, prefix_end(c));
    let ex = existing_of(es, c);
    assert forall|i: int|
        0 <= i < r.len() && (#[trigger] r[i]).suggestion_type == SuggestionType::Argument implies !ex.contains(r[i].text@) by {
        if exists|x: Seq<Seq<char>>| x.to_set() == ex && args_ok(es, ps, partial, x, limit, r) {
            let x = choose|x: Seq<Seq<char>>| x.to_set() == ex && args_ok(es, ps, partial, x, limit, r);
            let sv = sugg_view(r);
            assert(sv[i].0 == r[i].text@);
            let cand = |n: Seq<char>| arg_candidate(es, ps, partial, x, n);
            assert(cand(sv[i].0));
            assert(!x.contains(r[i].text@));
            if ex.contains(r[i].text@) {
                assert(x.to_set().contains(r[i].text@));
            }
        }
    }
}

proof fn lemma_prefix_end_of(c: Seq<Seq<char>>, n: int, i: int)
    requires
        0 <= i <= n < c.len(),
        forall|k: int| 0 <= k < n ==> !is_flag(#[trigger] c[k]),
        is_flag(c[n]),
    ensures
        prefix_end_from(c, i) == n,
    decreases n - i,
{
    if i < n {
        lemma_prefix_end_of(c, n, i + 1);
    }
}

/// After `pfx -flag VAL` with a flag known to take a value, the input
/// expects another flag, and `-flag` counts as present.
pub proof fn lemma_value_aware(es: Seq<EntryP>, ps: Seq<Seq<char>>, f: Seq<char>, v: Seq<char>)
    requires
        forall|k: int| 0 <= k < ps.len() ==> !is_flag(#[trigger] ps[k]),
        is_flag(f),
        find(f, '=') is None,
        f != end_of_options(),
        takes_value(es, f),
        !is_flag(v),
    ensures
        expected_of(es, ps + seq![f, v]).0 == 2,
        existing_of(es, ps + seq![f, v]).contains(f),
{
    let c = ps + seq![f, v];
    let n = ps.len() as int;
    assert(c[n] == f);
    assert(c[n + 1] == v);
    assert forall|k: int| 0 <= k < n implies !is_flag(#[trigger] c[k]) by {
        assert(c[k] == ps[k]);
    }
    lemma_prefix_end_of(c, n, 0);
    assert(c.last() == v);
    assert(walk_args(es, c, n) == walk_args(es, c, n + 2).insert(f));
}

} // verus!
