//! Shell history files: bash, zsh (plain and extended) and fish.
use vstd::prelude::*;
use crate::text::{
    chars_of, find, find_char, has_prefix, lemma_find_from, lines, parse_i64, parse_i64_spec,
    push_char, slice_copy, split_lines, split_on, split_on_char, starts_with, string_of, trim,
    trim_chars, vecs,
};

verus! {

#[derive(Debug, Clone, Copy, PartialEq, Eq, Structural)]
pub enum Shell {
    Bash,
    Zsh,
    Fish,
}

/// One command read from a history file, with its timestamp if the file has one.
#[derive(Debug, Clone)]
pub struct HistoryEntry {
    pub command: String,
    pub timestamp: Option<i64>,
}

/// An entry as a value: the command's characters and the timestamp.
pub type EntryV = (Seq<char>, Option<i64>);

impl View for HistoryEntry {
    type V = EntryV;

    open spec fn view(&self) -> EntryV {
        (self.command@, self.timestamp)
    }
}

pub open spec fn entries(v: Seq<HistoryEntry>) -> Seq<EntryV> {
    v.map_values(|e: HistoryEntry| e@)
}

pub fn make_entry(command: &[char], timestamp: Option<i64>) -> (r: HistoryEntry)
    ensures
        r@ == (command@, timestamp),
{
    HistoryEntry { command: string_of(command), timestamp }
}

fn push_entry(out: &mut Vec<HistoryEntry>, e: HistoryEntry)
    ensures
        final(out)@ == old(out)@.push(e),
        entries(final(out)@) == entries(old(out)@).push(e@),
{
    out.push(e);
    assert(entries(out@) =~= entries(old(out)@).push(e@));
}

// ---------------------------------------------------------------- bash

/// Timestamp of a bash marker line `#<integer>`, if the line is one.
pub open spec fn bash_marker(l: Seq<char>) -> Option<i64> {
    if l.len() > 0 && l[0] == '#' {
        parse_i64_spec(trim(l.drop_first()))
    } else {
        None
    }
}

/// The entries of bash history lines: a marker line gives its timestamp to
/// the line after it; every other line is a command without a timestamp.
pub open spec fn bash_entries(ls: Seq<Seq<char>>) -> Seq<EntryV>
    decreases ls.len(),
{
    if ls.len() == 0 {
        seq![]
    } else {
        match bash_marker(ls[0]) {
            Some(ts) => if ls.len() >= 2 {
                seq![(ls[1], Some(ts))] + bash_entries(ls.skip(2))
            } else {
                seq![]
            },
            None => seq![(ls[0], None::<i64>)] + bash_entries(ls.drop_first()),
        }
    }
}

fn bash_marker_exec(l: &[char]) -> (r: Option<i64>)
    ensures
        r == bash_marker(l@),
{
    if l.len() > 0 && l[0] == '#' {
        let rest = slice_copy(l, 1, l.len());
        assert(rest@ =~= l@.drop_first());
        let t = trim_chars(&rest);
        parse_i64(&t)
    } else {
        None
    }
}

/// Parses the text of a bash history file.
pub fn parse_bash_history(text: &str) -> (r: Vec<HistoryEntry>)
    ensures
        entries(r@) == bash_entries(lines(text@)),
{
    let chars = chars_of(text);
    let ls = split_lines(&chars);
    let ghost lv = vecs(ls@);
    let mut out: Vec<HistoryEntry> = Vec::new();
    let mut i: usize = 0;
    assert(lv.skip(0) =~= lv);
    while i < ls.len()
        invariant
            i <= ls@.len(),
            lv == vecs(ls@),
            lv == lines(text@),
            entries(out@) + bash_entries(lv.skip(i as int)) == bash_entries(lv),
        decreases ls.len() - i,
    {
        let ghost rest = lv.skip(i as int);
        assert(rest[0] == ls@[i as int]@);
        match bash_marker_exec(&ls[i]) {
            Some(ts) => {
                if i + 1 < ls.len() {
                    assert(rest[1] == ls@[i + 1]@);
                    assert(rest.skip(2) =~= lv.skip(i + 2));
                    let e = make_entry(&ls[i + 1], Some(ts));
                    push_entry(&mut out, e);
                    i += 2;
                } else {
                    i += 1;
                    assert(lv.skip(i as int) =~= seq![]);
                }
            },
            None => {
                assert(rest.drop_first() =~= lv.skip(i + 1));
                let e = make_entry(&ls[i], None);
                push_entry(&mut out, e);
                i += 1;
            },
        }
    }
    assert(lv.skip(i as int) =~= seq![]);
    assert(entries(out@) =~= bash_entries(lv));
    out
}

} // verus!

verus! {

// ---------------------------------------------------------------- zsh

/// Joins continuation lines: a line ending in a backslash is continued by the
/// next one, the backslash becoming a line feed.
pub open spec fn join_continuations(ls: Seq<Seq<char>>) -> Seq<Seq<char>>
    decreases ls.len(),
{
    if ls.len() == 0 {
        seq![]
    } else {
        let j = join_continuations(ls.drop_last());
        if j.len() > 0 && ends_in_backslash(j.last()) {
            j.update(j.len() - 1, j.last().drop_last().push('\n') + ls.last())
        } else {
            j.push(ls.last())
        }
    }
}

pub open spec fn ends_in_backslash(l: Seq<char>) -> bool {
    l.len() > 0 && l.last() == '\\'
}

pub fn join_continuation_lines(ls: &Vec<Vec<char>>) -> (r: Vec<Vec<char>>)
    ensures
        vecs(r@) == join_continuations(vecs(ls@)),
{
    let ghost lv = vecs(ls@);
    let mut out: Vec<Vec<char>> = Vec::new();
    let mut i: usize = 0;
    while i < ls.len()
        invariant
            i <= ls@.len(),
            lv == vecs(ls@),
            vecs(out@) == join_continuations(lv.take(i as int)),
        decreases ls.len() - i,
    {
        let ghost t = lv.take(i as int + 1);
        assert(t.drop_last() =~= lv.take(i as int));
        assert(t.last() == ls@[i as int]@);
        let n = out.len();
        if n > 0 && out[n - 1].len() > 0 && out[n - 1][out[n - 1].len() - 1] == '\\' {
            assert(vecs(out@).last() == out@[n - 1]@);
            let mut last = out.pop().unwrap();
            let ghost before = vecs(out@);
            last.pop();
            last.push('\n');
            let mut k: usize = 0;
            let ghost head = last@;
            while k < ls[i].len()
                invariant
                    i < ls@.len(),
                    k <= ls@[i as int]@.len(),
                    last@ == head + ls@[i as int]@.take(k as int),
                decreases ls@[i as int]@.len() - k,
            {
                last.push(ls[i][k]);
                k += 1;
                assert(last@ =~= head + ls@[i as int]@.take(k as int));
            }
            assert(ls@[i as int]@.take(k as int) =~= ls@[i as int]@);
            out.push(last);
            assert(vecs(out@) =~= join_continuations(t));
        } else {
            let ghost before = vecs(out@);
            out.push(ls[i].clone());
            assert(vecs(out@) =~= before.push(ls@[i as int]@));
        }
        i += 1;
    }
    assert(lv.take(ls@.len() as int) =~= lv);
    out
}

/// The zsh extended form `: <ts>:<dur>;<command>`: two integer fields before
/// the first semicolon.
pub open spec fn zsh_extended(l: Seq<char>) -> Option<EntryV> {
    if has_prefix(l, seq![':', ' ']) {
        let rest = l.skip(2);
        match find(rest, ';') {
            Some(p) => {
                let parts = split_on(rest.take(p), ':');
                if parts.len() == 2 && parse_i64_spec(parts[0]) is Some && parse_i64_spec(
                    parts[1],
                ) is Some {
                    Some((rest.skip(p + 1), Some(parse_i64_spec(parts[0])->0)))
                } else {
                    None
                }
            },
            None => None,
        }
    } else {
        None
    }
}

/// The entry of one joined zsh line.
pub open spec fn zsh_line_entry(l: Seq<char>) -> EntryV {
    match zsh_extended(l) {
        Some(e) => e,
        None => (l, None),
    }
}

/// The entries of joined zsh lines; empty lines give none.
pub open spec fn zsh_parse_joined(js: Seq<Seq<char>>) -> Seq<EntryV>
    decreases js.len(),
{
    if js.len() == 0 {
        seq![]
    } else {
        let e = zsh_parse_joined(js.drop_last());
        if js.last().len() == 0 {
            e
        } else {
            e.push(zsh_line_entry(js.last()))
        }
    }
}

pub open spec fn zsh_entries(text: Seq<char>) -> Seq<EntryV> {
    zsh_parse_joined(join_continuations(lines(text)))
}

impl HistoryReader {
    /// Parses one line in the zsh extended form; `None` if it is not in it.
    pub fn parse_zsh_extended_line(line: &str) -> (r: Option<HistoryEntry>)
        ensures
            r matches Some(e) ==> zsh_extended(line@) == Some(e@),
            r is None ==> zsh_extended(line@) is None,
    {
        let l = chars_of(line);
        match zsh_extended_chars(&l) {
            Some((cmd, ts)) => Some(HistoryEntry { command: string_of(&cmd), timestamp: Some(ts) }),
            None => None,
        }
    }
}

fn zsh_extended_chars(l: &[char]) -> (r: Option<(Vec<char>, i64)>)
    ensures
        r matches Some(p) ==> zsh_extended(l@) == Some((p.0@, Some(p.1))),
        r is None ==> zsh_extended(l@) is None,
{
    let pre = vec![':', ' '];
    assert(pre@ =~= seq![':', ' ']);
    if !starts_with(l, &pre) {
        return None;
    }
    let rest = slice_copy(l, 2, l.len());
    assert(rest@ =~= l@.skip(2));
    match find_char(&rest, ';') {
        Some(p) => {
            proof { lemma_find_from(rest@, ';', 0); }
            let meta = slice_copy(&rest, 0, p);
            assert(meta@ =~= rest@.take(p as int));
            let parts = split_on_char(&meta, ':');
            if parts.len() != 2 {
                return None;
            }
            assert(vecs(parts@)[0] == parts@[0]@);
            assert(vecs(parts@)[1] == parts@[1]@);
            let ts = parse_i64(&parts[0]);
            let dur = parse_i64(&parts[1]);
            match (ts, dur) {
                (Some(t), Some(_)) => {
                    let cmd = slice_copy(&rest, p + 1, rest.len());
                    assert(cmd@ =~= rest@.skip(p + 1));
                    Some((cmd, t))
                },
                _ => None,
            }
        },
        None => None,
    }
}

/// Parses the text of a zsh history file.
pub fn parse_zsh_history(text: &str) -> (r: Vec<HistoryEntry>)
    ensures
        entries(r@) == zsh_entries(text@),
{
    let chars = chars_of(text);
    let ls = split_lines(&chars);
    let js = join_continuation_lines(&ls);
    let ghost jv = vecs(js@);
    let mut out: Vec<HistoryEntry> = Vec::new();
    let mut i: usize = 0;
    while i < js.len()
        invariant
            i <= js@.len(),
            jv == vecs(js@),
            jv == join_continuations(lines(text@)),
            entries(out@) == zsh_parse_joined(jv.take(i as int)),
        decreases js.len() - i,
    {
        let ghost t = jv.take(i as int + 1);
        assert(t.drop_last() =~= jv.take(i as int));
        assert(t.last() == js@[i as int]@);
        if js[i].len() > 0 {
            let e = match zsh_extended_chars(&js[i]) {
                Some((cmd, ts)) => make_entry(&cmd, Some(ts)),
                None => make_entry(&js[i], None),
            };
            push_entry(&mut out, e);
        }
        i += 1;
    }
    assert(jv.take(js@.len() as int) =~= jv);
    out
}

// ---------------------------------------------------------------- fish

/// What a fish history reader holds between lines: the entries so far, the
/// command being read and its timestamp.
pub type FishState = (Seq<EntryV>, Option<Seq<char>>, Option<i64>);

pub open spec fn fish_cmd_tag() -> Seq<char> {
    seq!['-', ' ', 'c', 'm', 'd', ':']
}

pub open spec fn fish_when_tag() -> Seq<char> {
    seq!['w', 'h', 'e', 'n', ':']
}

pub open spec fn fish_step(st: FishState, line: Seq<char>) -> FishState {
    let t = trim(line);
    if has_prefix(t, fish_cmd_tag()) {
        let cmd = Some(trim(t.skip(6)));
        match st.1 {
            Some(c) => (st.0.push((c, st.2)), cmd, None),
            None => (st.0, cmd, None),
        }
    } else if has_prefix(t, fish_when_tag()) {
        (st.0, st.1, parse_i64_spec(trim(t.skip(5))))
    } else {
        st
    }
}

pub open spec fn fish_state(ls: Seq<Seq<char>>) -> FishState
    decreases ls.len(),
{
    if ls.len() == 0 {
        (seq![], None, None)
    } else {
        fish_step(fish_state(ls.drop_last()), ls.last())
    }
}

/// The entries of fish history lines: `- cmd:` starts an entry, `when:`
/// sets the timestamp of the current one (one read before any entry is
/// dropped), other lines are ignored.
pub open spec fn fish_entries(ls: Seq<Seq<char>>) -> Seq<EntryV> {
    let st = fish_state(ls);
    match st.1 {
        Some(c) => st.0.push((c, st.2)),
        None => st.0,
    }
}

/// Parses the text of a fish history file.
pub fn parse_fish_history(text: &str) -> (r: Vec<HistoryEntry>)
    ensures
        entries(r@) == fish_entries(lines(text@)),
{
    let chars = chars_of(text);
    let ls = split_lines(&chars);
    let ghost lv = vecs(ls@);
    let cmd_tag = vec!['-', ' ', 'c', 'm', 'd', ':'];
    let when_tag = vec!['w', 'h', 'e', 'n', ':'];
    assert(cmd_tag@ =~= fish_cmd_tag());
    assert(when_tag@ =~= fish_when_tag());
    let mut out: Vec<HistoryEntry> = Vec::new();
    let mut cur: Option<Vec<char>> = None;
    let mut ts: Option<i64> = None;
    let mut i: usize = 0;
    while i < ls.len()
        invariant
            i <= ls@.len(),
            lv == vecs(ls@),
            lv == lines(text@),
            cmd_tag@ == fish_cmd_tag(),
            when_tag@ == fish_when_tag(),
            fish_state(lv.take(i as int)) == (entries(out@), match cur {
                Some(c) => Some(c@),
                None => None::<Seq<char>>,
            }, ts),
        decreases ls.len() - i,
    {
        let ghost t = lv.take(i as int + 1);
        assert(t.drop_last() =~= lv.take(i as int));
        assert(t.last() == ls@[i as int]@);
        let tl = trim_chars(&ls[i]);
        if starts_with(&tl, &cmd_tag) {
            let body = slice_copy(&tl, 6, tl.len());
            assert(body@ =~= tl@.skip(6));
            let cmd = trim_chars(&body);
            match cur {
                Some(c) => {
                    let e = make_entry(&c, ts);
                    push_entry(&mut out, e);
                },
                None => {},
            }
            ts = None;
            cur = Some(cmd);
        } else if starts_with(&tl, &when_tag) {
            let body = slice_copy(&tl, 5, tl.len());
            assert(body@ =~= tl@.skip(5));
            let v = trim_chars(&body);
            ts = parse_i64(&v);
        }
        i += 1;
    }
    assert(lv.take(ls@.len() as int) =~= lv);
    match cur {
        Some(c) => {
            let e = make_entry(&c, ts);
            push_entry(&mut out, e);
        },
        None => {},
    }
    out
}

} // verus!

verus! {

// ---------------------------------------------------------------- reader

/// `base` joined with the relative path `name`, as `Path::join` does.
pub open spec fn join_path(base: Seq<char>, name: Seq<char>) -> Seq<char> {
    if base.len() == 0 || base.last() == '/' {
        base + name
    } else {
        base + seq!['/'] + name
    }
}

pub fn join_path_str(base: &str, name: &str) -> (r: String)
    ensures
        r@ == join_path(base@, name@),
{
    let b = chars_of(base);
    let mut s = string_of(&b);
    if b.len() > 0 && b[b.len() - 1] != '/' {
        push_char(&mut s, '/');
    }
    s.append(name);
    s
}

/// Where each shell keeps its history, relative to the home directory.
pub open spec fn history_file(shell: Shell) -> Seq<char> {
    match shell {
        Shell::Bash => seq!['.', 'b', 'a', 's', 'h', '_', 'h', 'i', 's', 't', 'o', 'r', 'y'],
        Shell::Zsh => seq!['.', 'z', 's', 'h', '_', 'h', 'i', 's', 't', 'o', 'r', 'y'],
        Shell::Fish => seq![
            '.', 'l', 'o', 'c', 'a', 'l', '/', 's', 'h', 'a', 'r', 'e', '/', 'f', 'i', 's', 'h',
            '/', 'f', 'i', 's', 'h', '_', 'h', 'i', 's', 't', 'o', 'r', 'y',
        ],
    }
}

pub fn history_file_str(shell: Shell) -> (r: &'static str)
    ensures
        r@ == history_file(shell),
{
    match shell {
        Shell::Bash => {
            let s = ".bash_history";
            proof { reveal_strlit(".bash_history"); }
            s
        },
        Shell::Zsh => {
            let s = ".zsh_history";
            proof { reveal_strlit(".zsh_history"); }
            s
        },
        Shell::Fish => {
            let s = ".local/share/fish/fish_history";
            proof { reveal_strlit(".local/share/fish/fish_history"); }
            s
        },
    }
}

/// A shell's history file and the dialect it is written in.
#[derive(Debug)]
pub struct HistoryReader {
    shell: Shell,
    history_path: String,
}

/// Characters that text decoded leniently from `bytes` holds: invalid UTF-8
/// sequences become U+FFFD.
pub uninterp spec fn lossy_utf8(bytes: Seq<u8>) -> Seq<char>;

/// Relies on `String::from_utf8_lossy`: its result depends on the bytes alone.
#[verifier::external_body]
pub(crate) fn decode_lossy(bytes: &[u8]) -> (r: String)
    ensures
        r@ == lossy_utf8(bytes@),
        bytes@.len() == 0 ==> r@.len() == 0,
{
    String::from_utf8_lossy(bytes).into_owned()
}

/// The entries of a history file's text in the dialect of `shell`.
pub open spec fn shell_entries(shell: Shell, text: Seq<char>) -> Seq<EntryV> {
    match shell {
        Shell::Bash => bash_entries(lines(text)),
        Shell::Zsh => zsh_entries(text),
        Shell::Fish => fish_entries(lines(text)),
    }
}

impl HistoryReader {
    /// A reader of `shell`'s history file under the home directory `home`.
    pub fn new(shell: Shell, home: &str) -> (r: Self)
        ensures
            r.shell() == shell,
            r.path_view() == join_path(home@, history_file(shell)),
    {
        let name = history_file_str(shell);
        HistoryReader { shell, history_path: join_path_str(home, name) }
    }

    /// A reader of the history file at `path`, written by `shell`.
    pub fn with_path(shell: Shell, path: String) -> (r: Self)
        ensures
            r.shell() == shell,
            r.path_view() == path@,
    {
        HistoryReader { shell, history_path: path }
    }

    pub closed spec fn spec_shell(&self) -> Shell {
        self.shell
    }

    pub closed spec fn path_view(&self) -> Seq<char> {
        self.history_path@
    }

    #[verifier::when_used_as_spec(spec_shell)]
    pub fn shell(&self) -> (r: Shell)
        ensures
            r == self.spec_shell(),
    {
        self.shell
    }

    pub fn history_path(&self) -> (r: &str)
        ensures
            r@ == self.path_view(),
    {
        self.history_path.as_str()
    }

    /// The entries held in the history file's text.
    pub fn parse_text(&self, text: &str) -> (r: Vec<HistoryEntry>)
        ensures
            entries(r@) == shell_entries(self.shell(), text@),
    {
        match self.shell {
            Shell::Bash => parse_bash_history(text),
            Shell::Zsh => parse_zsh_history(text),
            Shell::Fish => parse_fish_history(text),
        }
    }

    /// The entries held in the history file's bytes. Every dialect is
    /// decoded leniently: bytes that are not UTF-8 (zsh may write such) become
    /// U+FFFD and their line is kept, rather than dropped or failing the file.
    pub fn read_history(&self, content: &[u8]) -> (r: Vec<HistoryEntry>)
        ensures
            entries(r@) == shell_entries(self.shell(), lossy_utf8(content@)),
    {
        let text = decode_lossy(content);
        self.parse_text(text.as_str())
    }
}

} // verus!

verus! {

// ---------------------------------------------------------------- laws

/// A joined zsh entry split back into its lines, with the backslash put back
/// at the end of every line but the last.
pub open spec fn unjoin_entry(j: Seq<char>) -> Seq<Seq<char>> {
    let p = split_on(j, '\n');
    Seq::new(p.len(), |i: int| if i < p.len() - 1 { p[i].push('\\') } else { p[i] })
}

pub open spec fn unjoin(js: Seq<Seq<char>>) -> Seq<Seq<char>>
    decreases js.len(),
{
    if js.len() == 0 {
        seq![]
    } else {
        unjoin(js.drop_last()) + unjoin_entry(js.last())
    }
}

pub open spec fn no_newline(l: Seq<char>) -> bool {
    forall|k: int| 0 <= k < l.len() ==> l[k] != '\n'
}

proof fn lemma_split_no_sep(l: Seq<char>)
    requires
        no_newline(l),
    ensures
        split_on(l, '\n') == seq![l],
    decreases l.len(),
{
    if l.len() > 0 {
        lemma_split_no_sep(l.drop_last());
        assert(l[l.len() - 1] != '\n');
        assert(l.drop_last().push(l.last()) =~= l);
        assert(seq![l.drop_last()].update(0, l.drop_last().push(l.last())) =~= seq![l]);
    } else {
        assert(l =~= Seq::<char>::empty());
    }
}

proof fn lemma_split_concat(a: Seq<char>, b: Seq<char>)
    ensures
        split_on(a.push('\n') + b, '\n') == split_on(a, '\n') + split_on(b, '\n'),
    decreases b.len(),
{
    let s = a.push('\n') + b;
    if b.len() == 0 {
        assert(s =~= a.push('\n'));
        assert(s.drop_last() =~= a);
        assert(split_on(a, '\n').push(seq![]) =~= split_on(a, '\n') + seq![seq![]]);
    } else {
        lemma_split_concat(a, b.drop_last());
        crate::text::lemma_split_on_len(b.drop_last(), '\n');
        assert(s.drop_last() =~= a.push('\n') + b.drop_last());
        assert(s.last() == b.last());
        let pa = split_on(a, '\n');
        let pb = split_on(b.drop_last(), '\n');
        if b.last() == '\n' {
            assert((pa + pb).push(seq![]) =~= pa + pb.push(seq![]));
        } else {
            let q = pa + pb;
            assert(q.update(q.len() - 1, q.last().push(b.last())) =~= pa + pb.update(
                pb.len() - 1,
                pb.last().push(b.last()),
            ));
        }
    }
}

proof fn lemma_unjoin_continued(jp: Seq<char>, l: Seq<char>)
    requires
        no_newline(l),
    ensures
        unjoin_entry(jp.push('\n') + l) == unjoin_entry(jp.push('\\')) + seq![l],
{
    lemma_split_concat(jp, l);
    lemma_split_no_sep(l);
    crate::text::lemma_split_on_len(jp, '\n');
    let p = split_on(jp, '\n');
    let j = jp.push('\\');
    assert(j.drop_last() =~= jp);
    assert(split_on(j, '\n') == p.update(p.len() - 1, p.last().push('\\')));
    assert(unjoin_entry(jp.push('\n') + l) =~= unjoin_entry(j) + seq![l]);
}

proof fn lemma_unjoin_update(jp: Seq<Seq<char>>, l: Seq<char>)
    requires
        jp.len() > 0,
        ends_in_backslash(jp.last()),
        no_newline(l),
    ensures
        unjoin(jp.update(jp.len() - 1, jp.last().drop_last().push('\n') + l)) == unjoin(jp) + seq![l],
{
    let big = jp.last();
    let nj = jp.update(jp.len() - 1, big.drop_last().push('\n') + l);
    assert(nj.drop_last() =~= jp.drop_last());
    assert(nj.last() == big.drop_last().push('\n') + l);
    assert(big.drop_last().push('\\') =~= big);
    lemma_unjoin_continued(big.drop_last(), l);
    assert(unjoin(nj) == unjoin(nj.drop_last()) + unjoin_entry(nj.last()));
    assert(unjoin(jp) == unjoin(jp.drop_last()) + unjoin_entry(big));
    assert(unjoin(nj) =~= unjoin(jp) + seq![l]);
}

proof fn lemma_unjoin_push(jp: Seq<Seq<char>>, l: Seq<char>)
    requires
        no_newline(l),
    ensures
        unjoin(jp.push(l)) == unjoin(jp) + seq![l],
{
    lemma_split_no_sep(l);
    assert(jp.push(l).drop_last() =~= jp);
    assert(unjoin_entry(l) =~= seq![l]);
}

/// Joining continuation lines loses nothing: splitting each joined entry at
/// its line feeds, and putting back the backslashes, gives the lines again.
pub proof fn lemma_continuation_round_trip(ls: Seq<Seq<char>>)
    requires
        forall|i: int| 0 <= i < ls.len() ==> no_newline(#[trigger] ls[i]),
    ensures
        unjoin(join_continuations(ls)) == ls,
    decreases ls.len(),
{
    if ls.len() > 0 {
        let rest = ls.drop_last();
        assert forall|i: int| 0 <= i < rest.len() implies no_newline(#[trigger] rest[i]) by {
            assert(rest[i] == ls[i]);
        }
        lemma_continuation_round_trip(rest);
        let jp = join_continuations(rest);
        let l = ls.last();
        assert(ls[ls.len() - 1] == l);
        if jp.len() > 0 && ends_in_backslash(jp.last()) {
            lemma_unjoin_update(jp, l);
        } else {
            lemma_unjoin_push(jp, l);
        }
        assert(rest + seq![l] =~= ls);
    }
}

} // verus!

verus! {

proof fn lemma_split_pieces(s: Seq<char>)
    ensures
        forall|i: int| 0 <= i < split_on(s, '\n').len() ==> no_newline(#[trigger] split_on(s, '\n')[i]),
    decreases s.len(),
{
    if s.len() > 0 {
        lemma_split_pieces(s.drop_last());
        crate::text::lemma_split_on_len(s.drop_last(), '\n');
        let p = split_on(s.drop_last(), '\n');
        let q = split_on(s, '\n');
        assert forall|i: int| 0 <= i < q.len() implies no_newline(#[trigger] q[i]) by {
            if i < p.len() && !(s.last() != '\n' && i == p.len() - 1) {
                assert(q[i] == p[i]);
            } else if s.last() == '\n' {
                assert(q[i] == Seq::<char>::empty());
            } else {
                assert(q[i] == p[i].push(s.last()));
                assert(no_newline(p[i]));
                assert forall|k: int| 0 <= k < q[i].len() implies q[i][k] != '\n' by {
                    if k < p[i].len() {
                        assert(q[i][k] == p[i][k]);
                    }
                }
            }
        }
    }
}

/// No line of a text holds a line feed.
pub proof fn lemma_lines_no_newline(s: Seq<char>)
    ensures
        forall|i: int| 0 <= i < lines(s).len() ==> no_newline(#[trigger] lines(s)[i]),
{
    lemma_split_pieces(s);
    crate::text::lemma_split_on_len(s, '\n');
    let p = split_on(s, '\n');
    let l = lines(s);
    assert forall|i: int| 0 <= i < l.len() implies no_newline(#[trigger] l[i]) by {
        if i < p.len() - 1 {
            assert(l[i] == crate::text::strip_cr(p[i]));
            assert(no_newline(p[i]));
            let q = crate::text::strip_cr(p[i]);
            assert forall|k: int| 0 <= k < q.len() implies q[k] != '\n' by {
                assert(q[k] == p[i][k]);
            }
        } else {
            assert(l[i] == p[p.len() - 1]);
        }
    }
}

/// The zsh reader's joining loses nothing of a file's text: the joined
/// entries, split again at their line feeds with the backslashes put back,
/// are the file's lines.
pub proof fn lemma_zsh_text_round_trip(text: Seq<char>)
    ensures
        unjoin(join_continuations(lines(text))) == lines(text),
{
    lemma_lines_no_newline(text);
    lemma_continuation_round_trip(lines(text));
}

} // verus!
