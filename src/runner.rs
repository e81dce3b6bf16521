//! Task output: the messages a running task sends, and the framing of a
//! pseudo-terminal's byte stream into lines.
use vstd::prelude::*;
use crate::history::{decode_lossy, lossy_utf8};
use crate::text::{split_on, split_on_char, string_of, strs, vecs};

verus! {

pub type TaskId = u64;

/// Which stream a message belongs to.
#[derive(Debug, Clone, Copy, PartialEq, Eq, Structural)]
pub enum StreamType {
    /// Command output (stdout and stderr, merged by the terminal).
    Output,
    /// Lifecycle: `started`, `completed`, `exited with code 1`, ...
    Status,
}

/// A message from a running task.
#[derive(Debug, Clone)]
pub struct OutputMessage {
    pub task_id: TaskId,
    /// Label of a parallel run (`[n=14][region=pnb]`), empty for a single command.
    pub runner_label: String,
    pub stream: StreamType,
    pub content: String,
}

impl OutputMessage {
    pub fn output(task_id: TaskId, runner_label: &str, content: String) -> (r: Self)
        ensures
            r.task_id == task_id,
            r.runner_label@ == runner_label@,
            r.stream == StreamType::Output,
            r.content@ == content@,
    {
        OutputMessage { task_id, runner_label: String::from_str(runner_label), stream: StreamType::Output, content }
    }

    pub fn status(task_id: TaskId, runner_label: &str, content: &str) -> (r: Self)
        ensures
            r.task_id == task_id,
            r.runner_label@ == runner_label@,
            r.stream == StreamType::Status,
            r.content@ == content@,
    {
        OutputMessage {
            task_id,
            runner_label: String::from_str(runner_label),
            stream: StreamType::Status,
            content: String::from_str(content),
        }
    }
}

/// `l` without its trailing carriage returns.
pub open spec fn strip_crs(l: Seq<char>) -> Seq<char>
    decreases l.len(),
{
    if l.len() > 0 && l.last() == '\r' {
        strip_crs(l.drop_last())
    } else {
        l
    }
}

fn strip_crs_chars(l: &Vec<char>) -> (r: Vec<char>)
    ensures
        r@ == strip_crs(l@),
{
    let mut n = l.len();
    assert(l@.take(l@.len() as int) =~= l@);
    while n > 0 && l[n - 1] == '\r'
        invariant
            n <= l@.len(),
            strip_crs(l@.take(n as int)) == strip_crs(l@),
        decreases n,
    {
        assert(l@.take(n as int).drop_last() =~= l@.take(n as int - 1));
        n -= 1;
    }
    assert(l@.take(n as int) =~= l@.subrange(0, n as int));
    crate::text::slice_copy(l, 0, n)
}

/// Splits a task's output into lines as it arrives: a line ends at a line
/// feed and loses its trailing carriage returns; the rest waits for more.
pub struct LineBuffer {
    partial: Vec<char>,
}

/// The lines that `pending` followed by `text` completes, and what remains.
pub open spec fn complete_lines(pending: Seq<char>, text: Seq<char>) -> (Seq<Seq<char>>, Seq<char>) {
    let p = split_on(pending + text, '\n');
    (p.drop_last().map_values(|l: Seq<char>| strip_crs(l)), p.last())
}

impl LineBuffer {
    pub closed spec fn pending(&self) -> Seq<char> {
        self.partial@
    }

    pub fn new() -> (r: Self)
        ensures
            r.pending() == Seq::<char>::empty(),
    {
        LineBuffer { partial: Vec::new() }
    }

    /// Adds decoded text; returns the lines it completes.
    pub fn push_str(&mut self, text: &str) -> (r: Vec<String>)
        ensures
            strs(r@) == complete_lines(old(self).pending(), text@).0,
            final(self).pending() == complete_lines(old(self).pending(), text@).1,
    {
        let mut all = self.partial.clone();
        let tc = crate::text::chars_of(text);
        let ghost head = all@;
        let mut i: usize = 0;
        while i < tc.len()
            invariant
                i <= tc@.len(),
                all@ == head + tc@.take(i as int),
            decreases tc.len() - i,
        {
            all.push(tc[i]);
            i += 1;
            assert(all@ =~= head + tc@.take(i as int));
        }
        assert(tc@.take(i as int) =~= tc@);
        let pieces = split_on_char(&all, '\n');
        proof { crate::text::lemma_split_on_len(all@, '\n'); }
        let ghost pv = vecs(pieces@);
        let n = pieces.len();
        let mut out: Vec<String> = Vec::new();
        let mut k: usize = 0;
        while k + 1 < n
            invariant
                n == pieces@.len() == pv.len() >= 1,
                pv == vecs(pieces@),
                k < n,
                strs(out@) == pv.take(k as int).map_values(|l: Seq<char>| strip_crs(l)),
            decreases n - k,
        {
            assert(pv[k as int] == pieces@[k as int]@);
            let l = strip_crs_chars(&pieces[k]);
            let s = string_of(&l);
            let ghost before = strs(out@);
            out.push(s);
            assert(strs(out@) =~= before.push(s@));
            k += 1;
            assert(strs(out@) =~= pv.take(k as int).map_values(|l: Seq<char>| strip_crs(l)));
        }
        assert(pv.take(k as int) =~= pv.drop_last());
        assert(pv[n - 1] == pieces@[n - 1]@);
        self.partial = pieces[n - 1].clone();
        out
    }

    /// Adds a chunk of bytes, decoded leniently; returns the lines it completes.
    pub fn push_bytes(&mut self, chunk: &[u8]) -> (r: Vec<String>)
        ensures
            strs(r@) == complete_lines(old(self).pending(), lossy_utf8(chunk@)).0,
            final(self).pending() == complete_lines(old(self).pending(), lossy_utf8(chunk@)).1,
    {
        let text = decode_lossy(chunk);
        self.push_str(text.as_str())
    }

    /// At the end of the stream: the unfinished line, if any.
    pub fn finish(&mut self) -> (r: Option<String>)
        ensures
            final(self).pending() == Seq::<char>::empty(),
            old(self).pending().len() == 0 ==> r is None,
            old(self).pending().len() > 0 ==> (r matches Some(l) && l@ == strip_crs(old(self).pending())),
    {
        if self.partial.len() == 0 {
            return None;
        }
        let l = strip_crs_chars(&self.partial);
        self.partial = Vec::new();
        Some(string_of(&l))
    }
}

/// The final status of a task that ran: `completed` on success, else
/// `exited with code N`.
pub fn exit_status_message(success: bool, code: u32) -> (r: String)
    ensures
        success ==> r@ == seq!['c', 'o', 'm', 'p', 'l', 'e', 't', 'e', 'd'],
        !success ==> r@ == seq!['e', 'x', 'i', 't', 'e', 'd', ' ', 'w', 'i', 't', 'h', ' ', 'c', 'o', 'd', 'e', ' ']
            + crate::text::decimal(code as nat),
{
    if success {
        proof { reveal_strlit("completed"); }
        return String::from_str("completed");
    }
    proof { reveal_strlit("exited with code "); }
    let mut s = String::from_str("exited with code ");
    let d = crate::text::decimal_chars(code as u64);
    let ds = string_of(&d);
    s.append(ds.as_str());
    s
}

/// The final status of a task that failed to run: `error: <msg>`.
pub fn error_status_message(msg: &str) -> (r: String)
    ensures
        r@ == seq!['e', 'r', 'r', 'o', 'r', ':', ' '] + msg@,
{
    proof { reveal_strlit("error: "); }
    let mut s = String::from_str("error: ");
    s.append(msg);
    s
}

} // verus!
