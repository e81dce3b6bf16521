//! Boxed output: a task's lines are held back until its final status, then
//! shown as one block between a top border with its label and a bottom
//! border with its runtime.
use vstd::prelude::*;
use crate::runner::{OutputMessage, StreamType, TaskId};

verus! {

/// A line of the output pane. Border and box lines carry a marker label.
#[derive(Debug, Clone)]
pub struct OutputLine {
    pub runner_label: String,
    pub stream: StreamType,
    pub content: String,
}

pub type LineV = (Seq<char>, StreamType, Seq<char>);

impl View for OutputLine {
    type V = LineV;

    open spec fn view(&self) -> LineV {
        (self.runner_label@, self.stream, self.content@)
    }
}

pub open spec fn lines_view(v: Seq<OutputLine>) -> Seq<LineV> {
    v.map_values(|l: OutputLine| l@)
}

/// Marker label of a top border; the task's label follows it.
pub open spec fn top_marker() -> Seq<char> {
    seq!['\0', 't', 'o', 'p', ':']
}

/// Marker label of a line inside a box.
pub open spec fn box_marker() -> Seq<char> {
    seq!['\0', 'b', 'o', 'x']
}

/// Marker label of a bottom border; its content is the runtime.
pub open spec fn bottom_marker() -> Seq<char> {
    seq!['\0', 'b', 'o', 't']
}

pub open spec fn started() -> Seq<char> {
    seq!['s', 't', 'a', 'r', 't', 'e', 'd']
}

/// The held-back lines of task `id`, in arrival order.
pub open spec fn held(p: Seq<(TaskId, LineV)>, id: TaskId) -> Seq<LineV>
    decreases p.len(),
{
    if p.len() == 0 {
        seq![]
    } else if p.last().0 == id {
        held(p.drop_last(), id).push(p.last().1)
    } else {
        held(p.drop_last(), id)
    }
}

/// The held-back lines of every other task.
pub open spec fn without(p: Seq<(TaskId, LineV)>, id: TaskId) -> Seq<(TaskId, LineV)>
    decreases p.len(),
{
    if p.len() == 0 {
        seq![]
    } else if p.last().0 == id {
        without(p.drop_last(), id)
    } else {
        without(p.drop_last(), id).push(p.last())
    }
}

pub open spec fn pad_lines(n: nat) -> Seq<LineV> {
    Seq::new(n, |_i: int| (box_marker(), StreamType::Output, Seq::<char>::empty()))
}

/// The block shown when a task ends: top border with its label, padding,
/// its lines, padding, bottom border with its runtime.
pub open spec fn block(label: Seq<char>, pad: nat, lines: Seq<LineV>, runtime: Seq<char>) -> Seq<LineV> {
    seq![(top_marker() + label, StreamType::Status, Seq::<char>::empty())] + pad_lines(pad)
        + lines.map_values(|l: LineV| (box_marker(), l.1, l.2)) + pad_lines(pad) + seq![
        (bottom_marker(), StreamType::Status, runtime),
    ]
}

/// Groups task output into boxes.
pub struct OutputFramer {
    pending: Vec<(TaskId, OutputLine)>,
    box_pad_v: usize,
}

pub open spec fn pending_view(v: Seq<(TaskId, OutputLine)>) -> Seq<(TaskId, LineV)> {
    v.map_values(|x: (TaskId, OutputLine)| (x.0, x.1@))
}

fn line(label: &str, stream: StreamType, content: &str) -> (r: OutputLine)
    ensures
        r@ == (label@, stream, content@),
{
    OutputLine { runner_label: String::from_str(label), stream, content: String::from_str(content) }
}

fn push_line(out: &mut Vec<OutputLine>, l: OutputLine)
    ensures
        lines_view(final(out)@) == lines_view(old(out)@).push(l@),
{
    out.push(l);
    assert(lines_view(out@) =~= lines_view(old(out)@).push(l@));
}

impl OutputFramer {
    pub closed spec fn pending(&self) -> Seq<(TaskId, LineV)> {
        pending_view(self.pending@)
    }

    pub closed spec fn pad(&self) -> nat {
        self.box_pad_v as nat
    }

    /// A framer with `box_pad_v` blank lines of padding inside each box.
    pub fn new(box_pad_v: usize) -> (r: Self)
        ensures
            r.pending() == Seq::<(TaskId, LineV)>::empty(),
            r.pad() == box_pad_v,
    {
        let r = OutputFramer { pending: Vec::new(), box_pad_v };
        assert(pending_view(r.pending@) =~= seq![]);
        r
    }

    /// Takes one message; returns the lines to show now. `runtime` is the
    /// task's runtime as text, used when the message ends the task.
    pub fn on_message(&mut self, msg: OutputMessage, runtime: &str) -> (r: Vec<OutputLine>)
        ensures
            final(self).pad() == old(self).pad(),
            msg.stream == StreamType::Output ==> lines_view(r@).len() == 0 && final(self).pending()
                == old(self).pending().push((msg.task_id, (msg.runner_label@, msg.stream, msg.content@))),
            msg.stream == StreamType::Status && msg.content@ == started() ==> lines_view(r@).len() == 0
                && final(self).pending() == old(self).pending(),
            msg.stream == StreamType::Status && msg.content@ != started() ==> lines_view(r@) == block(
                msg.runner_label@,
                old(self).pad(),
                held(old(self).pending(), msg.task_id),
                runtime@,
            ) && final(self).pending() == without(old(self).pending(), msg.task_id),
    {
        let mut out: Vec<OutputLine> = Vec::new();
        assert(lines_view(out@) =~= seq![]);
        match msg.stream {
            StreamType::Output => {
                let id = msg.task_id;
                let l = OutputLine { runner_label: msg.runner_label, stream: msg.stream, content: msg.content };
                let ghost before = pending_view(self.pending@);
                self.pending.push((id, l));
                assert(pending_view(self.pending@) =~= before.push((id, l@)));
                return out;
            },
            StreamType::Status => {},
        }
        proof { reveal_strlit("started"); }
        let st = String::from_str("started");
        assert(st@ =~= started());
        if msg.content == st {
            return out;
        }
        let id = msg.task_id;
        // top border
        let mut top = String::from_str("\0top:");
        proof { reveal_strlit("\0top:"); }
        assert(top@ =~= top_marker());
        top.append(msg.runner_label.as_str());
        push_line(&mut out, OutputLine { runner_label: top, stream: StreamType::Status, content: String::new() });
        proof { reveal_strlit("\0box"); }
        let box_label = String::from_str("\0box");
        assert(box_label@ =~= box_marker());
        let ghost after_top = lines_view(out@);
        let mut k: usize = 0;
        while k < self.box_pad_v
            invariant
                k <= self.box_pad_v,
                box_label@ == box_marker(),
                lines_view(out@) == after_top + pad_lines(k as nat),
            decreases self.box_pad_v - k,
        {
            let b = OutputLine { runner_label: box_label.clone(), stream: StreamType::Output, content: String::new() };
            push_line(&mut out, b);
            k += 1;
            assert(lines_view(out@) =~= after_top + pad_lines(k as nat));
        }
        // the task's lines, and the others kept back
        let ghost p = pending_view(self.pending@);
        let ghost after_pad = lines_view(out@);
        let mut rest: Vec<(TaskId, OutputLine)> = Vec::new();
        let mut old_pending: Vec<(TaskId, OutputLine)> = Vec::new();
        std::mem::swap(&mut self.pending, &mut old_pending);
        let mut i: usize = 0;
        while i < old_pending.len()
            invariant
                box_label@ == box_marker(),
                p == pending_view(old_pending@),
                i <= old_pending@.len(),
                lines_view(out@) == after_pad + held(p.take(i as int), id).map_values(|l: LineV| (box_marker(), l.1, l.2)),
                pending_view(rest@) == without(p.take(i as int), id),
            decreases old_pending.len() - i,
        {
            let ghost t = p.take(i as int + 1);
            assert(t.drop_last() =~= p.take(i as int));
            let e = &old_pending[i];
            assert(t.last() == (e.0, e.1@));
            if e.0 == id {
                let b = OutputLine {
                    runner_label: box_label.clone(),
                    stream: e.1.stream,
                    content: e.1.content.clone(),
                };
                let ghost before = lines_view(out@);
                push_line(&mut out, b);
                let ghost hm = held(p.take(i as int), id).map_values(|l: LineV| (box_marker(), l.1, l.2));
                assert(held(t, id) == held(p.take(i as int), id).push(e.1@));
                assert(held(t, id).map_values(|l: LineV| (box_marker(), l.1, l.2)) =~= hm.push(b@));
                assert(lines_view(out@) =~= after_pad + held(t, id).map_values(|l: LineV| (box_marker(), l.1, l.2)));
            } else {
                let ghost before = pending_view(rest@);
                let c = OutputLine {
                    runner_label: e.1.runner_label.clone(),
                    stream: e.1.stream,
                    content: e.1.content.clone(),
                };
                rest.push((e.0, c));
                assert(pending_view(rest@) =~= before.push((e.0, c@)));
            }
            i += 1;
        }
        assert(p.take(i as int) =~= p);
        self.pending = rest;
        let ghost after_lines = lines_view(out@);
        let mut k: usize = 0;
        while k < self.box_pad_v
            invariant
                k <= self.box_pad_v,
                box_label@ == box_marker(),
                lines_view(out@) == after_lines + pad_lines(k as nat),
            decreases self.box_pad_v - k,
        {
            let b = OutputLine { runner_label: box_label.clone(), stream: StreamType::Output, content: String::new() };
            push_line(&mut out, b);
            k += 1;
            assert(lines_view(out@) =~= after_lines + pad_lines(k as nat));
        }
        proof { reveal_strlit("\0bot"); }
        let bot = line("\0bot", StreamType::Status, runtime);
        assert(bot@.0 =~= bottom_marker());
        push_line(&mut out, bot);
        assert(lines_view(out@) =~= block(msg.runner_label@, self.box_pad_v as nat, held(p, id), runtime@));
        out
    }
}

} // verus!
