//! The writer of the output file, the only one that writes to it.
use vstd::prelude::*;

use crate::text;

verus! {

/// What happened to the channel or to the output file.
pub enum WriterEvent {
    /// The output file was opened, and is empty.
    Opened,
    /// The output file could not be opened.
    OpenFailed,
    /// A line came through the channel.
    Received(String),
    /// The channel is closed and empty.
    Closed,
    /// The line was written.
    Stored,
    /// The line could not be written.
    StoreFailed,
    /// What was written has been flushed.
    Flushed,
    /// What was written could not be flushed.
    FlushFailed,
}

/// Why the writer gave up.
#[derive(Debug, Clone, Copy, PartialEq, Eq, Structural)]
pub enum WriterFailure {
    /// The output file could not be opened.
    Create,
    /// The line with this number, counted from one, could not be written.
    Write(usize),
    /// What was written could not be flushed.
    Flush,
}

impl WriterFailure {
    /// What to say of the failure, for an output file that is shown as `path`.
    pub open spec fn headline(self, path: Seq<char>) -> Seq<char> {
        match self {
            WriterFailure::Create => "Failed to create output file for writer: "@ + path,
            WriterFailure::Write(number) => "Failed to write line #"@ + text::decimal(
                number as nat,
            ) + ". output: "@ + path,
            WriterFailure::Flush => "Failed to flush output writer to "@ + path,
        }
    }

    /// What to say of the failure, for an output file that is shown as `path`.
    pub fn message(&self, path: &str) -> (line: String)
        ensures
            line@ == self.headline(path@),
            self is Create ==> line@ == "Failed to create output file for writer: "@ + path@,
            self matches WriterFailure::Write(number) ==> line@ == "Failed to write line #"@
                + text::decimal(number as nat) + ". output: "@ + path@,
            self is Flush ==> line@ == "Failed to flush output writer to "@ + path@,
    {
        match self {
            WriterFailure::Create => text::joined("Failed to create output file for writer: ", path),
            WriterFailure::Write(number) => {
                let written = text::decimal_text(*number);
                let numbered = text::joined("Failed to write line #", written.as_str());
                let opened = text::joined(numbered.as_str(), ". output: ");
                text::joined(opened.as_str(), path)
            },
            WriterFailure::Flush => text::joined("Failed to flush output writer to ", path),
        }
    }
}

/// What to do next.
#[derive(Debug)]
pub enum WriterAction {
    /// Wait for the next line.
    Receive,
    /// Write this line.
    Write(String),
    /// Flush what was written.
    Flush,
    /// The output is complete, with so many lines.
    Finish(usize),
    /// The output is given up.
    Fail(WriterFailure),
}

/// What to do next, as plain values.
pub enum WriterReply {
    Receive,
    Write(Seq<char>),
    Flush,
    Finish(nat),
    Fail(WriterFailure),
}

impl View for WriterAction {
    type V = WriterReply;

    open spec fn view(&self) -> WriterReply {
        match *self {
            WriterAction::Receive => WriterReply::Receive,
            WriterAction::Write(line) => WriterReply::Write(line@),
            WriterAction::Flush => WriterReply::Flush,
            WriterAction::Finish(written) => WriterReply::Finish(written as nat),
            WriterAction::Fail(failure) => WriterReply::Fail(failure),
        }
    }
}

/// The number of lines written after an event, where `written` were before.
pub open spec fn writer_after(written: nat, event: WriterEvent) -> nat {
    if event is Stored {
        written + 1
    } else {
        written
    }
}

/// What to do after an event, where `written` lines were written before it.
pub open spec fn writer_reply(written: nat, event: WriterEvent) -> WriterReply {
    match event {
        WriterEvent::Opened => WriterReply::Receive,
        WriterEvent::OpenFailed => WriterReply::Fail(WriterFailure::Create),
        WriterEvent::Received(line) => WriterReply::Write(line@),
        WriterEvent::Closed => WriterReply::Flush,
        WriterEvent::Stored => WriterReply::Receive,
        WriterEvent::StoreFailed => WriterReply::Fail(
            WriterFailure::Write((written + 1) as usize),
        ),
        WriterEvent::Flushed => WriterReply::Finish(written),
        WriterEvent::FlushFailed => WriterReply::Fail(WriterFailure::Flush),
    }
}

/// The writer of the output file.
#[derive(Debug)]
pub struct OutputWriter {
    written: usize,
}

impl View for OutputWriter {
    type V = nat;

    /// The number of lines written.
    closed spec fn view(&self) -> nat {
        self.written as nat
    }
}

impl OutputWriter {
    /// A writer that has written nothing yet.
    pub fn new() -> (writer: Self)
        ensures
            writer@ == 0,
    {
        OutputWriter { written: 0 }
    }

    /// Whether one more line can be counted.
    pub fn has_room(&self) -> (room: bool)
        ensures
            room == (self@ < usize::MAX),
    {
        self.written < usize::MAX
    }

    /// Takes note of an event and says what to do next.
    pub fn step(&mut self, event: WriterEvent) -> (action: WriterAction)
        requires
            event is Stored || event is StoreFailed ==> old(self)@ < usize::MAX,
        ensures
            final(self)@ == writer_after(old(self)@, event),
            action@ == writer_reply(old(self)@, event),
    {
        match event {
            WriterEvent::Opened => WriterAction::Receive,
            WriterEvent::OpenFailed => WriterAction::Fail(WriterFailure::Create),
            WriterEvent::Received(line) => WriterAction::Write(line),
            WriterEvent::Closed => WriterAction::Flush,
            WriterEvent::Stored => {
                self.written += 1;
                WriterAction::Receive
            },
            WriterEvent::StoreFailed => WriterAction::Fail(
                WriterFailure::Write(self.written + 1),
            ),
            WriterEvent::Flushed => WriterAction::Finish(self.written),
            WriterEvent::FlushFailed => WriterAction::Fail(WriterFailure::Flush),
        }
    }
}

/// The writer after it was handed `lines` one after the other and each was
/// written: how many it has counted, and the text of the output.
pub open spec fn recorded(lines: Seq<String>) -> (nat, Seq<char>)
    decreases lines.len(),
{
    if lines.len() == 0 {
        (0, Seq::empty())
    } else {
        let (written, output) = recorded(lines.drop_last());
        let received = WriterEvent::Received(lines.last());
        (
            writer_after(writer_after(written, received), WriterEvent::Stored),
            match writer_reply(written, received) {
                WriterReply::Write(line) => output + line,
                _ => output,
            },
        )
    }
}

/// The output holds the lines received, unchanged and in the order in which they
/// came, and the writer counts each of them once.
pub proof fn lemma_output_is_what_was_received(lines: Seq<String>)
    ensures
        recorded(lines).0 == lines.len(),
        recorded(lines).1 == text::texts(lines).flatten(),
    decreases lines.len(),
{
    if lines.len() == 0 {
        assert(text::texts(lines).flatten() =~= Seq::empty());
    } else {
        let front = lines.drop_last();
        lemma_output_is_what_was_received(front);
        text::texts(front).lemma_flatten_push(lines.last()@);
        assert(text::texts(front).push(lines.last()@) =~= text::texts(lines));
    }
}

/// What the events of the writer lead to, whatever came before. It waits for the next
/// line when the output was opened and when a line was stored, writes each line as it
/// is, flushes when the channel is closed and not before, is complete when it has
/// flushed and not before, and gives up where something failed and nowhere else.
pub proof fn lemma_what_the_writer_answers(written: nat, event: WriterEvent)
    ensures
        ({
            let reply = writer_reply(written, event);
            &&& reply is Receive <==> event is Opened || event is Stored
            &&& reply is Write <==> event is Received
            &&& event matches WriterEvent::Received(line) ==> reply == WriterReply::Write(line@)
            &&& reply is Flush <==> event is Closed
            &&& reply is Finish <==> event is Flushed
            &&& event is Flushed ==> reply == WriterReply::Finish(written)
            &&& reply == WriterReply::Fail(WriterFailure::Create) <==> event is OpenFailed
            &&& reply == WriterReply::Fail(WriterFailure::Flush) <==> event is FlushFailed
            &&& event is StoreFailed && written < usize::MAX ==> (reply matches WriterReply::Fail(
                WriterFailure::Write(number),
            ) && number == written + 1)
            &&& reply is Fail <==> event is OpenFailed || event is FlushFailed || event is StoreFailed
        }),
        writer_after(written, event) == written + if event is Stored {
            1int
        } else {
            0int
        },
{
}

/// A writer as it went: what happened, one event after the other, what the writer
/// answered to each, and how many lines it had written before each and at the end.
pub struct WriterTrace {
    pub counts: Seq<nat>,
    pub events: Seq<WriterEvent>,
    pub replies: Seq<WriterReply>,
}

/// The number of lines received in a list of events.
pub open spec fn lines_received(events: Seq<WriterEvent>) -> nat
    decreases events.len(),
{
    if events.len() == 0 {
        0
    } else if events.last() is Received {
        lines_received(events.drop_last()) + 1
    } else {
        lines_received(events.drop_last())
    }
}

/// The lines written in a list of answers, in order.
pub open spec fn lines_written(replies: Seq<WriterReply>) -> Seq<Seq<char>>
    decreases replies.len(),
{
    if replies.len() == 0 {
        Seq::empty()
    } else {
        match replies.last() {
            WriterReply::Write(line) => lines_written(replies.drop_last()).push(line),
            _ => lines_written(replies.drop_last()),
        }
    }
}

/// The writer was told event `k` and answered it.
pub open spec fn is_writer_step(trace: WriterTrace, k: int) -> bool {
    &&& trace.counts[k + 1] == writer_after(trace.counts[k], trace.events[k])
    &&& trace.replies[k] == writer_reply(trace.counts[k], trace.events[k])
}

/// What was asked for in answer `k` happened in event `k + 1`: the next of `lines` was
/// received, or the channel was closed behind the last; or a line was stored; or what
/// was written was flushed.
pub open spec fn is_heeded(trace: WriterTrace, lines: Seq<Seq<char>>, k: int) -> bool {
    match trace.replies[k] {
        WriterReply::Receive => {
            let next = lines_received(trace.events.take(k + 1)) as int;
            if next < lines.len() {
                trace.events[k + 1] matches WriterEvent::Received(line) && line@ == lines[next]
            } else {
                trace.events[k + 1] is Closed
            }
        },
        WriterReply::Write(_) => trace.events[k + 1] is Stored,
        WriterReply::Flush => trace.events[k + 1] is Flushed,
        _ => false,
    }
}

/// The trace is that of a writer, from its start, to whom `lines` are sent, with an
/// output that takes them all.
pub open spec fn is_smooth_writer(trace: WriterTrace, lines: Seq<Seq<char>>) -> bool {
    &&& trace.events.len() > 0
    &&& trace.replies.len() == trace.events.len()
    &&& trace.counts.len() == trace.events.len() + 1
    &&& trace.counts[0] == 0
    &&& trace.events[0] is Opened
    &&& forall|k: int| 0 <= k < trace.events.len() ==> #[trigger] is_writer_step(trace, k)
    &&& forall|k: int| 0 <= k < trace.events.len() - 1 ==> #[trigger] is_heeded(trace, lines, k)
}

/// A writer that nothing hinders receives until the channel is closed. Its last answer
/// asks for more, or it is complete; and when it is complete it has received every
/// line, has written all of them, unchanged and in order, has flushed them, and tells
/// their number.
pub proof fn lemma_writer_receives_to_the_end(trace: WriterTrace, lines: Seq<Seq<char>>)
    requires
        is_smooth_writer(trace, lines),
    ensures
        !(trace.replies.last() is Fail),
        trace.replies.last() is Flush || trace.replies.last() is Finish ==> lines_received(
            trace.events,
        ) == lines.len() && lines_written(trace.replies) == lines,
        trace.replies.last() matches WriterReply::Finish(n) ==> {
            &&& n == lines.len()
            &&& trace.events.last() is Flushed
        },
        trace.replies.len() <= 2 * lines.len() + 3,
{
    let n = trace.events.len() as int;
    lemma_writer_so_far(trace, lines, n);
    assert(trace.events.take(n) =~= trace.events);
    assert(trace.replies.take(n) =~= trace.replies);
    assert(lines.take(lines.len() as int) =~= lines);
}

/// Where a writer stands after `k` events.
proof fn lemma_writer_so_far(trace: WriterTrace, lines: Seq<Seq<char>>, k: int)
    requires
        is_smooth_writer(trace, lines),
        1 <= k <= trace.events.len(),
    ensures
        ({
            let got = lines_received(trace.events.take(k)) as int;
            let reply = trace.replies[k - 1];
            &&& got <= lines.len()
            &&& lines_written(trace.replies.take(k)) == lines.take(got)
            &&& !(reply is Fail)
            &&& trace.counts[k] == if reply is Write {
                got - 1
            } else {
                got
            }
            &&& reply is Flush || reply is Finish ==> got == lines.len()
            &&& reply matches WriterReply::Finish(n) ==> n == got && trace.events[k - 1] is Flushed
            &&& reply is Receive ==> k == 1 + 2 * got
            &&& reply is Write ==> k == 2 * got
            &&& reply is Flush ==> k == 2 + 2 * got
            &&& reply is Finish ==> k == 3 + 2 * got
        }),
    decreases k,
{
    let event = trace.events[k - 1];
    assert(is_writer_step(trace, k - 1));
    lemma_what_the_writer_answers(trace.counts[k - 1], event);
    assert(trace.events.take(k).drop_last() =~= trace.events.take(k - 1));
    assert(trace.replies.take(k).drop_last() =~= trace.replies.take(k - 1));
    assert(trace.events.take(k).last() == event);
    assert(trace.replies.take(k).last() == trace.replies[k - 1]);
    if k == 1 {
        assert(trace.events.take(0) =~= Seq::empty());
        assert(trace.replies.take(0) =~= Seq::empty());
        assert(lines_written(trace.replies.take(0)) =~= Seq::empty());
        assert(lines_received(trace.events.take(0)) == 0);
        assert(lines.take(0) =~= Seq::empty());
    } else {
        lemma_writer_so_far(trace, lines, k - 1);
        assert(is_heeded(trace, lines, k - 2));
        let before = lines_received(trace.events.take(k - 1)) as int;
        if let WriterEvent::Received(line) = event {
            assert(lines.take(before + 1) =~= lines.take(before).push(line@));
        }
    }
}

} // verus!
