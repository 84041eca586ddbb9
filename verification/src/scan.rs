//! The scan of one file: lines are read one by one, and those that match are
//! sent to the writer.
use vstd::prelude::*;

use crate::matcher;
use crate::matcher::MatchSet;
use crate::text;

verus! {

/// What happened to the file or to the channel.
pub enum ScanEvent {
    /// The file was opened.
    Opened,
    /// The file could not be opened.
    OpenFailed,
    /// A line was read, with its line break if it has one.
    Line(String),
    /// The file has no more lines.
    EndOfFile,
    /// Reading failed, or what was read is not text.
    ReadFailed,
    /// The line was handed to the channel.
    Delivered,
    /// The channel no longer takes lines.
    ChannelClosed,
}

/// Why the scan of a file was given up.
#[derive(Debug, Clone, Copy, PartialEq, Eq, Structural)]
pub enum ScanFailure {
    /// The file could not be opened.
    Open,
    /// The file could not be read to its end.
    Read,
    /// The writer is gone.
    Channel,
}

impl ScanFailure {
    /// What to say of the failure, for a file that is shown as `path`, where
    /// `cause` is what the system or the channel said.
    pub open spec fn headline(self, path: Seq<char>, cause: Seq<char>) -> Seq<char> {
        match self {
            ScanFailure::Open => "Failed to open input file: "@ + path,
            ScanFailure::Read => cause,
            ScanFailure::Channel => "Channel send error: "@ + cause,
        }
    }

    /// What to say of the failure, for a file that is shown as `path`, where
    /// `cause` is what the system or the channel said.
    pub fn message(&self, path: &str, cause: &str) -> (line: String)
        ensures
            line@ == self.headline(path@, cause@),
            self is Open ==> line@ == "Failed to open input file: "@ + path@,
            self is Read ==> line@ == cause@,
            self is Channel ==> line@ == "Channel send error: "@ + cause@,
    {
        match self {
            ScanFailure::Open => text::joined("Failed to open input file: ", path),
            ScanFailure::Read => cause.to_owned(),
            ScanFailure::Channel => text::joined("Channel send error: ", cause),
        }
    }
}

/// What to do next.
#[derive(Debug)]
pub enum ScanAction {
    /// Read the next line.
    ReadLine,
    /// Send this line to the writer.
    Send(String),
    /// The scan is complete, with so many lines that matched.
    Finish(usize),
    /// The scan is given up.
    Fail(ScanFailure),
}

/// What to do next, as plain values.
pub enum ScanReply {
    ReadLine,
    Send(Seq<char>),
    Finish(nat),
    Fail(ScanFailure),
}

impl View for ScanAction {
    type V = ScanReply;

    open spec fn view(&self) -> ScanReply {
        match *self {
            ScanAction::ReadLine => ScanReply::ReadLine,
            ScanAction::Send(line) => ScanReply::Send(line@),
            ScanAction::Finish(matched) => ScanReply::Finish(matched as nat),
            ScanAction::Fail(failure) => ScanReply::Fail(failure),
        }
    }
}

/// How far a scan has come.
pub struct ScanState {
    /// The lines read.
    pub lines: nat,
    /// Those of them that matched.
    pub matched: nat,
}

/// The scan when one more line was read, which matched or did not.
pub open spec fn line_counted(state: ScanState, hit: bool) -> ScanState {
    ScanState {
        lines: state.lines + 1,
        matched: if hit {
            state.matched + 1
        } else {
            state.matched
        },
    }
}

/// What to do with a line that matched or did not.
pub open spec fn line_reply(line: Seq<char>, hit: bool) -> ScanReply {
    if hit {
        ScanReply::Send(line)
    } else {
        ScanReply::ReadLine
    }
}

/// How far the scan has come after an event. Only lines count.
pub open spec fn scan_after(
    state: ScanState,
    patterns: Seq<Seq<char>>,
    event: ScanEvent,
) -> ScanState {
    match event {
        ScanEvent::Line(line) => line_counted(state, matcher::any_matches(patterns, line@)),
        _ => state,
    }
}

/// What to do after an event.
pub open spec fn scan_reply(
    state: ScanState,
    patterns: Seq<Seq<char>>,
    event: ScanEvent,
) -> ScanReply {
    match event {
        ScanEvent::Opened => ScanReply::ReadLine,
        ScanEvent::OpenFailed => ScanReply::Fail(ScanFailure::Open),
        ScanEvent::Line(line) => line_reply(line@, matcher::any_matches(patterns, line@)),
        ScanEvent::EndOfFile => ScanReply::Finish(state.matched),
        ScanEvent::ReadFailed => ScanReply::Fail(ScanFailure::Read),
        ScanEvent::Delivered => ScanReply::ReadLine,
        ScanEvent::ChannelClosed => ScanReply::Fail(ScanFailure::Channel),
    }
}

/// The scan of one file.
#[derive(Debug)]
pub struct FileScan {
    lines: usize,
    matched: usize,
}

impl View for FileScan {
    type V = ScanState;

    closed spec fn view(&self) -> ScanState {
        ScanState { lines: self.lines as nat, matched: self.matched as nat }
    }
}

impl FileScan {
    /// No more lines matched than were read.
    #[verifier::type_invariant]
    spec fn counts_agree(self) -> bool {
        self.matched <= self.lines
    }

    /// A scan that has read nothing yet.
    pub fn new() -> (scan: Self)
        ensures
            scan@ == (ScanState { lines: 0, matched: 0 }),
    {
        FileScan { lines: 0, matched: 0 }
    }

    /// Whether one more line can be counted.
    pub fn has_room(&self) -> (room: bool)
        ensures
            room == (self@.lines < usize::MAX),
    {
        self.lines < usize::MAX
    }

    /// The number of lines read.
    pub fn lines(&self) -> (count: usize)
        ensures
            count == self@.lines,
    {
        self.lines
    }

    /// The number of lines that matched.
    pub fn matched(&self) -> (count: usize)
        ensures
            count == self@.matched,
            count <= self@.lines,
    {
        proof {
            use_type_invariant(&*self);
        }
        self.matched
    }

    /// Counts a line, and sends it if it matched.
    pub fn judge_line(&mut self, line: String, hit: bool) -> (action: ScanAction)
        requires
            old(self)@.lines < usize::MAX,
        ensures
            final(self)@ == line_counted(old(self)@, hit),
            action@ == line_reply(line@, hit),
            final(self)@.lines == old(self)@.lines + 1,
            final(self)@.matched == old(self)@.matched + if hit {
                1int
            } else {
                0int
            },
            hit ==> (action matches ScanAction::Send(sent) && sent@ == line@),
            !hit ==> action is ReadLine,
    {
        proof {
            use_type_invariant(&*self);
        }
        self.lines += 1;
        if hit {
            self.matched += 1;
            ScanAction::Send(line)
        } else {
            ScanAction::ReadLine
        }
    }

    /// Takes note of an event and says what to do next.
    pub fn step(&mut self, matcher: &MatchSet, event: ScanEvent) -> (action: ScanAction)
        requires
            event is Line ==> old(self)@.lines < usize::MAX,
        ensures
            final(self)@ == scan_after(old(self)@, matcher@, event),
            action@ == scan_reply(old(self)@, matcher@, event),
    {
        match event {
            ScanEvent::Opened => ScanAction::ReadLine,
            ScanEvent::OpenFailed => ScanAction::Fail(ScanFailure::Open),
            ScanEvent::Line(line) => {
                let hit = matcher.is_match(line.as_str());
                self.judge_line(line, hit)
            },
            ScanEvent::EndOfFile => ScanAction::Finish(self.matched),
            ScanEvent::ReadFailed => ScanAction::Fail(ScanFailure::Read),
            ScanEvent::Delivered => ScanAction::ReadLine,
            ScanEvent::ChannelClosed => ScanAction::Fail(ScanFailure::Channel),
        }
    }
}

/// The lines of a file that match.
pub open spec fn matching_lines(
    patterns: Seq<Seq<char>>,
    lines: Seq<Seq<char>>,
) -> Seq<Seq<char>> {
    lines.filter(|line: Seq<char>| matcher::any_matches(patterns, line))
}

/// A scan that was handed `lines` one after the other, from its start: how far
/// it has come, and the lines that it sent.
pub open spec fn scanned(patterns: Seq<Seq<char>>, lines: Seq<Seq<char>>) -> (
    ScanState,
    Seq<Seq<char>>,
)
    decreases lines.len(),
{
    if lines.len() == 0 {
        (ScanState { lines: 0, matched: 0 }, Seq::empty())
    } else {
        let (state, sent) = scanned(patterns, lines.drop_last());
        let line = lines.last();
        let hit = matcher::any_matches(patterns, line);
        (
            line_counted(state, hit),
            match line_reply(line, hit) {
                ScanReply::Send(out) => sent.push(out),
                _ => sent,
            },
        )
    }
}

/// A scan sends the lines that match, each once and in the order of the file,
/// and the count with which it finishes is their number.
pub proof fn lemma_scan_sends_the_matching_lines(
    patterns: Seq<Seq<char>>,
    lines: Seq<Seq<char>>,
)
    ensures
        scanned(patterns, lines).0.lines == lines.len(),
        scanned(patterns, lines).1 == matching_lines(patterns, lines),
        scanned(patterns, lines).0.matched == matching_lines(patterns, lines).len(),
    decreases lines.len(),
{
    let hits = |line: Seq<char>| matcher::any_matches(patterns, line);
    if lines.len() == 0 {
        reveal(Seq::filter);
        assert(matching_lines(patterns, lines) =~= Seq::empty());
    } else {
        let front = lines.drop_last();
        lemma_scan_sends_the_matching_lines(patterns, front);
        front.lemma_filter_push(lines.last(), hits);
        assert(front.push(lines.last()) =~= lines);
    }
}

/// A line matches if one of the patterns matches it.
pub open spec fn hits(patterns: Seq<Seq<char>>, line: Seq<char>) -> bool {
    exists|i: int| 0 <= i < patterns.len() && matcher::pattern_matches(
        #[trigger] patterns[i],
        line,
    )
}

/// What the events of a scan lead to, whatever came before. A line that matches is
/// sent as it is, and the scan goes on after any other line, when the file was opened
/// and when a line was delivered. It is complete at the end of the file and not
/// before, and it is given up where something failed and nowhere else.
pub proof fn lemma_what_a_scan_answers(
    state: ScanState,
    patterns: Seq<Seq<char>>,
    event: ScanEvent,
)
    ensures
        ({
            let reply = scan_reply(state, patterns, event);
            &&& reply is Finish <==> event is EndOfFile
            &&& reply matches ScanReply::Finish(n) ==> n == state.matched
            &&& reply is Send <==> (event matches ScanEvent::Line(line) && hits(patterns, line@))
            &&& reply matches ScanReply::Send(out) ==> event->Line_0@ == out
            &&& reply is ReadLine <==> {
                ||| event is Opened
                ||| event is Delivered
                ||| event matches ScanEvent::Line(line) && !hits(patterns, line@)
            }
            &&& reply == ScanReply::Fail(ScanFailure::Open) <==> event is OpenFailed
            &&& reply == ScanReply::Fail(ScanFailure::Read) <==> event is ReadFailed
            &&& reply == ScanReply::Fail(ScanFailure::Channel) <==> event is ChannelClosed
        }),
{
    if let ScanEvent::Line(line) = event {
        lemma_hits(patterns, line@);
    }
}

/// What the events of a scan count for: a line read counts as a line, and one that
/// matches as a match, and nothing else counts.
pub proof fn lemma_what_a_scan_counts(
    state: ScanState,
    patterns: Seq<Seq<char>>,
    event: ScanEvent,
)
    ensures
        ({
            let after = scan_after(state, patterns, event);
            &&& event is Line ==> after.lines == state.lines + 1
            &&& event matches ScanEvent::Line(line) ==> after.matched == state.matched + if hits(
                patterns,
                line@,
            ) {
                1int
            } else {
                0int
            }
            &&& !(event is Line) ==> after == state
        }),
{
    if let ScanEvent::Line(line) = event {
        lemma_hits(patterns, line@);
    }
}

proof fn lemma_hits(patterns: Seq<Seq<char>>, line: Seq<char>)
    ensures
        hits(patterns, line) == matcher::any_matches(patterns, line),
{
}

/// The matching lines of two texts together are those of the one and behind them
/// those of the other; of a single line it is that line if it matches, else none.
pub proof fn lemma_matching_lines_one_by_one(
    patterns: Seq<Seq<char>>,
    left: Seq<Seq<char>>,
    right: Seq<Seq<char>>,
    line: Seq<char>,
)
    ensures
        matching_lines(patterns, left + right) == matching_lines(patterns, left) + matching_lines(
            patterns,
            right,
        ),
        matching_lines(patterns, seq![line]) == if hits(patterns, line) {
            seq![line]
        } else {
            Seq::<Seq<char>>::empty()
        },
        matching_lines(patterns, Seq::empty()).len() == 0,
{
    let keep = |l: Seq<char>| matcher::any_matches(patterns, l);
    Seq::filter_distributes_over_add(left, right, keep);
    let none: Seq<Seq<char>> = Seq::empty();
    reveal(Seq::filter);
    assert(none.filter(keep) =~= none);
    none.lemma_filter_push(line, keep);
    assert(none.push(line) =~= seq![line]);
    lemma_hits(patterns, line);
    assert(none.push(line).filter(keep) =~= if hits(patterns, line) {
        seq![line]
    } else {
        none
    });
}

/// A scan as it went: what happened, one event after the other, what the scan
/// answered to each, and how far it had come before each and at the end.
pub struct ScanTrace {
    pub states: Seq<ScanState>,
    pub events: Seq<ScanEvent>,
    pub replies: Seq<ScanReply>,
}

/// The number of lines read in a list of events.
pub open spec fn lines_read(events: Seq<ScanEvent>) -> nat
    decreases events.len(),
{
    if events.len() == 0 {
        0
    } else if events.last() is Line {
        lines_read(events.drop_last()) + 1
    } else {
        lines_read(events.drop_last())
    }
}

/// The lines sent in a list of answers, in order.
pub open spec fn lines_sent(replies: Seq<ScanReply>) -> Seq<Seq<char>>
    decreases replies.len(),
{
    if replies.len() == 0 {
        Seq::empty()
    } else {
        match replies.last() {
            ScanReply::Send(line) => lines_sent(replies.drop_last()).push(line),
            _ => lines_sent(replies.drop_last()),
        }
    }
}

/// The scan was told event `k` and answered it.
pub open spec fn is_scan_step(trace: ScanTrace, patterns: Seq<Seq<char>>, k: int) -> bool {
    &&& trace.states[k + 1] == scan_after(trace.states[k], patterns, trace.events[k])
    &&& trace.replies[k] == scan_reply(trace.states[k], patterns, trace.events[k])
}

/// What was asked for in answer `k` happened in event `k + 1`: the next line of
/// `lines` was read, or there was none left; or a line was delivered.
pub open spec fn is_served(trace: ScanTrace, lines: Seq<Seq<char>>, k: int) -> bool {
    match trace.replies[k] {
        ScanReply::ReadLine => {
            let next = lines_read(trace.events.take(k + 1)) as int;
            if next < lines.len() {
                trace.events[k + 1] matches ScanEvent::Line(line) && line@ == lines[next]
            } else {
                trace.events[k + 1] is EndOfFile
            }
        },
        ScanReply::Send(_) => trace.events[k + 1] is Delivered,
        _ => false,
    }
}

/// The trace is that of a scan, from its start, of a file that holds `lines` and can
/// be read, with a channel that takes every line.
pub open spec fn is_smooth_scan(
    trace: ScanTrace,
    patterns: Seq<Seq<char>>,
    lines: Seq<Seq<char>>,
) -> bool {
    &&& trace.events.len() > 0
    &&& trace.replies.len() == trace.events.len()
    &&& trace.states.len() == trace.events.len() + 1
    &&& trace.states[0] == (ScanState { lines: 0, matched: 0 })
    &&& trace.events[0] is Opened
    &&& forall|k: int| 0 <= k < trace.events.len() ==> #[trigger] is_scan_step(trace, patterns, k)
    &&& forall|k: int| 0 <= k < trace.events.len() - 1 ==> #[trigger] is_served(trace, lines, k)
}

/// A scan that nothing hinders reads its file to the end. Its last answer asks for
/// more, or it is complete; and when it is complete it has read every line, has sent
/// those that match, unchanged and in the order of the file, and tells their number.
pub proof fn lemma_scan_reads_to_the_end(
    trace: ScanTrace,
    patterns: Seq<Seq<char>>,
    lines: Seq<Seq<char>>,
)
    requires
        is_smooth_scan(trace, patterns, lines),
    ensures
        trace.replies.last() is ReadLine || trace.replies.last() is Send || trace.replies.last() is Finish,
        trace.replies.last() matches ScanReply::Finish(n) ==> {
            &&& lines_read(trace.events) == lines.len()
            &&& lines_sent(trace.replies) == matching_lines(patterns, lines)
            &&& n == matching_lines(patterns, lines).len()
        },
        trace.replies.len() <= 2 * lines.len() + 2,
{
    let n = trace.events.len() as int;
    lemma_scan_so_far(trace, patterns, lines, n);
    assert(trace.events.take(n) =~= trace.events);
    assert(trace.replies.take(n) =~= trace.replies);
    assert(lines.take(lines.len() as int) =~= lines);
    lemma_matching_is_no_more(patterns, lines.take(lines_read(trace.events) as int));
}

proof fn lemma_matching_is_no_more(patterns: Seq<Seq<char>>, lines: Seq<Seq<char>>)
    ensures
        matching_lines(patterns, lines).len() <= lines.len(),
{
    lines.lemma_filter_len(|l: Seq<char>| matcher::any_matches(patterns, l));
}

/// Where a scan stands after `k` events.
proof fn lemma_scan_so_far(
    trace: ScanTrace,
    patterns: Seq<Seq<char>>,
    lines: Seq<Seq<char>>,
    k: int,
)
    requires
        is_smooth_scan(trace, patterns, lines),
        1 <= k <= trace.events.len(),
    ensures
        ({
            let read = lines_read(trace.events.take(k)) as int;
            let reply = trace.replies[k - 1];
            let sent = matching_lines(patterns, lines.take(read));
            &&& read <= lines.len()
            &&& lines_sent(trace.replies.take(k)) == sent
            &&& trace.states[k].matched == sent.len()
            &&& reply is ReadLine || reply is Send || reply is Finish
            &&& reply matches ScanReply::Finish(n) ==> read == lines.len() && n == sent.len()
            &&& reply is ReadLine ==> k == 1 + read + sent.len()
            &&& reply is Send ==> k == read + sent.len()
            &&& reply is Finish ==> k == 2 + read + sent.len()
        }),
    decreases k,
{
    let event = trace.events[k - 1];
    assert(is_scan_step(trace, patterns, k - 1));
    lemma_what_a_scan_answers(trace.states[k - 1], patterns, event);
    lemma_what_a_scan_counts(trace.states[k - 1], patterns, event);
    assert(trace.events.take(k).drop_last() =~= trace.events.take(k - 1));
    assert(trace.replies.take(k).drop_last() =~= trace.replies.take(k - 1));
    assert(trace.events.take(k).last() == event);
    assert(trace.replies.take(k).last() == trace.replies[k - 1]);
    if k == 1 {
        assert(trace.events.take(0) =~= Seq::empty());
        assert(trace.replies.take(0) =~= Seq::empty());
        assert(lines.take(0) =~= Seq::empty());
        lemma_matching_lines_one_by_one(patterns, lines, lines, Seq::empty());
        assert(lines_sent(trace.replies.take(0)) =~= Seq::empty());
        assert(lines_read(trace.events.take(0)) == 0);
        assert(lines_sent(trace.replies.take(1)) =~= matching_lines(patterns, lines.take(0)));
    } else {
        lemma_scan_so_far(trace, patterns, lines, k - 1);
        assert(is_served(trace, lines, k - 2));
        let before = lines_read(trace.events.take(k - 1)) as int;
        if let ScanEvent::Line(line) = event {
            assert(lines.take(before + 1) =~= lines.take(before) + seq![line@]);
            lemma_matching_lines_one_by_one(patterns, lines.take(before), seq![line@], line@);
            assert(lines_sent(trace.replies.take(k)) =~= matching_lines(
                patterns,
                lines.take(before + 1),
            ));
        }
    }
}

} // verus!
