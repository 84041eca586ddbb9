//! The course of a run, told by what happened and what was done: which action
//! follows on which event, given all events before it.
use vstd::prelude::*;

use crate::engine;
use crate::engine::RunAction;
use crate::engine::RunError;
use crate::engine::RunEvent;
use crate::engine::RunPhase;
use crate::engine::WorkerOutcome;
use crate::engine::WriterOutcome;
use crate::matcher;
use crate::run_laws;
use crate::run_laws::Trace;
use crate::walk;
use crate::walk::Entry;
use crate::walk::EntryKind;
use crate::walk::Listing;
use crate::walk_laws;

verus! {

/// The directories among entries, in order.
pub open spec fn directories_in<P>(entries: Seq<Entry<P>>) -> Seq<P>
    decreases entries.len(),
{
    if entries.len() == 0 {
        Seq::empty()
    } else {
        let front = directories_in(entries.drop_last());
        match entries.last().kind {
            EntryKind::Directory => front.push(entries.last().path),
            _ => front,
        }
    }
}

/// The regular files among entries, in order, but for one in the place of the output.
pub open spec fn files_in<P>(entries: Seq<Entry<P>>, output: Option<Seq<u8>>) -> Seq<P>
    decreases entries.len(),
{
    if entries.len() == 0 {
        Seq::empty()
    } else {
        let front = files_in(entries.drop_last(), output);
        match entries.last().kind {
            EntryKind::File(place) => if place matches Some(bytes) && output == Some(bytes@) {
                front
            } else {
                front.push(entries.last().path)
            },
            _ => front,
        }
    }
}

proof fn lemma_in_entries<P>(
    entries: Seq<Entry<P>>,
    recursive: bool,
    output: Option<Seq<u8>>,
)
    ensures
        walk::scanned_paths(entries, output) == files_in(entries, output),
        walk::entered_paths(entries, recursive) == if recursive {
            directories_in(entries)
        } else {
            Seq::<P>::empty()
        },
    decreases entries.len(),
{
    if entries.len() == 0 {
        reveal(Seq::filter);
        assert(walk::scanned_paths(entries, output) =~= Seq::<P>::empty());
        assert(walk::entered_paths(entries, recursive) =~= Seq::<P>::empty());
    } else {
        let front = entries.drop_last();
        let last = entries.last();
        lemma_in_entries(front, recursive, output);
        assert(entries =~= front + seq![last]);
        assert(last == Entry { path: last.path, kind: last.kind });
        walk_laws::lemma_entries_count_one_by_one(front, seq![last], recursive, output);
        walk_laws::lemma_every_file_but_the_output_is_scanned(last.path, last.kind, output);
        walk_laws::lemma_every_directory_is_entered(last.path, last.kind, recursive);
        assert(walk::scanned_paths(entries, output) =~= files_in(entries, output));
        assert(walk::entered_paths(entries, recursive) =~= if recursive {
            directories_in(entries)
        } else {
            Seq::<P>::empty()
        });
    }
}

/// The directories known after these events: the root and, where the run goes into
/// directories, those that were listed, in the order in which they were listed.
pub open spec fn directories_found<P>(
    events: Seq<RunEvent<P>>,
    root: P,
    recursive: bool,
) -> Seq<P>
    decreases events.len(),
{
    if events.len() == 0 {
        seq![root]
    } else {
        let before = directories_found(events.drop_last(), root, recursive);
        match events.last() {
            RunEvent::DirectoryRead(Listing::Entries(list)) => if recursive {
                before + directories_in(list@)
            } else {
                before
            },
            _ => before,
        }
    }
}

/// The files known after these events, in the order in which they were listed, but for
/// the output.
pub open spec fn files_found<P>(events: Seq<RunEvent<P>>, output: Option<Seq<u8>>) -> Seq<P>
    decreases events.len(),
{
    if events.len() == 0 {
        Seq::empty()
    } else {
        let before = files_found(events.drop_last(), output);
        match events.last() {
            RunEvent::DirectoryRead(Listing::Entries(list)) => before + files_in(list@, output),
            _ => before,
        }
    }
}

/// The number of workers that have scanned their file to the end.
pub open spec fn files_finished<P>(events: Seq<RunEvent<P>>) -> nat
    decreases events.len(),
{
    if events.len() == 0 {
        0
    } else {
        files_finished(events.drop_last()) + match events.last() {
            RunEvent::WorkerEnded(WorkerOutcome::Finished(_)) => 1nat,
            _ => 0nat,
        }
    }
}

/// The number of lines that those workers say have matched.
pub open spec fn matches_told<P>(events: Seq<RunEvent<P>>) -> nat
    decreases events.len(),
{
    if events.len() == 0 {
        0
    } else {
        matches_told(events.drop_last()) + match events.last() {
            RunEvent::WorkerEnded(WorkerOutcome::Finished(matched)) => matched as nat,
            _ => 0nat,
        }
    }
}

/// The place of the output, where it was found.
pub open spec fn place_of_output<P>(event: RunEvent<P>) -> Option<Seq<u8>> {
    match event {
        RunEvent::OutputResolved(Some(bytes)) => Some(bytes@),
        _ => None,
    }
}

/// What a run does when it has read `read` directories and heard of nothing but
/// `events`. It reads the next directory that is known and was not read, in the order
/// in which they became known. Where there is none left it launches its workers on all
/// files that are known, whatever their number, with all its patterns, behind the flag
/// where case is ignored; or, where the patterns do not compile, it fails.
pub open spec fn goes_on<P>(
    trace: Trace<P>,
    root: P,
    events: Seq<RunEvent<P>>,
    read: int,
    action: RunAction<P>,
) -> bool {
    let patterns = trace.states[0].patterns;
    let ignore_case = trace.states[0].ignore_case;
    let known = directories_found(events, root, trace.states[0].recursive);
    if read < known.len() {
        action == RunAction::ReadDirectory(known[read])
    } else if matcher::compiles(patterns, ignore_case) {
        &&& action matches RunAction::Launch { matcher, files }
        &&& files@ == files_found(events, place_of_output(events[1]))
        &&& matcher@.len() == patterns.len()
        &&& forall|i: int|
            0 <= i < patterns.len() ==> #[trigger] matcher@[i] == if ignore_case {
                "(?i)"@ + patterns[i]
            } else {
                patterns[i]
            }
    } else {
        &&& action matches RunAction::Abort(RunError::Compile(error))
        &&& matcher::explains(patterns, ignore_case, error)
    }
}

/// The course of a run: what can happen after each action, and what is done then.
/// - The output is made, or the run fails.
/// - Then its place is looked for, and then the root is read.
/// - A root that is missing makes the run fail. After any other listing the run goes on
///   as `goes_on` says.
/// - When its workers are launched it waits for them, one after the other, and when all
///   are gone for the writer.
/// - When the writer has finished the run is complete: it reports the workers that
///   finished and the lines that were written. When the writer failed or was lost, so
///   has the run.
/// - When it is complete or has failed nothing more happens.
pub proof fn lemma_course_of_a_run<P>(trace: Trace<P>, root: P, k: int)
    requires
        run_laws::is_run(trace, root),
        0 <= k < trace.events.len(),
    ensures
        trace.actions[0] is CreateOutput,
        ({
            let event = trace.events[k];
            let next = trace.actions[k + 1];
            let heard = trace.events.take(k + 1);
            match trace.actions[k] {
                RunAction::CreateOutput => {
                    ||| event is OutputCreated && next is ResolveOutput
                    ||| event is OutputFailed && next == RunAction::<P>::Abort(
                        RunError::CreateOutput,
                    )
                },
                RunAction::ResolveOutput => {
                    &&& k == 1
                    &&& event is OutputResolved
                    &&& next == RunAction::ReadDirectory(root)
                },
                RunAction::ReadDirectory(_) => {
                    &&& k >= 2
                    &&& event matches RunEvent::DirectoryRead(listing)
                    &&& if k == 2 && listing is Missing {
                        next == RunAction::<P>::Abort(RunError::MissingRoot)
                    } else {
                        goes_on(trace, root, heard, k - 1, next)
                    }
                },
                RunAction::Launch { .. } | RunAction::AwaitWorker => {
                    ||| event is WorkerEnded && next is AwaitWorker
                    ||| {
                        &&& event is WorkersGone
                        &&& next matches RunAction::AwaitWriter(stats)
                        &&& stats.files_processed == files_finished(heard)
                        &&& stats.total_matches == matches_told(heard)
                    }
                },
                RunAction::AwaitWriter(_) => {
                    &&& event matches RunEvent::WriterEnded(outcome)
                    &&& match outcome {
                        WriterOutcome::Finished(written) => {
                            &&& next matches RunAction::Finish(stats)
                            &&& stats.files_processed == files_finished(heard)
                            &&& stats.total_matches == written
                        },
                        WriterOutcome::Failed(failure) => next == RunAction::<P>::Abort(
                            RunError::Writer(failure),
                        ),
                        WriterOutcome::Lost => next == RunAction::<P>::Abort(RunError::WriterLost),
                    }
                },
                RunAction::Finish(_) => false,
                RunAction::Abort(_) => false,
            }
        }),
{
    lemma_where_a_run_stands(trace, root, k);
    lemma_where_a_run_stands(trace, root, k + 1);
    run_laws::lemma_run_keeps_its_settings(trace, root, k);
    assert(run_laws::is_step(trace, k));
    let heard = trace.events.take(k + 1);
    assert(heard.drop_last() =~= trace.events.take(k));
    assert(heard.last() == trace.events[k]);
    if k >= 2 {
        assert(heard[1] == trace.events[1]);
    }
    match (trace.states[k].phase, trace.events[k]) {
        (RunPhase::ReadingRoot(w), RunEvent::DirectoryRead(listing)) => {
            if !(listing is Missing) {
                lemma_goes_on(trace, root, k, w, listing);
            }
        },
        (RunPhase::Walking(w), RunEvent::DirectoryRead(listing)) => {
            lemma_goes_on(trace, root, k, w, listing);
        },
        _ => {},
    }
}

/// What a walk knows is what was listed.
spec fn knows<P>(trace: Trace<P>, root: P, k: int, w: walk::WalkState<P>) -> bool {
    &&& k >= 2
    &&& w.recursive == trace.states[0].recursive
    &&& w.output == place_of_output(trace.events[1])
    &&& w.files == files_found(trace.events.take(k), w.output)
    &&& directories_found(trace.events.take(k), root, w.recursive).len() >= k - 1
    &&& w.pending == directories_found(trace.events.take(k), root, w.recursive).skip(k - 1)
}

proof fn lemma_goes_on<P>(
    trace: Trace<P>,
    root: P,
    k: int,
    w: walk::WalkState<P>,
    listing: Listing<P>,
)
    requires
        run_laws::is_run(trace, root),
        2 <= k < trace.events.len(),
        knows(trace, root, k, w),
        trace.events[k] == RunEvent::<P>::DirectoryRead(listing),
        engine::walks_on(
            trace.states[k],
            walk::walk_absorbed(w, listing.entries()),
            trace.states[k + 1],
            trace.actions[k + 1],
        ),
    ensures
        goes_on(trace, root, trace.events.take(k + 1), k - 1, trace.actions[k + 1]),
        trace.actions[k + 1] is ReadDirectory ==> (trace.states[k + 1].phase matches RunPhase::Walking(
            next,
        ) && knows(trace, root, k + 1, next)),
{
    run_laws::lemma_run_keeps_its_settings(trace, root, k);
    let heard = trace.events.take(k + 1);
    assert(heard.drop_last() =~= trace.events.take(k));
    assert(heard[1] == trace.events[1]);
    let entries = listing.entries();
    lemma_in_entries(entries, w.recursive, w.output);
    walk_laws::lemma_entries_are_those_listed(listing);
    let after = walk::walk_absorbed(w, entries);
    let before = directories_found(trace.events.take(k), root, w.recursive);
    let known = directories_found(heard, root, w.recursive);
    assert(entries.len() == 0 ==> files_in(entries, w.output) =~= Seq::<P>::empty());
    assert(after.files =~= files_found(heard, w.output));
    assert(known =~= before + walk::entered_paths(entries, w.recursive));
    assert(after.pending =~= known.skip(k - 1));
    if after.pending.len() > 0 {
        assert(after.pending[0] == known[k - 1]);
        assert(walk::walk_taken(after).pending =~= known.skip(k));
    } else {
        matcher::lemma_the_flag_goes_before_every_pattern(
            trace.states[0].patterns,
            trace.states[0].ignore_case,
        );
    }
}

/// Where a run stands after `k` events.
proof fn lemma_where_a_run_stands<P>(trace: Trace<P>, root: P, k: int)
    requires
        run_laws::is_run(trace, root),
        0 <= k < trace.states.len(),
    ensures
        ({
            let heard = trace.events.take(k);
            let none = files_finished(heard) == 0 && matches_told(heard) == 0;
            match trace.actions[k] {
                RunAction::CreateOutput => k == 0 && none && trace.states[k].phase
                    == RunPhase::Creating(root),
                RunAction::ResolveOutput => k == 1 && none && trace.states[k].phase
                    == RunPhase::Resolving(root),
                RunAction::ReadDirectory(_) => {
                    &&& none
                    &&& if k == 2 {
                        trace.states[k].phase matches RunPhase::ReadingRoot(w) && knows(
                            trace,
                            root,
                            k,
                            w,
                        )
                    } else {
                        trace.states[k].phase matches RunPhase::Walking(w) && knows(
                            trace,
                            root,
                            k,
                            w,
                        )
                    }
                },
                RunAction::Launch { .. } | RunAction::AwaitWorker => {
                    &&& trace.states[k].phase matches RunPhase::Joining(stats)
                    &&& stats.files_processed == files_finished(heard)
                    &&& stats.total_matches == matches_told(heard)
                },
                RunAction::AwaitWriter(_) => {
                    &&& trace.states[k].phase matches RunPhase::Closing(stats)
                    &&& stats.files_processed == files_finished(heard)
                    &&& stats.total_matches == matches_told(heard)
                },
                RunAction::Finish(_) | RunAction::Abort(_) => trace.states[k].phase is Over,
            }
        }),
    decreases k,
{
    let heard = trace.events.take(k);
    if k == 0 {
        assert(heard =~= Seq::empty());
    } else {
        lemma_where_a_run_stands(trace, root, k - 1);
        run_laws::lemma_run_keeps_its_settings(trace, root, k - 1);
        assert(run_laws::is_step(trace, k - 1));
        assert(heard.drop_last() =~= trace.events.take(k - 1));
        assert(heard.last() == trace.events[k - 1]);
        match (trace.states[k - 1].phase, trace.events[k - 1]) {
            (RunPhase::Resolving(_), RunEvent::OutputResolved(path)) => {
                assert(k == 2);
                let w = walk::walk_taken(
                    walk::walk_start(root, trace.states[0].recursive, walk::canonical(path)),
                );
                assert(run_laws::is_step(trace, 0));
                let none: Seq<RunEvent<P>> = trace.events.take(0);
                assert(none =~= Seq::empty());
                let one = trace.events.take(1);
                assert(one.drop_last() =~= none);
                assert(one.last() == trace.events[0]);
                assert(directories_found(none, root, w.recursive) =~= seq![root]);
                assert(directories_found(one, root, w.recursive) =~= seq![root]);
                assert(directories_found(heard, root, w.recursive) =~= seq![root]);
                assert(files_found(none, w.output) =~= Seq::<P>::empty());
                assert(files_found(one, w.output) =~= Seq::<P>::empty());
                assert(files_found(heard, w.output) =~= Seq::<P>::empty());
                assert(w.pending =~= seq![root].skip(1));
                assert(knows(trace, root, k, w));
            },
            (RunPhase::ReadingRoot(w), RunEvent::DirectoryRead(listing)) => {
                if !(listing is Missing) {
                    lemma_goes_on(trace, root, k - 1, w, listing);
                }
            },
            (RunPhase::Walking(w), RunEvent::DirectoryRead(listing)) => {
                lemma_goes_on(trace, root, k - 1, w, listing);
            },
            _ => {},
        }
    }
}

/// What a run waits for: what was asked for by its last action, well or badly, and
/// nothing else. The end of a worker is waited for unless the counts would no longer
/// fit.
pub proof fn lemma_what_a_run_waits_for<P>(
    trace: Trace<P>,
    root: P,
    k: int,
    event: RunEvent<P>,
)
    requires
        run_laws::is_run(trace, root),
        0 <= k < trace.states.len(),
    ensures
        engine::awaits(trace.states[k], event) <==> match trace.actions[k] {
            RunAction::CreateOutput => event is OutputCreated || event is OutputFailed,
            RunAction::ResolveOutput => event is OutputResolved,
            RunAction::ReadDirectory(_) => event is DirectoryRead,
            RunAction::Launch { .. } | RunAction::AwaitWorker => {
                ||| event is WorkersGone
                ||| event matches RunEvent::WorkerEnded(outcome) && match outcome {
                    WorkerOutcome::Finished(matched) => {
                        &&& files_finished(trace.events.take(k)) + 1 <= usize::MAX
                        &&& matches_told(trace.events.take(k)) + matched <= usize::MAX
                    },
                    _ => true,
                }
            },
            RunAction::AwaitWriter(_) => event is WriterEnded,
            RunAction::Finish(_) | RunAction::Abort(_) => false,
        },
{
    lemma_where_a_run_stands(trace, root, k);
    if let RunPhase::Joining(stats) = trace.states[k].phase {
        assert(usize::MAX >= stats.files_processed);
        assert(stats@.files == stats.files_processed);
        assert(stats@.matches == stats.total_matches);
    }
}

/// A run waits for workers only when it has launched them.
pub proof fn lemma_workers_are_launched_first<P>(trace: Trace<P>, root: P, k: int)
    requires
        run_laws::is_run(trace, root),
        0 <= k < trace.states.len(),
        trace.states[k].phase is Joining || trace.states[k].phase is Closing
            || trace.actions[k] is AwaitWorker || trace.actions[k] is AwaitWriter
            || trace.actions[k] is Finish,
    ensures
        exists|j: int| 2 < j <= k && #[trigger] trace.actions[j] is Launch,
    decreases k,
{
    lemma_where_a_run_stands(trace, root, k);
    if trace.actions[k] is Launch {
        lemma_course_of_a_run(trace, root, k - 1);
    } else {
        lemma_course_of_a_run(trace, root, k - 1);
        lemma_where_a_run_stands(trace, root, k - 1);
        lemma_workers_are_launched_first(trace, root, k - 1);
        let j = choose|j: int| 2 < j <= k - 1 && #[trigger] trace.actions[j] is Launch;
        assert(trace.actions[j] is Launch);
    }
}

/// A run launches its workers once.
pub proof fn lemma_workers_are_launched_once<P>(trace: Trace<P>, root: P, j: int, k: int)
    requires
        run_laws::is_run(trace, root),
        0 <= j < k < trace.states.len(),
        trace.actions[j] is Launch,
    ensures
        !(trace.actions[k] is Launch),
        !(trace.actions[k] is ReadDirectory),
        !(trace.actions[k] is CreateOutput),
        !(trace.actions[k] is ResolveOutput),
    decreases k,
{
    if j < k - 1 {
        lemma_workers_are_launched_once(trace, root, j, k - 1);
    }
    lemma_course_of_a_run(trace, root, k - 1);
}

} // verus!
