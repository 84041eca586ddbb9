//! What holds of a run from its start to its end.
use vstd::prelude::*;

use crate::engine;
use crate::engine::RunAction;
use crate::engine::RunError;
use crate::engine::RunEvent;
use crate::engine::RunPhase;
use crate::engine::RunState;
use crate::engine::Tally;
use crate::engine::WorkerOutcome;
use crate::engine::WriterOutcome;
use crate::matcher;
use crate::scan;
use crate::walk;
use crate::walk::Entry;
use crate::walk::Listing;
use crate::walk_laws;

verus! {

/// What happened in a run: its states, the events between them, and the action
/// that led to each state's event.
pub struct Trace<P> {
    pub states: Seq<RunState<P>>,
    pub events: Seq<RunEvent<P>>,
    pub actions: Seq<RunAction<P>>,
}

/// The trace is that of a run that starts at `root`.
pub open spec fn is_run<P>(trace: Trace<P>, root: P) -> bool {
    &&& trace.states.len() == trace.events.len() + 1
    &&& trace.actions.len() == trace.states.len()
    &&& trace.states[0].phase == RunPhase::Creating(root)
    &&& trace.actions[0] is CreateOutput
    &&& forall|i: int| 0 <= i < trace.events.len() ==> #[trigger] is_step(trace, i)
}

/// Event `i` was waited for, and answered as it should.
pub open spec fn is_step<P>(trace: Trace<P>, i: int) -> bool {
    &&& engine::awaits(trace.states[i], trace.events[i])
    &&& engine::steps(
        trace.states[i],
        trace.events[i],
        trace.states[i + 1],
        trace.actions[i + 1],
    )
}

/// The directories read were found to hold what `tree` says.
pub open spec fn sees<P>(trace: Trace<P>, tree: spec_fn(P) -> Seq<Entry<P>>) -> bool {
    forall|i: int|
        0 <= i < trace.events.len() ==> (#[trigger] trace.events[i] matches RunEvent::DirectoryRead(
            listing,
        ) ==> (trace.actions[i] matches RunAction::ReadDirectory(dir) ==> listing.entries()
            == tree(dir)))
}

/// A run fails only where the output file cannot be made, the directory to scan
/// does not exist, the patterns do not compile, or the writer fails. A directory
/// that cannot be read and a worker that ends without a result do not make it
/// fail.
pub proof fn lemma_what_makes_a_run_fail<P>(
    state: RunState<P>,
    event: RunEvent<P>,
    next: RunState<P>,
    action: RunAction<P>,
)
    requires
        engine::steps(state, event, next, action),
        action is Abort,
    ensures
        ({
            ||| event is OutputFailed && action->Abort_0 is CreateOutput
            ||| event matches RunEvent::DirectoryRead(listing) && listing is Missing
                && state.phase is ReadingRoot && action->Abort_0 is MissingRoot
            ||| event matches RunEvent::WriterEnded(outcome) && !(outcome is Finished)
            ||| !matcher::compiles(state.patterns, state.ignore_case)
                && action->Abort_0 is Compile
        }),
{
}

/// A run keeps its patterns and its flags.
pub proof fn lemma_run_keeps_its_settings<P>(trace: Trace<P>, root: P, k: int)
    requires
        is_run(trace, root),
        0 <= k < trace.states.len(),
    ensures
        trace.states[k].patterns == trace.states[0].patterns,
        trace.states[k].ignore_case == trace.states[0].ignore_case,
        trace.states[k].recursive == trace.states[0].recursive,
    decreases k,
{
    if k > 0 {
        lemma_run_keeps_its_settings(trace, root, k - 1);
        assert(is_step(trace, k - 1));
    }
}

/// The first two steps of a run: the output file is made, and then its canonical
/// path is looked for, before any directory is read.
pub proof fn lemma_output_is_made_first<P>(trace: Trace<P>, root: P)
    requires
        is_run(trace, root),
    ensures
        trace.states.len() > 1 && !(trace.actions[1] is Abort) ==> trace.events[0] is OutputCreated
            && trace.actions[1] is ResolveOutput && trace.states[1].phase == RunPhase::Resolving(
            root,
        ),
        trace.states.len() > 1 && trace.actions[1] is Abort ==> trace.states.len() == 2,
        trace.states.len() > 2 ==> trace.events[1] is OutputResolved,
{
    if trace.events.len() > 0 {
        assert(is_step(trace, 0));
        if trace.events.len() > 1 {
            assert(is_step(trace, 1));
        }
    }
}

/// A run whose directory does not exist fails with that error, and is over.
pub proof fn lemma_missing_root_fails_the_run<P>(trace: Trace<P>, root: P)
    requires
        is_run(trace, root),
        trace.events.len() > 2,
        trace.events[2] == RunEvent::<P>::DirectoryRead(Listing::Missing),
    ensures
        trace.actions[2] == RunAction::<P>::ReadDirectory(root),
        trace.actions[3] == RunAction::<P>::Abort(RunError::MissingRoot),
        trace.states.len() == 4,
{
    lemma_output_is_made_first(trace, root);
    assert(is_step(trace, 0));
    assert(is_step(trace, 1));
    assert(is_step(trace, 2));
    if trace.events.len() > 3 {
        assert(is_step(trace, 3));
    }
}

/// After the second step a run does not come back to the output file, and after
/// the third not to the directory that it scans.
proof fn lemma_output_is_settled<P>(trace: Trace<P>, root: P, k: int)
    requires
        is_run(trace, root),
        2 <= k < trace.states.len(),
    ensures
        !(trace.states[k].phase is Creating),
        !(trace.states[k].phase is Resolving),
        trace.states[k].phase is ReadingRoot <==> k == 2,
    decreases k,
{
    lemma_output_is_made_first(trace, root);
    assert(is_step(trace, k - 1));
    if k > 2 {
        lemma_output_is_settled(trace, root, k - 1);
    } else {
        assert(is_step(trace, 0));
    }
}

/// The walk of a run is the walk through the tree that the run sees: as long as
/// it reads directories it is as far as `walked` says, and the files that it
/// launches its workers on are those that the finished walk has found.
pub proof fn lemma_run_walks_the_tree<P>(
    trace: Trace<P>,
    root: P,
    tree: spec_fn(P) -> Seq<Entry<P>>,
    k: int,
)
    requires
        is_run(trace, root),
        sees(trace, tree),
        2 <= k < trace.states.len(),
        trace.actions[k] is ReadDirectory || trace.actions[k] is Launch,
    ensures
        ({
            let output = walk::canonical(trace.events[1]->OutputResolved_0);
            let start = walk::walk_start(root, trace.states[0].recursive, output);
            let far = walk_laws::walked(tree, start, (k - 2) as nat).1;
            &&& trace.actions[k] matches RunAction::ReadDirectory(dir) ==> far.pending.len() > 0
                && dir == far.pending[0] && trace.states[k].phase == if k == 2 {
                RunPhase::ReadingRoot(walk::walk_taken(far))
            } else {
                RunPhase::Walking(walk::walk_taken(far))
            }
            &&& trace.actions[k] matches RunAction::Launch { matcher, files }
                ==> far.pending.len() == 0 && files@ == far.files && matcher@
                == matcher::effective_all(trace.states[0].patterns, trace.states[0].ignore_case)
        }),
    decreases k,
{
    lemma_output_is_made_first(trace, root);
    lemma_run_keeps_its_settings(trace, root, k - 1);
    assert(is_step(trace, 0));
    assert(is_step(trace, 1));
    assert(is_step(trace, k - 1));
    let output = walk::canonical(trace.events[1]->OutputResolved_0);
    let start = walk::walk_start(root, trace.states[0].recursive, output);
    if k > 2 {
        lemma_output_is_settled(trace, root, k - 1);
        assert(trace.states[k - 1].phase is Walking || trace.states[k - 1].phase is ReadingRoot);
        assert(is_step(trace, k - 2));
        lemma_run_walks_the_tree(trace, root, tree, k - 1);
        let before = walk_laws::walked(tree, start, (k - 3) as nat).1;
        assert(trace.actions[k - 1] == RunAction::<P>::ReadDirectory(before.pending[0]));
        let listing = trace.events[k - 1]->DirectoryRead_0;
        assert(trace.events[k - 1] == RunEvent::<P>::DirectoryRead(listing));
        assert(listing.entries() == tree(before.pending[0]));
        assert(walk_laws::walked(tree, start, (k - 2) as nat).1 == walk::walk_absorbed(
            walk::walk_taken(before),
            listing.entries(),
        ));
    } else {
        assert(walk_laws::walked(tree, start, 0).1 == start);
    }
}

/// A run launches its workers on exactly the files that are entries of a
/// directory that can be reached from the root, the output excepted.
pub proof fn lemma_run_scans_every_file<P>(
    trace: Trace<P>,
    root: P,
    tree: spec_fn(P) -> Seq<Entry<P>>,
    k: int,
    path: P,
)
    requires
        is_run(trace, root),
        sees(trace, tree),
        0 <= k < trace.states.len(),
        trace.actions[k] is Launch,
    ensures
        trace.actions[k]->files@.contains(path) <==> exists|dir: P|
            {
                &&& #[trigger] walk_laws::is_reachable(
                    tree,
                    trace.states[0].recursive,
                    root,
                    dir,
                )
                &&& walk::scanned_paths(
                    tree(dir),
                    walk::canonical(trace.events[1]->OutputResolved_0),
                ).contains(path)
            },
{
    lemma_output_is_made_first(trace, root);
    lemma_run_walks_the_tree(trace, root, tree, k);
    walk_laws::lemma_finished_walk_has_found_every_file(
        tree,
        root,
        trace.states[0].recursive,
        walk::canonical(trace.events[1]->OutputResolved_0),
        (k - 2) as nat,
        path,
    );
}

/// Where every path is an entry of one directory only, a run launches no two workers
/// on the same file.
pub proof fn lemma_run_scans_no_file_twice<P>(
    trace: Trace<P>,
    root: P,
    tree: spec_fn(P) -> Seq<Entry<P>>,
    k: int,
)
    requires
        is_run(trace, root),
        sees(trace, tree),
        0 <= k < trace.states.len(),
        trace.actions[k] is Launch,
        walk_laws::paths_are_unique(tree, root),
    ensures
        trace.actions[k]->files@.no_duplicates(),
{
    lemma_output_is_made_first(trace, root);
    lemma_run_walks_the_tree(trace, root, tree, k);
    walk_laws::lemma_no_path_comes_twice(
        tree,
        root,
        trace.states[0].recursive,
        walk::canonical(trace.events[1]->OutputResolved_0),
        (k - 2) as nat,
    );
}

/// A run does not read its own output: no worker is launched on a path that is
/// the output wherever it stands.
pub proof fn lemma_run_does_not_read_its_output<P>(
    trace: Trace<P>,
    root: P,
    tree: spec_fn(P) -> Seq<Entry<P>>,
    k: int,
    path: P,
)
    requires
        is_run(trace, root),
        sees(trace, tree),
        0 <= k < trace.states.len(),
        trace.actions[k] is Launch,
        forall|dir: P, i: int|
            0 <= i < tree(dir).len() && (#[trigger] tree(dir)[i]).path == path ==> walk::is_output(
                tree(dir)[i],
                walk::canonical(trace.events[1]->OutputResolved_0),
            ),
    ensures
        !trace.actions[k]->files@.contains(path),
{
    lemma_output_is_made_first(trace, root);
    lemma_run_walks_the_tree(trace, root, tree, k);
    walk_laws::lemma_output_is_not_scanned(
        tree,
        root,
        trace.states[0].recursive,
        walk::canonical(trace.events[1]->OutputResolved_0),
        (k - 2) as nat,
        path,
    );
}

/// A run whose patterns do not compile launches no worker and is never complete.
pub proof fn lemma_bad_patterns_launch_nothing<P>(trace: Trace<P>, root: P, k: int)
    requires
        is_run(trace, root),
        !matcher::compiles(trace.states[0].patterns, trace.states[0].ignore_case),
        0 <= k < trace.states.len(),
    ensures
        !(trace.actions[k] is Launch),
        !(trace.actions[k] is Finish),
        !(trace.states[k].phase is Joining),
        !(trace.states[k].phase is Closing),
    decreases k,
{
    if k > 0 {
        lemma_bad_patterns_launch_nothing(trace, root, k - 1);
        lemma_run_keeps_its_settings(trace, root, k - 1);
        assert(is_step(trace, k - 1));
    }
}

/// The counts that the events of a run come to.
pub open spec fn tally_of<P>(events: Seq<RunEvent<P>>) -> Tally
    decreases events.len(),
{
    if events.len() == 0 {
        Tally { files: 0, matches: 0 }
    } else {
        let before = tally_of(events.drop_last());
        match events.last() {
            RunEvent::WorkerEnded(outcome) => engine::tallied(before, outcome),
            _ => before,
        }
    }
}

/// A run that is complete reports the files of the workers that finished, and
/// the lines that the writer wrote.
pub proof fn lemma_what_a_complete_run_reports<P>(trace: Trace<P>, root: P, k: int)
    requires
        is_run(trace, root),
        0 < k < trace.states.len(),
        trace.actions[k] is Finish,
    ensures
        trace.actions[k]->Finish_0.files_processed == tally_of(trace.events).files,
        trace.events[k - 1] == RunEvent::<P>::WriterEnded(
            WriterOutcome::Finished(trace.actions[k]->Finish_0.total_matches),
        ),
        k == trace.states.len() - 1,
{
    assert(is_step(trace, k - 1));
    lemma_counts_of_a_run(trace, root, k - 1);
    if k < trace.states.len() - 1 {
        assert(is_step(trace, k));
    }
    assert(trace.events.take(k).drop_last() =~= trace.events.take(k - 1));
    assert(trace.events.take(k) =~= trace.events);
}

proof fn lemma_counts_of_a_run<P>(trace: Trace<P>, root: P, k: int)
    requires
        is_run(trace, root),
        0 <= k < trace.states.len(),
    ensures
        match trace.states[k].phase {
            RunPhase::Joining(stats) => stats@ == tally_of(trace.events.take(k)),
            RunPhase::Closing(stats) => stats@ == tally_of(trace.events.take(k)),
            RunPhase::Over => true,
            _ => tally_of(trace.events.take(k)) == (Tally { files: 0, matches: 0 }),
        },
    decreases k,
{
    if k > 0 {
        lemma_counts_of_a_run(trace, root, k - 1);
        assert(is_step(trace, k - 1));
        assert(trace.events.take(k).drop_last() =~= trace.events.take(k - 1));
    }
}

/// The counts that outcomes come to, one after the other.
pub open spec fn tally_outcomes(outcomes: Seq<WorkerOutcome>) -> Tally
    decreases outcomes.len(),
{
    if outcomes.len() == 0 {
        Tally { files: 0, matches: 0 }
    } else {
        engine::tallied(tally_outcomes(outcomes.drop_last()), outcomes.last())
    }
}

/// A worker that finished counts for one file and for the lines that it told, and any
/// other for nothing.
pub proof fn lemma_what_an_outcome_counts_for(before: Tally, outcome: WorkerOutcome)
    ensures
        outcome matches WorkerOutcome::Finished(matched) ==> engine::tallied(before, outcome) == (
        Tally { files: before.files + 1, matches: before.matches + matched as nat }),
        !(outcome is Finished) ==> engine::tallied(before, outcome) == before,
        engine::fits(before) <==> before.files <= usize::MAX && before.matches <= usize::MAX,
{
}

/// The order in which the workers end does not matter.
pub proof fn lemma_order_of_workers_does_not_matter(
    one: Seq<WorkerOutcome>,
    other: Seq<WorkerOutcome>,
)
    requires
        one.to_multiset() == other.to_multiset(),
    ensures
        tally_outcomes(one) == tally_outcomes(other),
    decreases one.len(),
{
    one.to_multiset_ensures();
    other.to_multiset_ensures();
    if one.len() > 0 {
        let last = one.last();
        assert(one.contains(last)) by {
            assert(one[one.len() - 1] == last);
        }
        assert(other.to_multiset().count(last) > 0);
        assert(other.contains(last));
        let j = choose|j: int| 0 <= j < other.len() && other[j] == last;
        let front = one.drop_last();
        assert(front =~= one.remove(one.len() - 1));
        lemma_order_of_workers_does_not_matter(front, other.remove(j));
        lemma_tally_remove(other, j);
    }
}

proof fn lemma_tally_remove(outcomes: Seq<WorkerOutcome>, j: int)
    requires
        0 <= j < outcomes.len(),
    ensures
        tally_outcomes(outcomes) == engine::tallied(tally_outcomes(outcomes.remove(j)), outcomes[j]),
    decreases outcomes.len(),
{
    if j == outcomes.len() - 1 {
        assert(outcomes.remove(j) =~= outcomes.drop_last());
    } else {
        let front = outcomes.drop_last();
        lemma_tally_remove(front, j);
        assert(outcomes.remove(j).drop_last() =~= front.remove(j));
        assert(outcomes.remove(j).last() == outcomes.last());
    }
}

/// The lines of all files that match, file after file.
pub open spec fn gathered(
    patterns: Seq<Seq<char>>,
    files: Seq<Seq<Seq<char>>>,
) -> Seq<Seq<char>> {
    files.flat_map(|lines: Seq<Seq<char>>| scan::matching_lines(patterns, lines))
}

/// The number of lines that match, over all files.
pub open spec fn matches_in(patterns: Seq<Seq<char>>, files: Seq<Seq<Seq<char>>>) -> nat
    decreases files.len(),
{
    if files.len() == 0 {
        0
    } else {
        matches_in(patterns, files.drop_last()) + scan::scanned(patterns, files.last()).0.matched
    }
}

/// Worker `i` read `files[i]`, whether to the end or until it gave the file up,
/// and a worker that finished told how many of its lines matched.
pub open spec fn workers_told_the_truth(
    patterns: Seq<Seq<char>>,
    files: Seq<Seq<Seq<char>>>,
    outcomes: Seq<WorkerOutcome>,
) -> bool {
    &&& outcomes.len() == files.len()
    &&& forall|i: int|
        0 <= i < files.len() ==> (#[trigger] outcomes[i] matches WorkerOutcome::Finished(matched)
            ==> matched == scan::scanned(patterns, files[i]).0.matched)
}

/// The writer has received what the workers sent, in whatever order. Then it has
/// received as many lines as matched in what the workers read. Each line received
/// matches and was read by a worker, and each line that was read and matches was
/// received. Where every worker finished, the workers have counted as many lines
/// as were received.
pub proof fn lemma_nothing_is_lost_on_the_way(
    patterns: Seq<Seq<char>>,
    files: Seq<Seq<Seq<char>>>,
    outcomes: Seq<WorkerOutcome>,
    received: Seq<Seq<char>>,
)
    requires
        workers_told_the_truth(patterns, files, outcomes),
        received.to_multiset() == gathered(patterns, files).to_multiset(),
    ensures
        received.len() == matches_in(patterns, files),
        forall|line: Seq<char>| #[trigger]
            received.contains(line) <==> matcher::any_matches(patterns, line) && (exists|i: int|
                0 <= i < files.len() && (#[trigger] files[i]).contains(line)),
        (forall|i: int| 0 <= i < outcomes.len() ==> (#[trigger] outcomes[i]) is Finished)
            ==> tally_outcomes(outcomes).files == files.len() && tally_outcomes(outcomes).matches
            == received.len(),
{
    let all = gathered(patterns, files);
    received.to_multiset_ensures();
    all.to_multiset_ensures();
    lemma_gathered_len(patterns, files);
    assert forall|line: Seq<char>| #[trigger]
        received.contains(line) <==> matcher::any_matches(patterns, line) && (exists|i: int|
            0 <= i < files.len() && (#[trigger] files[i]).contains(line)) by {
        assert(received.contains(line) <==> received.to_multiset().count(line) > 0);
        assert(all.contains(line) <==> all.to_multiset().count(line) > 0);
        lemma_gathered_contains(patterns, files, line);
    }
    if forall|i: int| 0 <= i < outcomes.len() ==> (#[trigger] outcomes[i]) is Finished {
        lemma_finished_workers_count_all(patterns, files, outcomes);
    }
}

/// What worker `i` sent of the lines received, in the order in which they came,
/// where `origin` tells which worker each line came from.
pub open spec fn lines_from(
    received: Seq<Seq<char>>,
    origin: Seq<int>,
    i: int,
) -> Seq<Seq<char>>
    decreases received.len(),
{
    if received.len() == 0 {
        Seq::empty()
    } else {
        let front = lines_from(received.drop_last(), origin.drop_last(), i);
        if origin.last() == i {
            front.push(received.last())
        } else {
            front
        }
    }
}

/// The lines received are those that the workers sent, where what each worker sent
/// comes in the order in which it was sent: `origin` tells which worker each line
/// came from.
pub open spec fn is_merge(
    sent: Seq<Seq<Seq<char>>>,
    received: Seq<Seq<char>>,
    origin: Seq<int>,
) -> bool {
    &&& origin.len() == received.len()
    &&& forall|k: int| 0 <= k < origin.len() ==> 0 <= #[trigger] origin[k] < sent.len()
    &&& forall|i: int|
        0 <= i < sent.len() ==> #[trigger] lines_from(received, origin, i) == sent[i]
}

/// `at` gives the places of the lines of `part` in `whole`, one behind the other.
pub open spec fn are_places(
    part: Seq<Seq<char>>,
    whole: Seq<Seq<char>>,
    at: Seq<int>,
) -> bool {
    &&& at.len() == part.len()
    &&& forall|j: int|
        0 <= j < at.len() ==> 0 <= #[trigger] at[j] < whole.len() && whole[at[j]] == part[j]
    &&& forall|j: int, k: int| 0 <= j < k < at.len() ==> #[trigger] at[j] < #[trigger] at[k]
}

/// The lines of `part` stand in `whole`, in their order.
pub open spec fn stand_in_order(part: Seq<Seq<char>>, whole: Seq<Seq<char>>) -> bool {
    exists|at: Seq<int>| are_places(part, whole, at)
}

/// The writer receives what the workers send, that of each worker in the order in
/// which it was sent. Then the matching lines of each file stand among the lines
/// received in the order of the file, and all together the lines received are the
/// matching lines of all files.
pub proof fn lemma_order_within_a_file_is_kept(
    patterns: Seq<Seq<char>>,
    files: Seq<Seq<Seq<char>>>,
    received: Seq<Seq<char>>,
    origin: Seq<int>,
)
    requires
        is_merge(
            files.map_values(|lines: Seq<Seq<char>>| scan::scanned(patterns, lines).1),
            received,
            origin,
        ),
    ensures
        forall|i: int|
            0 <= i < files.len() ==> stand_in_order(
                scan::matching_lines(patterns, #[trigger] files[i]),
                received,
            ),
        received.to_multiset() == gathered(patterns, files).to_multiset(),
{
    let sent = files.map_values(|lines: Seq<Seq<char>>| scan::scanned(patterns, lines).1);
    let pick = |lines: Seq<Seq<char>>| scan::matching_lines(patterns, lines);
    assert forall|i: int| 0 <= i < files.len() implies #[trigger] sent[i] == scan::matching_lines(
        patterns,
        files[i],
    ) by {
        scan::lemma_scan_sends_the_matching_lines(patterns, files[i]);
    }
    assert forall|i: int| 0 <= i < files.len() implies stand_in_order(
        scan::matching_lines(patterns, #[trigger] files[i]),
        received,
    ) by {
        let at = lemma_places(received, origin, i);
        assert(lines_from(received, origin, i) == sent[i]);
        assert(are_places(sent[i], received, at));
    }
    assert(sent =~= files.map_values(pick));
    lemma_merge_is_all_that_was_sent(sent, received, origin);
}

/// Where the lines that came from worker `i` stand.
proof fn lemma_places(received: Seq<Seq<char>>, origin: Seq<int>, i: int) -> (at: Seq<int>)
    ensures
        are_places(lines_from(received, origin, i), received, at),
    decreases received.len(),
{
    if received.len() == 0 {
        Seq::empty()
    } else {
        let front = lemma_places(received.drop_last(), origin.drop_last(), i);
        if origin.last() == i {
            front.push(received.len() - 1)
        } else {
            front
        }
    }
}

proof fn lemma_merge_is_all_that_was_sent(
    sent: Seq<Seq<Seq<char>>>,
    received: Seq<Seq<char>>,
    origin: Seq<int>,
)
    requires
        is_merge(sent, received, origin),
    ensures
        received.to_multiset() == sent.flatten().to_multiset(),
    decreases received.len(),
{
    if received.len() == 0 {
        assert forall|i: int| 0 <= i < sent.len() implies (#[trigger] sent[i]).len() == 0 by {
            assert(lines_from(received, origin, i) == sent[i]);
        }
        lemma_nothing_sent(sent);
        assert(sent.flatten() =~= received);
    } else {
        let w = origin.last();
        let line = received.last();
        assert(origin[origin.len() - 1] == w);
        assert(lines_from(received, origin, w) == sent[w]);
        let before = sent.update(w, sent[w].drop_last());
        let front = received.drop_last();
        let places = origin.drop_last();
        assert forall|i: int| 0 <= i < before.len() implies #[trigger] lines_from(front, places, i)
            == before[i] by {
            assert(lines_from(received, origin, i) == sent[i]);
            if i == w {
                assert(lines_from(front, places, i) =~= sent[w].drop_last());
            }
        }
        lemma_merge_is_all_that_was_sent(before, front, places);
        assert(before[w].push(line) =~= sent[w]);
        assert(before.update(w, before[w].push(line)) =~= sent);
        lemma_one_line_more(before, w, line);
        assert(front.push(line) =~= received);
        front.to_multiset_ensures();
    }
}

proof fn lemma_nothing_sent(sent: Seq<Seq<Seq<char>>>)
    requires
        forall|i: int| 0 <= i < sent.len() ==> (#[trigger] sent[i]).len() == 0,
    ensures
        sent.flatten().len() == 0,
    decreases sent.len(),
{
    if sent.len() > 0 {
        let rest = sent.drop_first();
        assert forall|i: int| 0 <= i < rest.len() implies (#[trigger] rest[i]).len() == 0 by {
            assert(rest[i] == sent[i + 1]);
        }
        lemma_nothing_sent(rest);
        assert(sent[0].len() == 0);
    }
}

proof fn lemma_one_line_more(sent: Seq<Seq<Seq<char>>>, w: int, line: Seq<char>)
    requires
        0 <= w < sent.len(),
    ensures
        sent.update(w, sent[w].push(line)).flatten().to_multiset()
            == sent.flatten().to_multiset().insert(line),
    decreases sent.len(),
{
    let more = sent.update(w, sent[w].push(line));
    let rest = sent.drop_first();
    vstd::seq_lib::lemma_multiset_commutative(sent.first(), rest.flatten());
    vstd::seq_lib::lemma_multiset_commutative(more.first(), more.drop_first().flatten());
    if w == 0 {
        assert(more.drop_first() =~= rest);
        sent.first().to_multiset_ensures();
        assert(more.first() == sent.first().push(line));
    } else {
        assert(more.drop_first() =~= rest.update(w - 1, rest[w - 1].push(line)));
        lemma_one_line_more(rest, w - 1, line);
        assert(more.first() == sent.first());
    }
    assert(more.flatten().to_multiset() =~= sent.flatten().to_multiset().insert(line));
}

proof fn lemma_gathered_len(patterns: Seq<Seq<char>>, files: Seq<Seq<Seq<char>>>)
    ensures
        gathered(patterns, files).len() == matches_in(patterns, files),
    decreases files.len(),
{
    let pick = |lines: Seq<Seq<char>>| scan::matching_lines(patterns, lines);
    if files.len() == 0 {
        assert(gathered(patterns, files) =~= Seq::empty());
    } else {
        let front = files.drop_last();
        lemma_gathered_len(patterns, front);
        front.lemma_flat_map_push(pick, files.last());
        assert(front.push(files.last()) =~= files);
        scan::lemma_scan_sends_the_matching_lines(patterns, files.last());
    }
}

proof fn lemma_gathered_contains(
    patterns: Seq<Seq<char>>,
    files: Seq<Seq<Seq<char>>>,
    line: Seq<char>,
)
    ensures
        gathered(patterns, files).contains(line) <==> matcher::any_matches(patterns, line) && (
        exists|i: int| 0 <= i < files.len() && (#[trigger] files[i]).contains(line)),
{
    let pick = |lines: Seq<Seq<char>>| scan::matching_lines(patterns, lines);
    walk_laws::lemma_flat_map_contains(files, pick, line);
    if gathered(patterns, files).contains(line) {
        let i = choose|i: int| 0 <= i < files.len() && pick(#[trigger] files[i]).contains(line);
        lemma_matching_contains(patterns, files[i], line);
    }
    if matcher::any_matches(patterns, line) && (exists|i: int|
        0 <= i < files.len() && (#[trigger] files[i]).contains(line)) {
        let i = choose|i: int| 0 <= i < files.len() && (#[trigger] files[i]).contains(line);
        lemma_matching_contains(patterns, files[i], line);
        assert(pick(files[i]).contains(line));
    }
}

proof fn lemma_matching_contains(
    patterns: Seq<Seq<char>>,
    lines: Seq<Seq<char>>,
    line: Seq<char>,
)
    ensures
        scan::matching_lines(patterns, lines).contains(line) <==> matcher::any_matches(
            patterns,
            line,
        ) && lines.contains(line),
{
    let hits = |l: Seq<char>| matcher::any_matches(patterns, l);
    let kept = lines.filter(hits);
    if kept.contains(line) {
        let k = choose|k: int| 0 <= k < kept.len() && kept[k] == line;
        lines.lemma_filter_pred(hits, k);
        lines.lemma_filter_contains_rev(hits, line);
    }
    if matcher::any_matches(patterns, line) && lines.contains(line) {
        let k = choose|k: int| 0 <= k < lines.len() && lines[k] == line;
        lines.lemma_filter_contains(hits, k);
    }
}

proof fn lemma_finished_workers_count_all(
    patterns: Seq<Seq<char>>,
    files: Seq<Seq<Seq<char>>>,
    outcomes: Seq<WorkerOutcome>,
)
    requires
        workers_told_the_truth(patterns, files, outcomes),
        forall|i: int| 0 <= i < outcomes.len() ==> (#[trigger] outcomes[i]) is Finished,
    ensures
        tally_outcomes(outcomes).files == files.len(),
        tally_outcomes(outcomes).matches == matches_in(patterns, files),
    decreases files.len(),
{
    if files.len() > 0 {
        let front = outcomes.drop_last();
        assert forall|i: int| 0 <= i < front.len() implies (#[trigger] front[i]) is Finished && (
        front[i] matches WorkerOutcome::Finished(matched) ==> matched == scan::scanned(
            patterns,
            files.drop_last()[i],
        ).0.matched) by {
            assert(outcomes[i] == front[i]);
        }
        lemma_finished_workers_count_all(patterns, files.drop_last(), front);
        assert(outcomes[outcomes.len() - 1] is Finished);
    }
}

} // verus!
