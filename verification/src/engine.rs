//! A run as a whole: the output file is made, the files are collected, the
//! patterns are compiled, every file is scanned by a worker of its own, and one
//! writer puts the matching lines into the output.
use vstd::prelude::*;

use crate::matcher;
use crate::matcher::CompileError;
use crate::matcher::MatchSet;
use crate::scan::ScanFailure;
use crate::text;
use crate::walk;
use crate::walk::DirWalk;
use crate::walk::Listing;
use crate::walk::WalkState;
use crate::writer::WriterFailure;

verus! {

/// The number of lines that the channel to the writer holds: workers that read
/// faster than the writer writes have to wait.
pub const DEFAULT_CHANNEL_CAPACITY: usize = 1024;

/// What to do in a run.
#[derive(Debug, Clone)]
pub struct EngineConfig {
    /// The directory to scan.
    pub dir: String,
    /// The file to write.
    pub output: String,
    /// The patterns to look for.
    pub patterns: Vec<String>,
    /// Whether to ignore case.
    pub ignore_case: bool,
    /// Whether to go into subdirectories.
    pub recursive: bool,
}

/// What a run came to.
#[derive(Debug, Clone, Copy, PartialEq, Eq, Structural)]
pub struct EngineStats {
    /// The files that were scanned to their end.
    pub files_processed: usize,
    /// The lines that matched in all files, which is the number of lines
    /// written.
    pub total_matches: usize,
}

/// How a worker ended.
#[derive(Debug, Clone, Copy, PartialEq, Eq, Structural)]
pub enum WorkerOutcome {
    /// It scanned its file to the end, and so many lines matched.
    Finished(usize),
    /// It gave its file up.
    Failed(ScanFailure),
    /// It panicked or was cancelled.
    Lost,
}

/// How the writer ended.
#[derive(Debug, Clone, Copy, PartialEq, Eq, Structural)]
pub enum WriterOutcome {
    /// It wrote so many lines, and flushed them.
    Finished(usize),
    /// It gave the output up.
    Failed(WriterFailure),
    /// It panicked or was cancelled.
    Lost,
}

/// Counts of a run without bound.
pub struct Tally {
    pub files: nat,
    pub matches: nat,
}

impl View for EngineStats {
    type V = Tally;

    open spec fn view(&self) -> Tally {
        Tally { files: self.files_processed as nat, matches: self.total_matches as nat }
    }
}

/// The counts when one more worker has ended. A file that was given up counts
/// for nothing.
pub open spec fn tallied(tally: Tally, outcome: WorkerOutcome) -> Tally {
    match outcome {
        WorkerOutcome::Finished(matched) => Tally {
            files: tally.files + 1,
            matches: tally.matches + matched as nat,
        },
        _ => tally,
    }
}

/// The counts can be held.
pub open spec fn fits(tally: Tally) -> bool {
    tally.files <= usize::MAX && tally.matches <= usize::MAX
}

impl Default for EngineStats {
    fn default() -> (stats: Self)
        ensures
            stats == (EngineStats { files_processed: 0, total_matches: 0 }),
    {
        EngineStats { files_processed: 0, total_matches: 0 }
    }
}

impl EngineStats {
    /// Whether one more outcome can be counted.
    pub fn has_room(&self, outcome: &WorkerOutcome) -> (room: bool)
        ensures
            room == fits(tallied(self@, *outcome)),
            outcome matches WorkerOutcome::Finished(matched) ==> room == (self.files_processed + 1
                <= usize::MAX && self.total_matches + *matched <= usize::MAX),
            !(outcome is Finished) ==> room,
    {
        match outcome {
            WorkerOutcome::Finished(matched) => self.files_processed < usize::MAX
                && self.total_matches <= usize::MAX - *matched,
            _ => true,
        }
    }

    /// Counts the outcome of a worker.
    pub fn record(&mut self, outcome: WorkerOutcome)
        requires
            fits(tallied(old(self)@, outcome)),
        ensures
            final(self)@ == tallied(old(self)@, outcome),
            outcome matches WorkerOutcome::Finished(matched) ==> final(self).files_processed == old(
                self,
            ).files_processed + 1 && final(self).total_matches == old(self).total_matches + matched,
            !(outcome is Finished) ==> *final(self) == *old(self),
    {
        match outcome {
            WorkerOutcome::Finished(matched) => {
                self.files_processed += 1;
                self.total_matches += matched;
            },
            _ => {},
        }
    }

    /// The counts of a run whose writer wrote so many lines. What a worker sent
    /// before it gave its file up is in the output too, so that the lines that
    /// matched are counted where they were written.
    pub fn settle(self, written: usize) -> (stats: EngineStats)
        ensures
            stats.files_processed == self.files_processed,
            stats.total_matches == written,
    {
        EngineStats { files_processed: self.files_processed, total_matches: written }
    }
}

/// Why a run failed.
#[derive(Debug)]
pub enum RunError {
    /// The output file could not be made.
    CreateOutput,
    /// There is no such directory as the one to scan.
    MissingRoot,
    /// The patterns do not compile.
    Compile(CompileError),
    /// The writer gave the output up.
    Writer(WriterFailure),
    /// The writer panicked or was cancelled.
    WriterLost,
}

impl RunError {
    /// What to say of the error, for a run whose output file is shown as `output`
    /// and whose directory is shown as `dir`.
    pub open spec fn headline(self, output: Seq<char>, dir: Seq<char>) -> Seq<char> {
        match self {
            RunError::CreateOutput => "Failed to pre-create/truncate output file: "@ + output,
            RunError::MissingRoot => "Failed to read directory: "@ + dir,
            RunError::Compile(error) => error.headline(),
            RunError::Writer(_) => "Writer task returned an IO or flush error"@,
            RunError::WriterLost => "Writer task panicked"@,
        }
    }

    /// What to say of the error, for a run whose output file is shown as `output`
    /// and whose directory is shown as `dir`.
    pub fn message(&self, output: &str, dir: &str) -> (line: String)
        ensures
            line@ == self.headline(output@, dir@),
            self is CreateOutput ==> line@ == "Failed to pre-create/truncate output file: "@
                + output@,
            self is MissingRoot ==> line@ == "Failed to read directory: "@ + dir@,
            self matches RunError::Compile(error) ==> line@ == error.headline(),
            self is Writer ==> line@ == "Writer task returned an IO or flush error"@,
            self is WriterLost ==> line@ == "Writer task panicked"@,
    {
        match self {
            RunError::CreateOutput => text::joined(
                "Failed to pre-create/truncate output file: ",
                output,
            ),
            RunError::MissingRoot => text::joined("Failed to read directory: ", dir),
            RunError::Compile(error) => error.message(),
            RunError::Writer(_) => "Writer task returned an IO or flush error".to_owned(),
            RunError::WriterLost => "Writer task panicked".to_owned(),
        }
    }
}

/// What happened outside.
pub enum RunEvent<P> {
    /// The output file exists and is empty.
    OutputCreated,
    /// The output file could not be made.
    OutputFailed,
    /// The canonical path of the output as bytes, where it could be had.
    OutputResolved(Option<Vec<u8>>),
    /// What reading the directory gave.
    DirectoryRead(Listing<P>),
    /// A worker ended.
    WorkerEnded(WorkerOutcome),
    /// All workers have ended.
    WorkersGone,
    /// The writer ended.
    WriterEnded(WriterOutcome),
}

/// What to do next.
pub enum RunAction<P> {
    /// Make the output file, or empty it.
    CreateOutput,
    /// Find the canonical path of the output.
    ResolveOutput,
    /// Read this directory.
    ReadDirectory(P),
    /// Start the writer, and a worker for each file.
    Launch { matcher: MatchSet, files: Vec<P> },
    /// Wait for the next worker to end.
    AwaitWorker,
    /// Wait for the writer to end. The workers came to these counts.
    AwaitWriter(EngineStats),
    /// The run is complete.
    Finish(EngineStats),
    /// The run has failed.
    Abort(RunError),
}

enum Phase<P> {
    Creating(P),
    Resolving(P),
    ReadingRoot(DirWalk<P>),
    Walking(DirWalk<P>),
    Joining(EngineStats),
    Closing(EngineStats),
    Over,
}

/// What a run waits for.
#[verifier::ext_equal]
pub enum RunPhase<P> {
    /// For the output file, before the walk from a directory.
    Creating(P),
    /// For the canonical path of the output.
    Resolving(P),
    /// For the entries of the directory to scan.
    ReadingRoot(WalkState<P>),
    /// For the entries of a directory below it.
    Walking(WalkState<P>),
    /// For the workers, which have come to these counts.
    Joining(EngineStats),
    /// For the writer.
    Closing(EngineStats),
    /// For nothing.
    Over,
}

/// How far a run has come.
#[verifier::ext_equal]
pub struct RunState<P> {
    pub patterns: Seq<Seq<char>>,
    pub ignore_case: bool,
    pub recursive: bool,
    pub phase: RunPhase<P>,
}

/// The run waits for this event.
pub open spec fn awaits<P>(state: RunState<P>, event: RunEvent<P>) -> bool {
    match (state.phase, event) {
        (RunPhase::Creating(_), RunEvent::OutputCreated) => true,
        (RunPhase::Creating(_), RunEvent::OutputFailed) => true,
        (RunPhase::Resolving(_), RunEvent::OutputResolved(_)) => true,
        (RunPhase::ReadingRoot(_), RunEvent::DirectoryRead(_)) => true,
        (RunPhase::Walking(_), RunEvent::DirectoryRead(_)) => true,
        (RunPhase::Joining(stats), RunEvent::WorkerEnded(outcome)) => fits(
            tallied(stats@, outcome),
        ),
        (RunPhase::Joining(_), RunEvent::WorkersGone) => true,
        (RunPhase::Closing(_), RunEvent::WriterEnded(_)) => true,
        _ => false,
    }
}

/// The run goes on with the walk: to the next directory, or, where none is
/// left, to the patterns and the files found.
pub open spec fn walks_on<P>(
    state: RunState<P>,
    walk: WalkState<P>,
    next: RunState<P>,
    action: RunAction<P>,
) -> bool {
    if walk.pending.len() > 0 {
        &&& next == RunState { phase: RunPhase::Walking(walk::walk_taken(walk)), ..state }
        &&& action == RunAction::ReadDirectory(walk.pending[0])
    } else if matcher::compiles(state.patterns, state.ignore_case) {
        &&& next == RunState {
            phase: RunPhase::Joining(EngineStats { files_processed: 0, total_matches: 0 }),
            ..state
        }
        &&& action matches RunAction::Launch { matcher, files } && matcher@
            == matcher::effective_all(state.patterns, state.ignore_case) && files@ == walk.files
    } else {
        &&& next == RunState { phase: RunPhase::Over, ..state }
        &&& action matches RunAction::Abort(RunError::Compile(error)) && matcher::explains(
            state.patterns,
            state.ignore_case,
            error,
        )
    }
}

/// The run, in this state, answers this event with this action and goes over to
/// the state `next`.
pub open spec fn steps<P>(
    state: RunState<P>,
    event: RunEvent<P>,
    next: RunState<P>,
    action: RunAction<P>,
) -> bool {
    match (state.phase, event) {
        (RunPhase::Creating(root), RunEvent::OutputCreated) => {
            &&& next == RunState { phase: RunPhase::Resolving(root), ..state }
            &&& action is ResolveOutput
        },
        (RunPhase::Creating(_), RunEvent::OutputFailed) => {
            &&& next == RunState { phase: RunPhase::Over, ..state }
            &&& action == RunAction::<P>::Abort(RunError::CreateOutput)
        },
        (RunPhase::Resolving(root), RunEvent::OutputResolved(path)) => {
            &&& next == RunState {
                phase: RunPhase::ReadingRoot(
                    walk::walk_taken(
                        walk::walk_start(root, state.recursive, walk::canonical(path)),
                    ),
                ),
                ..state
            }
            &&& action == RunAction::ReadDirectory(root)
        },
        (RunPhase::ReadingRoot(walk), RunEvent::DirectoryRead(listing)) => if listing is Missing {
            &&& next == RunState { phase: RunPhase::Over, ..state }
            &&& action == RunAction::<P>::Abort(RunError::MissingRoot)
        } else {
            walks_on(state, walk::walk_absorbed(walk, listing.entries()), next, action)
        },
        (RunPhase::Walking(walk), RunEvent::DirectoryRead(listing)) => walks_on(
            state,
            walk::walk_absorbed(walk, listing.entries()),
            next,
            action,
        ),
        (RunPhase::Joining(stats), RunEvent::WorkerEnded(outcome)) => {
            &&& next.phase matches RunPhase::Joining(after) && after@ == tallied(stats@, outcome)
            &&& next == RunState { phase: next.phase, ..state }
            &&& action is AwaitWorker
        },
        (RunPhase::Joining(stats), RunEvent::WorkersGone) => {
            &&& next == RunState { phase: RunPhase::Closing(stats), ..state }
            &&& action == RunAction::<P>::AwaitWriter(stats)
        },
        (RunPhase::Closing(stats), RunEvent::WriterEnded(outcome)) => {
            &&& next == RunState { phase: RunPhase::Over, ..state }
            &&& match outcome {
                WriterOutcome::Finished(written) => action == RunAction::<P>::Finish(
                    EngineStats {
                        files_processed: stats.files_processed,
                        total_matches: written,
                    },
                ),
                WriterOutcome::Failed(failure) => action == RunAction::<P>::Abort(
                    RunError::Writer(failure),
                ),
                WriterOutcome::Lost => action == RunAction::<P>::Abort(RunError::WriterLost),
            }
        },
        _ => false,
    }
}

/// What compiling the patterns leads to when the files are known.
pub fn launch_or_abort<P>(compiled: Result<MatchSet, CompileError>, files: Vec<P>) -> (action:
    RunAction<P>)
    ensures
        compiled matches Ok(matcher) ==> action == (RunAction::Launch { matcher, files }),
        compiled matches Err(error) ==> action == RunAction::<P>::Abort(RunError::Compile(error)),
{
    match compiled {
        Ok(matcher) => RunAction::Launch { matcher, files },
        Err(error) => RunAction::Abort(RunError::Compile(error)),
    }
}

/// A run.
pub struct Engine<P> {
    patterns: Vec<String>,
    ignore_case: bool,
    recursive: bool,
    phase: Phase<P>,
}

impl<P> View for Engine<P> {
    type V = RunState<P>;

    closed spec fn view(&self) -> RunState<P> {
        RunState {
            patterns: text::texts(self.patterns@),
            ignore_case: self.ignore_case,
            recursive: self.recursive,
            phase: match self.phase {
                Phase::Creating(root) => RunPhase::Creating(root),
                Phase::Resolving(root) => RunPhase::Resolving(root),
                Phase::ReadingRoot(walk) => RunPhase::ReadingRoot(walk@),
                Phase::Walking(walk) => RunPhase::Walking(walk@),
                Phase::Joining(stats) => RunPhase::Joining(stats),
                Phase::Closing(stats) => RunPhase::Closing(stats),
                Phase::Over => RunPhase::Over,
            },
        }
    }
}

impl<P> Engine<P> {
    /// A run with a configuration, and what to do first. `root` is the path of
    /// the directory to scan.
    pub fn start(config: EngineConfig, root: P) -> (started: (Engine<P>, RunAction<P>))
        ensures
            started.0@ == (RunState {
                patterns: text::texts(config.patterns@),
                ignore_case: config.ignore_case,
                recursive: config.recursive,
                phase: RunPhase::Creating(root),
            }),
            started.1 is CreateOutput,
    {
        let engine = Engine {
            patterns: config.patterns,
            ignore_case: config.ignore_case,
            recursive: config.recursive,
            phase: Phase::Creating(root),
        };
        (engine, RunAction::CreateOutput)
    }

    /// Whether the run waits for an event.
    pub fn expects(&self, event: &RunEvent<P>) -> (expected: bool)
        ensures
            expected == awaits(self@, *event),
    {
        match (&self.phase, event) {
            (Phase::Creating(_), RunEvent::OutputCreated) => true,
            (Phase::Creating(_), RunEvent::OutputFailed) => true,
            (Phase::Resolving(_), RunEvent::OutputResolved(_)) => true,
            (Phase::ReadingRoot(_), RunEvent::DirectoryRead(_)) => true,
            (Phase::Walking(_), RunEvent::DirectoryRead(_)) => true,
            (Phase::Joining(stats), RunEvent::WorkerEnded(outcome)) => stats.has_room(outcome),
            (Phase::Joining(_), RunEvent::WorkersGone) => true,
            (Phase::Closing(_), RunEvent::WriterEnded(_)) => true,
            _ => false,
        }
    }

    /// Takes note of an event and says what to do next.
    pub fn step(self, event: RunEvent<P>) -> (stepped: (Engine<P>, RunAction<P>))
        requires
            awaits(self@, event),
        ensures
            steps(self@, event, stepped.0@, stepped.1),
    {
        let Engine { patterns, ignore_case, recursive, phase } = self;
        match (phase, event) {
            (Phase::Creating(root), RunEvent::OutputCreated) => (
                Engine { patterns, ignore_case, recursive, phase: Phase::Resolving(root) },
                RunAction::ResolveOutput,
            ),
            (Phase::Resolving(root), RunEvent::OutputResolved(path)) => {
                let mut walk = DirWalk::new(root, recursive, path);
                match walk.next_directory() {
                    Some(dir) => (
                        Engine { patterns, ignore_case, recursive, phase: Phase::ReadingRoot(walk) },
                        RunAction::ReadDirectory(dir),
                    ),
                    None => vstd::pervasive::unreached(),
                }
            },
            (Phase::ReadingRoot(mut walk), RunEvent::DirectoryRead(listing)) => {
                if let Listing::Missing = listing {
                    (
                        Engine { patterns, ignore_case, recursive, phase: Phase::Over },
                        RunAction::Abort(RunError::MissingRoot),
                    )
                } else {
                    walk.absorb(listing);
                    Engine::walk_on(patterns, ignore_case, recursive, walk)
                }
            },
            (Phase::Walking(mut walk), RunEvent::DirectoryRead(listing)) => {
                walk.absorb(listing);
                Engine::walk_on(patterns, ignore_case, recursive, walk)
            },
            (Phase::Joining(mut stats), RunEvent::WorkerEnded(outcome)) => {
                stats.record(outcome);
                (
                    Engine { patterns, ignore_case, recursive, phase: Phase::Joining(stats) },
                    RunAction::AwaitWorker,
                )
            },
            (Phase::Joining(stats), RunEvent::WorkersGone) => (
                Engine { patterns, ignore_case, recursive, phase: Phase::Closing(stats) },
                RunAction::AwaitWriter(stats),
            ),
            (Phase::Closing(stats), RunEvent::WriterEnded(outcome)) => (
                Engine { patterns, ignore_case, recursive, phase: Phase::Over },
                match outcome {
                    WriterOutcome::Finished(written) => RunAction::Finish(stats.settle(written)),
                    WriterOutcome::Failed(failure) => RunAction::Abort(RunError::Writer(failure)),
                    WriterOutcome::Lost => RunAction::Abort(RunError::WriterLost),
                },
            ),
            (Phase::Creating(_), RunEvent::OutputFailed) => (
                Engine { patterns, ignore_case, recursive, phase: Phase::Over },
                RunAction::Abort(RunError::CreateOutput),
            ),
            _ => vstd::pervasive::unreached(),
        }
    }

    /// Goes on with a walk: to the next directory, or, where none is left, to
    /// the patterns and the files found.
    fn walk_on(
        patterns: Vec<String>,
        ignore_case: bool,
        recursive: bool,
        walk: DirWalk<P>,
    ) -> (stepped: (Engine<P>, RunAction<P>))
        ensures
            walks_on(
                (RunState {
                    patterns: text::texts(patterns@),
                    ignore_case,
                    recursive,
                    phase: RunPhase::Walking(walk@),
                }),
                walk@,
                stepped.0@,
                stepped.1,
            ),
    {
        let mut walk = walk;
        match walk.next_directory() {
            Some(dir) => (
                Engine { patterns, ignore_case, recursive, phase: Phase::Walking(walk) },
                RunAction::ReadDirectory(dir),
            ),
            None => {
                let compiled = MatchSet::compile(patterns.as_slice(), ignore_case);
                let phase = if compiled.is_ok() {
                    Phase::Joining(EngineStats::default())
                } else {
                    Phase::Over
                };
                (
                    Engine { patterns, ignore_case, recursive, phase },
                    launch_or_abort(compiled, walk.into_files()),
                )
            },
        }
    }
}

} // verus!
