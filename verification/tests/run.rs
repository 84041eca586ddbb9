//! Whole runs over a disk in memory.
use tgrep::engine::launch_or_abort;
use tgrep::engine::Engine;
use tgrep::engine::EngineConfig;
use tgrep::engine::EngineStats;
use tgrep::engine::RunAction;
use tgrep::engine::RunError;
use tgrep::engine::RunEvent;
use tgrep::engine::WorkerOutcome;
use tgrep::engine::WriterOutcome;
use tgrep::engine::DEFAULT_CHANNEL_CAPACITY;
use tgrep::logger::choose_filter;
use tgrep::logger::FilterSource;
use tgrep::matcher::MatchSet;
use tgrep::scan::FileScan;
use tgrep::scan::ScanAction;
use tgrep::scan::ScanEvent;
use tgrep::scan::ScanFailure;
use tgrep::walk::Entry;
use tgrep::walk::EntryKind;
use tgrep::walk::Listing;
use tgrep::writer::OutputWriter;
use tgrep::writer::WriterAction;
use tgrep::writer::WriterEvent;
use tgrep::writer::WriterFailure;

const A_LOG: &str = "\
2026-08-05 10:00 [INFO] User logged in
2026-08-05 10:01 [ERROR] AlphaMarker failed to connect database
2026-08-05 10:03 [WARN] BetaMarker cache miss
";

const B_LOG: &str = "\
2026-08-05 10:02 [INFO] request ok
2026-08-05 10:05 [ERROR] betamarker module IO timeout
";

const DEEP_LOG: &str = "\
2026-08-05 10:08 [INFO] nested task started
2026-08-05 10:09 [ERROR] AlphaMarker DEEP_MATCH_MARKER in nested
";

/// Files with their text, and directories, by path. A broken file cannot be read
/// beyond its first line.
struct Disk {
    files: Vec<(String, String)>,
    broken: Vec<String>,
    directories: Vec<String>,
    locked: Vec<String>,
}

impl Disk {
    fn new() -> Disk {
        Disk {
            files: vec![
                ("root/a.log".to_string(), A_LOG.to_string()),
                ("root/b.log".to_string(), B_LOG.to_string()),
                ("root/sub/deep.log".to_string(), DEEP_LOG.to_string()),
            ],
            broken: Vec::new(),
            directories: vec!["root".to_string(), "root/sub".to_string()],
            locked: Vec::new(),
        }
    }

    fn set(&mut self, name: &str, text: &str) {
        let path = format!("root/{}", name);
        self.files.retain(|(p, _)| *p != path);
        self.files.push((path, text.to_string()));
    }

    fn remove(&mut self, name: &str) {
        let path = format!("root/{}", name);
        self.files.retain(|(p, _)| *p != path);
    }

    fn text(&self, name: &str) -> String {
        let path = format!("root/{}", name);
        self.files.iter().find(|(p, _)| *p == path).expect("output file should exist").1.clone()
    }

    fn lines_sorted(&self, name: &str) -> Vec<String> {
        let mut lines: Vec<String> = self.text(name).lines().map(|l| l.to_string()).collect();
        lines.sort();
        lines
    }

    fn read_directory(&self, dir: &str) -> Listing<String> {
        if !self.directories.iter().any(|d| d == dir) {
            return Listing::Missing;
        }
        if self.locked.iter().any(|d| d == dir) {
            return Listing::Unreadable;
        }
        let inside = |path: &str| match path.strip_prefix(&format!("{}/", dir)) {
            Some(rest) => !rest.contains('/'),
            None => false,
        };
        let mut entries: Vec<Entry<String>> = Vec::new();
        for d in &self.directories {
            if inside(d) {
                entries.push(Entry { path: d.clone(), kind: EntryKind::Directory });
            }
        }
        for (path, _) in &self.files {
            if inside(path) {
                let place = Some(path.as_bytes().to_vec());
                entries.push(Entry { path: path.clone(), kind: EntryKind::File(place) });
            }
        }
        Listing::Entries(entries)
    }

    fn scan(&self, path: &str, matcher: &MatchSet, channel: &mut Vec<String>) -> WorkerOutcome {
        let text = &self.files.iter().find(|(p, _)| p == path).unwrap().1;
        let mut lines = text.split_inclusive('\n');
        let breaks_off = self.broken.iter().any(|b| b == path);
        let mut taken = 0;
        let mut scan = FileScan::new();
        let mut action = scan.step(matcher, ScanEvent::Opened);
        loop {
            action = match action {
                ScanAction::ReadLine => {
                    let event = if breaks_off && taken == 1 {
                        ScanEvent::ReadFailed
                    } else {
                        match lines.next() {
                            Some(line) => ScanEvent::Line(line.to_string()),
                            None => ScanEvent::EndOfFile,
                        }
                    };
                    taken += 1;
                    scan.step(matcher, event)
                },
                ScanAction::Send(line) => {
                    channel.push(line);
                    scan.step(matcher, ScanEvent::Delivered)
                },
                ScanAction::Finish(matched) => return WorkerOutcome::Finished(matched),
                ScanAction::Fail(failure) => return WorkerOutcome::Failed(failure),
            };
        }
    }

    fn write(&mut self, output: &str, channel: Vec<String>) -> WriterOutcome {
        let mut written = String::new();
        let mut lines = channel.into_iter();
        let mut writer = OutputWriter::new();
        let mut action = writer.step(WriterEvent::Opened);
        loop {
            action = match action {
                WriterAction::Receive => match lines.next() {
                    Some(line) => writer.step(WriterEvent::Received(line)),
                    None => writer.step(WriterEvent::Closed),
                },
                WriterAction::Write(line) => {
                    written.push_str(&line);
                    writer.step(WriterEvent::Stored)
                },
                WriterAction::Flush => writer.step(WriterEvent::Flushed),
                WriterAction::Finish(count) => {
                    self.set(output, &written);
                    return WriterOutcome::Finished(count);
                },
                WriterAction::Fail(failure) => return WriterOutcome::Failed(failure),
            };
        }
    }

    fn run(
        &mut self,
        patterns: &[&str],
        ignore_case: bool,
        recursive: bool,
        output: &str,
    ) -> Result<EngineStats, RunError> {
        let config = EngineConfig {
            dir: "root".to_string(),
            output: output.to_string(),
            patterns: patterns.iter().map(|p| p.to_string()).collect(),
            ignore_case,
            recursive,
        };
        let mut channel: Vec<String> = Vec::new();
        let mut outcomes: Vec<WorkerOutcome> = Vec::new();
        let (mut engine, mut action) = Engine::start(config, "root".to_string());
        loop {
            let event = match action {
                RunAction::CreateOutput => {
                    self.set(output, "");
                    RunEvent::OutputCreated
                },
                RunAction::ResolveOutput => {
                    RunEvent::OutputResolved(Some(format!("root/{}", output).into_bytes()))
                },
                RunAction::ReadDirectory(dir) => RunEvent::DirectoryRead(self.read_directory(&dir)),
                RunAction::Launch { matcher, files } => {
                    for path in &files {
                        outcomes.push(self.scan(path, &matcher, &mut channel));
                    }
                    next_outcome(&mut outcomes)
                },
                RunAction::AwaitWorker => next_outcome(&mut outcomes),
                RunAction::AwaitWriter(_) => {
                    let lines = std::mem::take(&mut channel);
                    RunEvent::WriterEnded(self.write(output, lines))
                },
                RunAction::Finish(stats) => return Ok(stats),
                RunAction::Abort(error) => return Err(error),
            };
            assert!(engine.expects(&event));
            (engine, action) = engine.step(event);
        }
    }
}

fn next_outcome(outcomes: &mut Vec<WorkerOutcome>) -> RunEvent<String> {
    match outcomes.pop() {
        Some(outcome) => RunEvent::WorkerEnded(outcome),
        None => RunEvent::WorkersGone,
    }
}

#[test]
fn recursive_disabled_does_not_scan_subdir() {
    let mut s = Disk::new();
    let stats = s
        .run(&["DEEP_MATCH_MARKER"], false, false, "result_disabled.log")
        .expect("run should succeed");
    assert_eq!(stats.total_matches, 0);
    assert_eq!(stats.files_processed, 2);
    assert!(s.lines_sorted("result_disabled.log").is_empty());
}

#[test]
fn recursive_enabled_scans_subdir() {
    let mut s = Disk::new();
    let stats = s
        .run(&["DEEP_MATCH_MARKER"], false, true, "result_enabled.log")
        .expect("run should succeed");
    assert_eq!(stats.files_processed, 3);
    assert_eq!(stats.total_matches, 1);
    let lines = s.lines_sorted("result_enabled.log");
    assert_eq!(lines.len(), 1);
    assert!(lines[0].contains("DEEP_MATCH_MARKER"));
}

#[test]
fn output_inside_input_dir_self_lock_prevented() {
    let mut s = Disk::new();
    for name in ["a.log", "b.log", "sub/deep.log"] {
        let mut content = s.text(name);
        content.push_str("2026-08-05 SELF_LOCK_TEST_XYZ tag\n");
        s.set(name, &content);
    }
    let stats = s
        .run(&["SELF_LOCK_TEST_XYZ"], false, true, "out_inside.log")
        .expect("run should succeed");
    assert_eq!(stats.files_processed, 3);
    assert_eq!(stats.total_matches, 3);
    let lines = s.lines_sorted("out_inside.log");
    assert_eq!(lines.len(), 3);
    for l in &lines {
        assert!(l.contains("SELF_LOCK_TEST_XYZ"));
    }
}

#[test]
fn multi_keyword_or_and_ignore_case() {
    let mut s = Disk::new();
    s.set(
        "a.log",
        "\
2026-08-05 10:00 [INFO] User logged in
2026-08-05 10:01 [ERROR] AlphaMarker failed to connect database
2026-08-05 10:03 [WARN] BetaMarker cache miss
2026-08-05 10:10 [INFO] ALPHAMARKER uppercase ok
",
    );
    s.set(
        "b.log",
        "\
2026-08-05 10:02 [INFO] request ok
2026-08-05 10:05 [ERROR] betamarker module IO timeout
2026-08-05 10:11 [INFO] alphamarker lowercase ok
",
    );
    let stats = s
        .run(&["alphamarker"], true, false, "case_insensitive.log")
        .expect("run should succeed");
    assert_eq!(stats.total_matches, 3);
    assert_eq!(stats.files_processed, 2);
}

#[test]
fn invalid_regex_error_propagates_with_original_pattern() {
    let mut s = Disk::new();
    let bad_pattern = "[unclosed_bracket_xyz";
    let err = s
        .run(&[bad_pattern], false, false, "bad_pat.log")
        .expect_err("bad pattern must fail");
    match err {
        RunError::Compile(error) => {
            let formatted = error.report();
            assert!(
                formatted.contains(bad_pattern),
                "error message should mention the exact pattern. Got: {}",
                formatted
            );
        },
        other => panic!("{:?}", other),
    }
    assert_eq!(s.text("bad_pat.log"), "");
}

#[test]
fn empty_dir_produces_empty_output_zero_stats() {
    let mut s = Disk::new();
    s.remove("a.log");
    s.remove("b.log");
    s.remove("sub/deep.log");
    let stats = s
        .run(&["anything"], false, true, "empty_dir_out.log")
        .expect("run should succeed");
    assert_eq!(stats.files_processed, 0);
    assert_eq!(stats.total_matches, 0);
    assert_eq!(s.text("empty_dir_out.log").len(), 0);
}

#[test]
fn regex_level_or_matches_error_and_warn() {
    let mut s = Disk::new();
    let stats = s.run(&["ERROR|WARN"], false, false, "levels.log").unwrap();
    assert_eq!(stats.total_matches, 3);
    assert_eq!(stats.files_processed, 2);
    let lines = s.lines_sorted("levels.log");
    assert_eq!(lines.len(), 3);
    for l in lines.iter() {
        assert!(l.contains("ERROR") || l.contains("WARN"), "line: {}", l);
    }
}

#[test]
fn what_a_broken_file_sent_is_counted() {
    let mut s = Disk::new();
    s.set("a.log", "ERROR one\nERROR two\n");
    s.broken.push("root/a.log".to_string());
    let stats = s.run(&["ERROR"], false, false, "out.log").unwrap();
    assert_eq!(stats.files_processed, 1);
    assert_eq!(stats.total_matches, 2);
    assert_eq!(s.lines_sorted("out.log").len(), 2);
}

#[test]
fn a_directory_that_is_not_there_fails_the_run() {
    for recursive in [false, true] {
        let mut s = Disk::new();
        s.directories.clear();
        let err = s.run(&["foo"], false, recursive, "o.log").unwrap_err();
        assert!(matches!(err, RunError::MissingRoot));
        assert_eq!(err.message("\"o.log\"", "NO_SUCH_DIR"), "Failed to read directory: NO_SUCH_DIR");
        assert_eq!(s.text("o.log"), "");
    }
}

#[test]
fn a_directory_that_cannot_be_read_is_passed_over() {
    let mut s = Disk::new();
    s.locked.push("root".to_string());
    let stats = s.run(&["ERROR"], false, true, "out.log").unwrap();
    assert_eq!(stats, EngineStats { files_processed: 0, total_matches: 0 });
    assert_eq!(s.text("out.log"), "");

    let mut s = Disk::new();
    s.locked.push("root/sub".to_string());
    let stats = s.run(&["ERROR"], false, true, "out.log").unwrap();
    assert_eq!(stats, EngineStats { files_processed: 2, total_matches: 2 });
}

#[test]
fn a_subdirectory_that_is_gone_is_passed_over() {
    let (engine, _) = deep_engine();
    let (engine, _) = engine.step(RunEvent::OutputCreated);
    let (engine, _) = engine.step(RunEvent::OutputResolved(None));
    let entries = vec![Entry { path: "d/sub", kind: EntryKind::Directory }];
    let (engine, action) = engine.step(RunEvent::DirectoryRead(Listing::Entries(entries)));
    assert!(matches!(action, RunAction::ReadDirectory("d/sub")));
    let (_, action) = engine.step(RunEvent::DirectoryRead(Listing::Missing));
    assert!(matches!(action, RunAction::Launch { files, .. } if files.is_empty()));
}

#[test]
fn a_run_is_over_when_the_root_is_missing() {
    let (engine, _) = engine();
    let (engine, _) = engine.step(RunEvent::OutputCreated);
    let (engine, _) = engine.step(RunEvent::OutputResolved(None));
    let (engine, action) = engine.step(RunEvent::DirectoryRead(Listing::Missing));
    assert!(matches!(action, RunAction::Abort(RunError::MissingRoot)));
    assert!(!engine.expects(&RunEvent::WorkersGone));
    assert!(!engine.expects(&RunEvent::DirectoryRead(Listing::Unreadable)));
}

#[test]
fn every_error_has_its_message() {
    let message = |error: RunError| error.message("\"o\"", "d");
    assert_eq!(
        message(RunError::CreateOutput),
        "Failed to pre-create/truncate output file: \"o\""
    );
    assert_eq!(message(RunError::MissingRoot), "Failed to read directory: d");
    let refused = MatchSet::compile(&["(".to_string()], false).unwrap_err();
    assert_eq!(message(RunError::Compile(refused)), "Invalid regex pattern: '('");
    assert_eq!(
        message(RunError::Writer(WriterFailure::Flush)),
        "Writer task returned an IO or flush error"
    );
    assert_eq!(message(RunError::WriterLost), "Writer task panicked");
}

#[test]
fn lines_of_a_file_stay_in_order() {
    let mut s = Disk::new();
    s.set("a.log", "x1\nno\nx2\nx3\n");
    s.set("b.log", "x4\nx5\n");
    s.run(&["x"], false, false, "out.log").unwrap();
    let text = s.text("out.log");
    let at = |line: &str| text.find(line).unwrap();
    assert!(at("x1") < at("x2") && at("x2") < at("x3"));
    assert!(at("x4") < at("x5"));
    assert_eq!(text.lines().count(), 5);
}

#[test]
fn a_second_run_replaces_the_output() {
    let mut s = Disk::new();
    s.run(&["ERROR"], false, false, "out.log").unwrap();
    let first = s.lines_sorted("out.log");
    let stats = s.run(&["ERROR"], false, false, "out.log").unwrap();
    assert_eq!(stats, EngineStats { files_processed: 2, total_matches: 2 });
    assert_eq!(s.lines_sorted("out.log"), first);
}

fn engine() -> (Engine<&'static str>, RunAction<&'static str>) {
    engine_for(false)
}

fn deep_engine() -> (Engine<&'static str>, RunAction<&'static str>) {
    engine_for(true)
}

fn engine_for(recursive: bool) -> (Engine<&'static str>, RunAction<&'static str>) {
    let config = EngineConfig {
        dir: "d".to_string(),
        output: "o".to_string(),
        patterns: vec!["x".to_string()],
        ignore_case: false,
        recursive,
    };
    Engine::start(config, "d")
}

fn launched() -> Engine<&'static str> {
    let (engine, _) = engine();
    let (engine, _) = engine.step(RunEvent::OutputCreated);
    let (engine, _) = engine.step(RunEvent::OutputResolved(None));
    let empty = RunEvent::DirectoryRead(Listing::Entries(Vec::new()));
    let (engine, action) = engine.step(empty);
    assert!(matches!(action, RunAction::Launch { files, .. } if files.is_empty()));
    engine
}

#[test]
fn the_output_is_made_first() {
    let (engine, action) = engine();
    assert!(matches!(action, RunAction::CreateOutput));
    assert!(!engine.expects(&RunEvent::DirectoryRead(Listing::Unreadable)));
    let (engine, action) = engine.step(RunEvent::OutputCreated);
    assert!(matches!(action, RunAction::ResolveOutput));
    let (_, action) = engine.step(RunEvent::OutputResolved(None));
    assert!(matches!(action, RunAction::ReadDirectory("d")));
}

#[test]
fn without_an_output_there_is_no_run() {
    let (engine, _) = engine();
    let (engine, action) = engine.step(RunEvent::OutputFailed);
    assert!(matches!(action, RunAction::Abort(RunError::CreateOutput)));
    assert!(!engine.expects(&RunEvent::OutputCreated));
}

#[test]
fn lost_and_failed_workers_do_not_end_a_run() {
    let engine = launched();
    let (engine, action) = engine.step(RunEvent::WorkerEnded(WorkerOutcome::Lost));
    assert!(matches!(action, RunAction::AwaitWorker));
    let failed = WorkerOutcome::Failed(ScanFailure::Open);
    let (engine, _) = engine.step(RunEvent::WorkerEnded(failed));
    let (engine, _) = engine.step(RunEvent::WorkerEnded(WorkerOutcome::Finished(4)));
    let (engine, action) = engine.step(RunEvent::WorkersGone);
    match action {
        RunAction::AwaitWriter(stats) => {
            assert_eq!(stats, EngineStats { files_processed: 1, total_matches: 4 });
        },
        _ => panic!("the writer is not waited for"),
    }
    let (_, action) = engine.step(RunEvent::WriterEnded(WriterOutcome::Finished(4)));
    match action {
        RunAction::Finish(stats) => {
            assert_eq!(stats, EngineStats { files_processed: 1, total_matches: 4 });
        },
        _ => panic!("the run is not complete"),
    }
}

#[test]
fn the_order_of_workers_does_not_matter() {
    let outcomes = [
        WorkerOutcome::Finished(1),
        WorkerOutcome::Lost,
        WorkerOutcome::Finished(5),
        WorkerOutcome::Failed(ScanFailure::Read),
    ];
    let mut forward = EngineStats::default();
    let mut backward = EngineStats::default();
    for outcome in outcomes.iter() {
        forward.record(*outcome);
    }
    for outcome in outcomes.iter().rev() {
        backward.record(*outcome);
    }
    assert_eq!(forward, backward);
    assert_eq!(forward, EngineStats { files_processed: 2, total_matches: 6 });
}

#[test]
fn a_failed_writer_fails_the_run() {
    let (engine, _) = launched().step(RunEvent::WorkersGone);
    let failed = WriterOutcome::Failed(WriterFailure::Write(7));
    let (_, action) = engine.step(RunEvent::WriterEnded(failed));
    assert!(matches!(action, RunAction::Abort(RunError::Writer(WriterFailure::Write(7)))));
    let (engine, _) = launched().step(RunEvent::WorkersGone);
    let (_, action) = engine.step(RunEvent::WriterEnded(WriterOutcome::Lost));
    assert!(matches!(action, RunAction::Abort(RunError::WriterLost)));
}

#[test]
fn counts_that_do_not_fit_are_not_expected() {
    let engine = launched();
    let most = WorkerOutcome::Finished(usize::MAX);
    assert!(engine.expects(&RunEvent::WorkerEnded(most)));
    let (engine, _) = engine.step(RunEvent::WorkerEnded(most));
    assert!(!engine.expects(&RunEvent::WorkerEnded(WorkerOutcome::Finished(1))));
    assert!(engine.expects(&RunEvent::WorkerEnded(WorkerOutcome::Finished(0))));
    assert!(engine.expects(&RunEvent::WorkerEnded(WorkerOutcome::Lost)));
}

#[test]
fn lines_written_are_the_lines_that_matched() {
    let stats = EngineStats { files_processed: 2, total_matches: 3 };
    assert_eq!(stats.settle(5), EngineStats { files_processed: 2, total_matches: 5 });
    assert!(stats.has_room(&WorkerOutcome::Finished(usize::MAX - 3)));
    assert!(!stats.has_room(&WorkerOutcome::Finished(usize::MAX - 2)));
}

#[test]
fn compiled_patterns_launch_and_refused_ones_abort() {
    let matcher = MatchSet::compile(&["x".to_string()], false);
    match launch_or_abort(matcher, vec!["f"]) {
        RunAction::Launch { matcher, files } => {
            assert!(matcher.is_match("x"));
            assert_eq!(files, vec!["f"]);
        },
        _ => panic!("nothing is launched"),
    }
    let refused = MatchSet::compile(&["(".to_string()], false);
    assert!(matches!(
        launch_or_abort(refused, vec!["f"]),
        RunAction::Abort(RunError::Compile(_))
    ));
}

#[test]
fn the_channel_holds_a_thousand_lines() {
    assert_eq!(DEFAULT_CHANNEL_CAPACITY, 1024);
}

#[test]
fn the_environment_chooses_the_filter() {
    assert!(matches!(choose_filter(Some(7), Some("info")), FilterSource::Environment(7)));
    assert!(matches!(choose_filter(Some(7), None), FilterSource::Environment(7)));
    assert!(matches!(choose_filter::<i32>(None, Some("info")), FilterSource::Level("info")));
    assert!(matches!(choose_filter::<i32>(None, None), FilterSource::Level("warn")));
}
