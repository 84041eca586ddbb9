use tgrep::matcher::MatchSet;
use tgrep::scan::FileScan;
use tgrep::scan::ScanAction;
use tgrep::scan::ScanEvent;
use tgrep::scan::ScanFailure;
use tgrep::text::decimal_text;
use tgrep::writer::OutputWriter;
use tgrep::writer::WriterAction;
use tgrep::writer::WriterEvent;
use tgrep::writer::WriterFailure;

fn foo() -> MatchSet {
    MatchSet::compile(&["foo".to_string()], false).unwrap()
}

#[test]
fn a_scan_sends_matching_lines_unchanged() {
    let matcher = foo();
    let mut scan = FileScan::new();
    assert!(matches!(scan.step(&matcher, ScanEvent::Opened), ScanAction::ReadLine));
    let mut sent: Vec<String> = Vec::new();
    for line in ["a foo\r\n", "bar\n", "\n", "foo"] {
        assert!(scan.has_room());
        match scan.step(&matcher, ScanEvent::Line(line.to_string())) {
            ScanAction::Send(out) => {
                sent.push(out);
                assert!(matches!(scan.step(&matcher, ScanEvent::Delivered), ScanAction::ReadLine));
            },
            ScanAction::ReadLine => {},
            other => panic!("{:?}", other),
        }
    }
    assert_eq!(sent, vec!["a foo\r\n".to_string(), "foo".to_string()]);
    assert_eq!(scan.lines(), 4);
    assert_eq!(scan.matched(), 2);
    assert!(matches!(scan.step(&matcher, ScanEvent::EndOfFile), ScanAction::Finish(2)));
}

#[test]
fn an_empty_file_has_no_matches() {
    let matcher = foo();
    let mut scan = FileScan::new();
    scan.step(&matcher, ScanEvent::Opened);
    assert!(matches!(scan.step(&matcher, ScanEvent::EndOfFile), ScanAction::Finish(0)));
}

#[test]
fn every_failure_ends_a_scan() {
    let matcher = foo();
    assert!(matches!(
        FileScan::new().step(&matcher, ScanEvent::OpenFailed),
        ScanAction::Fail(ScanFailure::Open)
    ));
    assert!(matches!(
        FileScan::new().step(&matcher, ScanEvent::ReadFailed),
        ScanAction::Fail(ScanFailure::Read)
    ));
    assert!(matches!(
        FileScan::new().step(&matcher, ScanEvent::ChannelClosed),
        ScanAction::Fail(ScanFailure::Channel)
    ));
}

#[test]
fn a_judged_line_is_counted() {
    let mut scan = FileScan::new();
    match scan.judge_line("x\n".to_string(), true) {
        ScanAction::Send(line) => assert_eq!(line, "x\n"),
        other => panic!("{:?}", other),
    }
    assert!(matches!(scan.judge_line("y\n".to_string(), false), ScanAction::ReadLine));
    assert_eq!((scan.lines(), scan.matched()), (2, 1));
}

#[test]
fn the_writer_writes_what_it_receives() {
    let mut writer = OutputWriter::new();
    assert!(matches!(writer.step(WriterEvent::Opened), WriterAction::Receive));
    let mut output = String::new();
    for line in ["one\n", "two\n", "three"] {
        match writer.step(WriterEvent::Received(line.to_string())) {
            WriterAction::Write(text) => output.push_str(&text),
            other => panic!("{:?}", other),
        }
        assert!(writer.has_room());
        assert!(matches!(writer.step(WriterEvent::Stored), WriterAction::Receive));
    }
    assert!(matches!(writer.step(WriterEvent::Closed), WriterAction::Flush));
    assert!(matches!(writer.step(WriterEvent::Flushed), WriterAction::Finish(3)));
    assert_eq!(output, "one\ntwo\nthree");
}

#[test]
fn every_failure_ends_the_writer() {
    assert!(matches!(
        OutputWriter::new().step(WriterEvent::OpenFailed),
        WriterAction::Fail(WriterFailure::Create)
    ));
    let mut writer = OutputWriter::new();
    writer.step(WriterEvent::Received("a".to_string()));
    writer.step(WriterEvent::Stored);
    assert!(matches!(
        writer.step(WriterEvent::StoreFailed),
        WriterAction::Fail(WriterFailure::Write(2))
    ));
    assert!(matches!(
        OutputWriter::new().step(WriterEvent::FlushFailed),
        WriterAction::Fail(WriterFailure::Flush)
    ));
}

#[test]
fn every_failure_of_a_scan_has_its_message() {
    assert_eq!(
        ScanFailure::Open.message("\"a.log\"", "not found"),
        "Failed to open input file: \"a.log\""
    );
    assert_eq!(ScanFailure::Read.message("\"a.log\"", "not text"), "not text");
    assert_eq!(
        ScanFailure::Channel.message("\"a.log\"", "channel closed"),
        "Channel send error: channel closed"
    );
}

#[test]
fn every_failure_of_the_writer_has_its_message() {
    let path = "\"o.log\"";
    assert_eq!(
        WriterFailure::Create.message(path),
        "Failed to create output file for writer: \"o.log\""
    );
    assert_eq!(
        WriterFailure::Write(1).message(path),
        "Failed to write line #1. output: \"o.log\""
    );
    assert_eq!(
        WriterFailure::Write(1024).message(path),
        "Failed to write line #1024. output: \"o.log\""
    );
    assert_eq!(
        WriterFailure::Flush.message(path),
        "Failed to flush output writer to \"o.log\""
    );
}

#[test]
fn numbers_are_written_in_decimal() {
    for n in [0, 7, 10, 99, 100, 1234567890, usize::MAX] {
        assert_eq!(decimal_text(n), n.to_string());
    }
}
