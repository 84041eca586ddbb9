use tgrep::cli::tgrep_arguments;
use tgrep::cli::Cli;
use tgrep::cli::UsageError;
use tgrep::cli::ABOUT;
use tgrep::cli::DIR_HELP;
use tgrep::stamp::Moment;

fn parse(argv: &[&str]) -> Result<Cli, UsageError> {
    let argv: Vec<String> = argv.iter().map(|a| a.to_string()).collect();
    Cli::try_parse_from(&argv)
}

fn moment() -> Moment {
    Moment { year: 2026, month: 8, day: 5, hour: 9, minute: 7, second: 3 }
}

#[test]
fn parse_all_flags_explicit() {
    let cli = parse(&[
        "tgrep", "-d", "./logs", "-p", "a", "-p", "b", "-i", "-r", "-o", "out.log",
    ])
    .unwrap();
    assert_eq!(cli.dir, "./logs");
    assert_eq!(cli.patterns, vec!["a".to_string(), "b".to_string()]);
    assert!(cli.ignore_case);
    assert!(cli.recursive);
    assert_eq!(cli.output.as_deref(), Some("out.log"));
}

#[test]
fn parse_defaults_for_optional_flags() {
    let cli = parse(&["tgrep", "-d", "./logs", "-p", "foo"]).unwrap();
    assert!(!cli.ignore_case);
    assert!(!cli.recursive);
    assert_eq!(cli.output, None);
}

#[test]
fn parse_single_p_multiple_values() {
    let cli = parse(&["tgrep", "-d", "./logs", "-p", "foo", "bar"]).unwrap();
    assert_eq!(cli.patterns, vec!["foo".to_string(), "bar".to_string()]);
}

#[test]
fn parse_output_absent_is_none_and_present_is_some() {
    let with_out = parse(&["tgrep", "-d", ".", "-p", "x", "-o", "custom.log"]).unwrap();
    assert_eq!(with_out.output.as_deref(), Some("custom.log"));

    let without_out = parse(&["tgrep", "-d", ".", "-p", "x"]).unwrap();
    assert_eq!(without_out.output, None);
}

#[test]
fn missing_patterns_is_reported_by_clap() {
    let err = parse(&["tgrep", "-d", "./logs"]).unwrap_err();
    assert!(
        matches!(err.kind.as_str(), "MissingRequiredArgument" | "TooFewValues"),
        "Unexpected error kind for missing -p: {:?}",
        err.kind
    );
    assert_eq!(err.exit_code, 2);
    assert!(err.text.contains("--patterns <PATTERNS>"), "{}", err.text);
}

#[test]
fn long_names_mean_the_same() {
    let cli = parse(&[
        "tgrep",
        "--dir",
        "logs",
        "--patterns",
        "a",
        "--ignore-case",
        "--recursive",
        "--output",
        "o.log",
    ])
    .unwrap();
    assert_eq!(cli.dir, "logs");
    assert_eq!(cli.patterns, vec!["a".to_string()]);
    assert!(cli.ignore_case);
    assert!(cli.recursive);
    assert_eq!(cli.output.as_deref(), Some("o.log"));
}

#[test]
fn each_flag_is_told_from_the_other() {
    let only_case = parse(&["tgrep", "-d", ".", "-p", "x", "-i"]).unwrap();
    assert!(only_case.ignore_case && !only_case.recursive);
    let only_deep = parse(&["tgrep", "-d", ".", "-p", "x", "-r"]).unwrap();
    assert!(!only_deep.ignore_case && only_deep.recursive);
}

#[test]
fn an_option_without_values_is_refused() {
    let err = parse(&["tgrep", "-d", ".", "-p"]).unwrap_err();
    assert_eq!(err.kind, "InvalidValue");
    assert_eq!(err.exit_code, 2);
}

#[test]
fn a_missing_directory_is_refused() {
    let err = parse(&["tgrep", "-p", "x"]).unwrap_err();
    assert_eq!(err.kind, "MissingRequiredArgument");
    assert!(err.text.contains("--dir <DIR>"), "{}", err.text);
}

#[test]
fn an_unknown_option_is_refused() {
    let err = parse(&["tgrep", "-d", ".", "-p", "x", "--nope"]).unwrap_err();
    assert_eq!(err.kind, "UnknownArgument");
    assert_eq!(err.exit_code, 2);
}

#[test]
fn two_directories_are_refused() {
    let err = parse(&["tgrep", "-d", "a", "-d", "b", "-p", "x"]).unwrap_err();
    assert_eq!(err.kind, "ArgumentConflict");
}

#[test]
fn help_names_every_option() {
    let err = parse(&["tgrep", "--help"]).unwrap_err();
    assert_eq!(err.kind, "DisplayHelp");
    assert_eq!(err.exit_code, 0);
    for word in ["-d, --dir <DIR>", "-p, --patterns <PATTERNS>", "-o, --output <OUTPUT>"] {
        assert!(err.text.contains(word), "{}", err.text);
    }
    assert!(err.text.contains("-i, --ignore-case"));
    assert!(err.text.contains("-r, --recursive"));
    assert!(err.text.contains(ABOUT));
    assert!(err.text.contains(DIR_HELP));
}

#[test]
fn version_is_told() {
    let err = parse(&["tgrep", "-V"]).unwrap_err();
    assert_eq!(err.kind, "DisplayVersion");
    assert_eq!(err.exit_code, 0);
    assert_eq!(err.text, "tgrep 0.1.0\n");
}

#[test]
fn a_parsed_command_line_has_a_pattern() {
    for argv in [
        &["tgrep", "-d", ".", "-p", "x"][..],
        &["tgrep", "-d", ".", "-p", ""][..],
        &["tgrep", "-p=x", "-d=."][..],
    ] {
        assert!(!parse(argv).unwrap().patterns.is_empty());
    }
}

#[test]
fn arguments_are_put_where_they_belong() {
    let list = |words: &[&str]| Some(words.iter().map(|w| w.to_string()).collect());
    let cli = Cli::from_arguments(&([list(&["d"]), list(&["p", "q"]), list(&["o"])], true, false));
    assert_eq!(cli.dir, "d");
    assert_eq!(cli.patterns, vec!["p".to_string(), "q".to_string()]);
    assert_eq!(cli.output.as_deref(), Some("o"));
    assert!(cli.ignore_case);
    assert!(!cli.recursive);
    let cli = Cli::from_arguments(&([list(&["d"]), list(&["p"]), None], false, true));
    assert_eq!(cli.output, None);
    assert!(!cli.ignore_case);
    assert!(cli.recursive);
}

#[test]
fn arguments_come_by_option() {
    let argv: Vec<String> =
        ["tgrep", "-p", "x", "y", "-d", "in", "-r"].iter().map(|a| a.to_string()).collect();
    let (values, first, second) = tgrep_arguments(&argv).unwrap();
    assert_eq!(values[0], Some(vec!["in".to_string()]));
    assert_eq!(values[1], Some(vec!["x".to_string(), "y".to_string()]));
    assert_eq!(values[2], None);
    assert!(!first);
    assert!(second);
}

#[test]
fn exit_codes_follow_the_kind() {
    let code = |kind: &str| UsageError::new(kind.to_string(), "t".to_string()).exit_code;
    assert_eq!(code("DisplayHelp"), 0);
    assert_eq!(code("DisplayVersion"), 0);
    assert_eq!(code("DisplayHelpOnMissingArgumentOrSubcommand"), 2);
    assert_eq!(code("InvalidValue"), 2);
}

#[test]
fn settings_take_over_the_command_line() {
    let cli = parse(&["tgrep", "-d", "in", "-p", "x", "y", "-i", "-o", "o.log"]).unwrap();
    let config = cli.into_config(moment()).unwrap();
    assert_eq!(config.dir, "in");
    assert_eq!(config.output, "o.log");
    assert_eq!(config.patterns, vec!["x".to_string(), "y".to_string()]);
    assert!(config.ignore_case);
    assert!(!config.recursive);
}

#[test]
fn without_output_a_name_is_made_up() {
    let cli = parse(&["tgrep", "-d", "in", "-p", "x", "-r"]).unwrap();
    let config = cli.into_config(moment()).unwrap();
    assert_eq!(config.output, "output_20260805_090703.log");
    assert!(config.recursive);
}

#[test]
fn a_moment_that_does_not_exist_gives_no_settings() {
    let wrong = Moment { month: 13, ..moment() };
    let cli = parse(&["tgrep", "-d", "in", "-p", "x"]).unwrap();
    assert!(cli.into_config(wrong).is_none());
    let cli = parse(&["tgrep", "-d", "in", "-p", "x", "-o", "o.log"]).unwrap();
    assert_eq!(cli.into_config(wrong).unwrap().output, "o.log");
}

#[test]
fn the_text_names_the_program_as_it_was_called() {
    let err = parse(&["other", "-d", "."]).unwrap_err();
    assert_eq!(
        err.text,
        "error: the following required arguments were not provided:\n  --patterns <PATTERNS>...\n\n\
         Usage: other --dir <DIR> --patterns <PATTERNS>...\n\n\
         For more information, try '--help'.\n"
    );
}
