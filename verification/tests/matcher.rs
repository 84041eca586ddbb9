use tgrep::matcher::effective_patterns;
use tgrep::matcher::judge_pattern;
use tgrep::matcher::CompileError;
use tgrep::matcher::MatchSet;

fn strings(list: &[&str]) -> Vec<String> {
    list.iter().map(|s| s.to_string()).collect()
}

#[test]
fn literal_match_single_pattern() {
    let m = MatchSet::compile(&["AlphaMarker".to_string()], false).unwrap();
    assert!(m.is_match("2026-08-05 [ERROR] AlphaMarker failed to connect DB"));
    assert!(!m.is_match("2026-08-05 [INFO] heartbeat ok"));
}

#[test]
fn regex_or_two_level_keywords() {
    let m = MatchSet::compile(&["ERROR|WARN".to_string()], false).unwrap();
    assert!(m.is_match("[ERROR] disk full"));
    assert!(m.is_match("[WARN] memory approaching 80%"));
    assert!(!m.is_match("[INFO] user login"));
}

#[test]
fn ignore_case_matches_mixed_case() {
    let m = MatchSet::compile(&["alphamarker".to_string(), "betamarker".to_string()], true)
        .unwrap();
    assert!(m.is_match("AlphaMarker failed"));
    assert!(m.is_match("betamarker module IO timeout"));
    assert!(m.is_match("ALPHAMARKER restart"));
    assert!(!m.is_match("OtherModule ok"));
}

#[test]
fn invalid_pattern_error_contains_original_string() {
    let err = MatchSet::compile(&["[unclosed".to_string()], false).unwrap_err();
    let formatted = err.report();
    assert!(
        formatted.contains("[unclosed"),
        "Expected error message to contain the bad pattern, got: {}",
        formatted
    );
    assert_eq!(err.message(), "Invalid regex pattern: '[unclosed'");
    assert!(err.reason().contains("unclosed character class"));
    assert_eq!(formatted, format!("{}: {}", err.message(), err.reason()));
}

#[test]
fn clone_is_cheap_and_still_works() {
    let m1 = MatchSet::compile(&["foo".to_string()], false).unwrap();
    let m2 = m1.clone();
    assert!(m1.is_match("hello foo world"));
    assert!(m2.is_match("hello foo world"));
    assert!(!m1.is_match("no match here"));
    assert!(!m2.is_match("no match here"));
}

#[test]
fn multi_pattern_or_semantics_one_line_multiple_hits() {
    let m = MatchSet::compile(&["foo".to_string(), "bar".to_string()], false).unwrap();
    assert!(m.is_match("foo and bar together"));
    assert!(m.is_match("only foo"));
    assert!(m.is_match("only bar"));
    assert!(!m.is_match("neither here"));
}

#[test]
fn the_first_refused_pattern_is_named() {
    let list = strings(&["ok", "(one", "[two"]);
    match MatchSet::compile(&list, false).unwrap_err() {
        CompileError::InvalidPattern { pattern, reason } => {
            assert_eq!(pattern, "(one");
            assert!(reason.contains("unclosed group"));
        },
        other => panic!("{:?}", other),
    }
}

#[test]
fn patterns_too_large_together_are_refused_as_a_set() {
    let list: Vec<String> = ["a", "b", "c", "d"]
        .iter()
        .map(|c| format!("({}x{{1000}}){{100}}", c))
        .collect();
    let err = MatchSet::compile(&list, false).unwrap_err();
    match &err {
        CompileError::RejectedSet { patterns, reason } => {
            assert_eq!(patterns, &list);
            assert!(reason.contains("size limit"), "{}", reason);
        },
        other => panic!("{:?}", other),
    }
    assert_eq!(err.message(), format!("Failed to compile RegexSet for patterns: {:?}", list));
}

#[test]
fn without_patterns_nothing_matches() {
    for ignore_case in [false, true] {
        let m = MatchSet::compile(&[], ignore_case).unwrap();
        assert!(!m.is_match(""));
        assert!(!m.is_match("anything"));
    }
}

#[test]
fn an_empty_pattern_matches_every_line() {
    for ignore_case in [false, true] {
        let m = MatchSet::compile(&strings(&[""]), ignore_case).unwrap();
        assert!(m.is_match(""));
        assert!(m.is_match("anything"));
    }
}

#[test]
fn case_counts_unless_it_is_ignored() {
    let strict = MatchSet::compile(&strings(&["Marker"]), false).unwrap();
    assert!(strict.is_match("a Marker here"));
    assert!(!strict.is_match("a MARKER here"));
    let lax = MatchSet::compile(&strings(&["Marker"]), true).unwrap();
    assert!(lax.is_match("a Marker here"));
    assert!(lax.is_match("a MARKER here"));
    assert!(lax.is_match("a marker here"));
}

#[test]
fn other_cases_of_a_letter_are_those_of_unicode() {
    let m = MatchSet::compile(&strings(&["ask"]), true).unwrap();
    assert!(m.is_match("a\u{17f}\u{212a}"));
    let strict = MatchSet::compile(&strings(&["ask"]), false).unwrap();
    assert!(!strict.is_match("a\u{17f}\u{212a}"));
}

#[test]
fn keywords_are_found_anywhere_and_nothing_else() {
    let m = MatchSet::compile(&strings(&["two words", "under_score", "42"]), false).unwrap();
    assert!(m.is_match("these two words"));
    assert!(m.is_match("under_score first"));
    assert!(m.is_match("1420"));
    assert!(!m.is_match("two  words"));
    assert!(!m.is_match("underscore 4 2"));
}

#[test]
fn a_list_matches_where_one_of_its_parts_does() {
    let left = strings(&["a+b", "c$"]);
    let right = strings(&["^d"]);
    let both = strings(&["a+b", "c$", "^d"]);
    let l = MatchSet::compile(&left, false).unwrap();
    let r = MatchSet::compile(&right, false).unwrap();
    let b = MatchSet::compile(&both, false).unwrap();
    for line in ["aab", "xc", "cx", "dog", "a dog", ""] {
        assert_eq!(b.is_match(line), l.is_match(line) || r.is_match(line));
    }
}

#[test]
fn the_flag_goes_in_front_of_every_pattern() {
    let list = strings(&["a", "b|c"]);
    assert_eq!(effective_patterns(&list, true), strings(&["(?i)a", "(?i)b|c"]));
    assert_eq!(effective_patterns(&list, false), list);
}

#[test]
fn the_flag_covers_all_alternatives() {
    let m = MatchSet::compile(&strings(&["error|warn"]), true).unwrap();
    assert!(m.is_match("[WARN]"));
    assert!(m.is_match("[Error]"));
}

#[test]
fn a_verdict_becomes_an_error_with_the_pattern() {
    assert!(judge_pattern("p", Ok(())).is_ok());
    let err = judge_pattern("p", Err("bad".to_string())).unwrap_err();
    assert_eq!(err.report(), "Invalid regex pattern: 'p': bad");
}

#[test]
fn a_refused_set_becomes_an_error_with_all_patterns() {
    let list = strings(&["a", "\"b\""]);
    let err = MatchSet::judge_set(&list, Err("too big".to_string())).unwrap_err();
    assert_eq!(
        err.report(),
        "Failed to compile RegexSet for patterns: [\"a\", \"\\\"b\\\"\"]: too big"
    );
}

#[test]
fn the_same_patterns_give_the_same_error() {
    let list = strings(&["x", "*"]);
    let one = MatchSet::compile(&list, true).unwrap_err();
    let other = MatchSet::compile(&list, true).unwrap_err();
    assert_eq!(one.report(), other.report());
    assert!(one.message().contains("'*'"));
}

#[test]
fn a_list_is_accepted_where_its_parts_are() {
    let lists = [strings(&["a+"]), strings(&["(b|c)", "d"]), strings(&["(e"]), strings(&[])];
    for ignore_case in [false, true] {
        for left in lists.iter() {
            for right in lists.iter() {
                let both: Vec<String> = left.iter().chain(right.iter()).cloned().collect();
                assert_eq!(
                    MatchSet::compile(&both, ignore_case).is_ok(),
                    MatchSet::compile(left, ignore_case).is_ok()
                        && MatchSet::compile(right, ignore_case).is_ok()
                );
            }
        }
    }
}

#[test]
fn order_and_repetition_of_patterns_do_not_matter() {
    let one = MatchSet::compile(&strings(&["a", "b$"]), false).unwrap();
    let other = MatchSet::compile(&strings(&["b$", "a", "b$"]), false).unwrap();
    for line in ["a", "xb", "bx", "c", ""] {
        assert_eq!(one.is_match(line), other.is_match(line));
    }
}

#[test]
fn ignoring_case_accepts_the_same_patterns() {
    for pattern in [
        "a", "(", "[z-a]", "\\pX", "(?-u:\\xFF)", "(?-u)[^a]", "(?-u)[a-z&&b]", "x{3,1}", "(?i)K", "*",
    ] {
        let list = strings(&[pattern]);
        match (MatchSet::compile(&list, false), MatchSet::compile(&list, true)) {
            (Ok(_), Ok(_)) => {},
            (Err(strict), Err(lax)) => assert_eq!(strict.report(), lax.report()),
            other => panic!("{}: {:?}", pattern, other),
        }
    }
}
