//! Matching a line against a set of regular expressions.
//!
//! A line matches the set when it matches one of its patterns. Patterns are
//! compiled by the `regex` crate.
use std::sync::Arc;
use vstd::prelude::*;

use crate::text;

verus! {

/// A compiled set of patterns of the `regex` crate.
#[verifier::external_type_specification]
#[verifier::external_body]
pub struct ExRegexSet(regex::RegexSet);

/// Why `regex::RegexBuilder::build` finds that `pattern` is no regular expression;
/// `None` if it is one. Whether case is ignored has no part in it.
pub uninterp spec fn syntax_failure(pattern: Seq<char>) -> Option<Seq<char>>;

/// Why `regex::RegexBuilder::build` does not compile the regular expression
/// `pattern`, with matching that ignores case or not; `None` if it does. The
/// compiled program may hold ten mebibytes, and how much a program holds depends
/// on the size of a pointer.
pub uninterp spec fn limit_failure(
    pattern: Seq<char>,
    ignore_case: bool,
    pointer_bits: int,
) -> Option<Seq<char>>;

/// Why `regex::RegexSet::new` refuses the list `patterns`; `None` if it accepts
/// it. The limit on the compiled program is that of a single pattern.
pub uninterp spec fn set_failure(patterns: Seq<Seq<char>>, pointer_bits: int) -> Option<
    Seq<char>,
>;

/// The patterns that a compiled set was made of, in order.
pub uninterp spec fn set_patterns(set: regex::RegexSet) -> Seq<Seq<char>>;

/// The set was compiled with the settings of `regex::RegexSet::new`. The builder of
/// the crate knows others, which change what the same patterns match.
pub uninterp spec fn has_default_settings(set: regex::RegexSet) -> bool;

/// Whether the regular expression `pattern`, with default settings, matches
/// somewhere in `line`.
pub uninterp spec fn pattern_matches(pattern: Seq<char>, line: Seq<char>) -> bool;

/// Builds one pattern with `regex::RegexBuilder::build`, after
/// `case_insensitive`, and keeps only whether that went well. The pattern is
/// parsed first, which comes to the same whether case is ignored or not, and then
/// compiled: the text of an error is that of `syntax_failure`, and where that is
/// `None` that of `limit_failure`.
#[verifier::external_body]
fn check_pattern(pattern: &str, ignore_case: bool) -> (verdict: Result<(), String>)
    ensures
        verdict is Ok <==> (syntax_failure(pattern@) is None && limit_failure(
            pattern@,
            ignore_case,
            usize::BITS as int,
        ) is None),
        verdict matches Err(reason) ==> (syntax_failure(pattern@) is Some ==> syntax_failure(
            pattern@,
        ) == Some(reason@)),
        verdict matches Err(reason) ==> (syntax_failure(pattern@) is None ==> limit_failure(
            pattern@,
            ignore_case,
            usize::BITS as int,
        ) == Some(reason@)),
{
    match regex::RegexBuilder::new(pattern).case_insensitive(ignore_case).build() {
        Ok(_) => Ok(()),
        Err(error) => Err(error.to_string()),
    }
}

/// Builds a set with `regex::RegexSet::new`. That goes well exactly where
/// `set_failure` is `None`, and so it does with no pattern at all; the set then
/// consists of the given patterns, with default settings, and else the text of the
/// error is that of `set_failure`.
#[verifier::external_body]
fn build_set(patterns: &Vec<String>) -> (built: Result<regex::RegexSet, String>)
    ensures
        built is Ok <==> set_failure(text::texts(patterns@), usize::BITS as int) is None,
        patterns@.len() == 0 ==> built is Ok,
        built matches Ok(set) ==> set_patterns(set) == text::texts(patterns@)
            && has_default_settings(set),
        built matches Err(reason) ==> set_failure(
            text::texts(patterns@),
            usize::BITS as int,
        ) == Some(reason@),
{
    match regex::RegexSet::new(patterns) {
        Ok(set) => Ok(set),
        Err(error) => Err(error.to_string()),
    }
}

/// Searches a line with `regex::RegexSet::is_match`, which finds a match if and
/// only if one of the patterns of the set, under its settings, matches somewhere in
/// the line; the settings are the default ones. Of
/// keywords the syntax says more: their characters stand for themselves, and
/// behind the flag `(?i)` also for their other cases. So a keyword that stands
/// in the line is found, and a set of nothing but keywords finds nothing else.
#[verifier::external_body]
fn set_is_match(set: &regex::RegexSet, line: &str) -> (found: bool)
    requires
        has_default_settings(*set),
    ensures
        found == (exists|i: int|
            0 <= i < set_patterns(*set).len() && pattern_matches(
                #[trigger] set_patterns(*set)[i],
                line@,
            )),
        any_keyword_stands(set_patterns(*set), line@) ==> found,
        all_keywords(set_patterns(*set)) ==> found == any_keyword_stands(
            set_patterns(*set),
            line@,
        ),
{
    set.is_match(line)
}

/// Another owner of the same value: `Arc::clone`.
#[verifier::external_body]
fn share(set: &Arc<regex::RegexSet>) -> (other: Arc<regex::RegexSet>)
    ensures
        other == *set,
{
    Arc::clone(set)
}

/// How `{:?}` writes a list of texts.
pub uninterp spec fn debug_text(list: Seq<Seq<char>>) -> Seq<char>;

/// Writes a list of strings with `{:?}`.
#[verifier::external_body]
fn debug_list(list: &Vec<String>) -> (written: String)
    ensures
        written@ == debug_text(text::texts(list@)),
{
    format!("{:?}", list)
}

/// One of the patterns matches the line.
pub open spec fn any_matches(patterns: Seq<Seq<char>>, line: Seq<char>) -> bool {
    exists|i: int| 0 <= i < patterns.len() && pattern_matches(#[trigger] patterns[i], line)
}

/// The flag that makes the rest of a pattern ignore case.
pub open spec fn caseless_flag() -> Seq<char> {
    "(?i)"@
}

/// A character that stands for itself in a regular expression.
pub open spec fn is_literal_char(c: char) -> bool {
    'a' <= c <= 'z' || 'A' <= c <= 'Z' || '0' <= c <= '9' || c == '_' || c == ' '
}

/// A pattern made of ASCII letters, digits, underscores and spaces only.
pub open spec fn is_keyword(pattern: Seq<char>) -> bool {
    forall|i: int| 0 <= i < pattern.len() ==> is_literal_char(#[trigger] pattern[i])
}

/// A keyword behind the flag that makes it ignore case.
pub open spec fn is_caseless_keyword(pattern: Seq<char>) -> bool {
    &&& caseless_flag().len() <= pattern.len()
    &&& pattern.take(caseless_flag().len() as int) == caseless_flag()
    &&& is_keyword(pattern.skip(caseless_flag().len() as int))
}

/// The pattern is a keyword, with or without the flag, that stands in the line.
pub open spec fn keyword_stands(pattern: Seq<char>, line: Seq<char>) -> bool {
    ||| is_keyword(pattern) && text::occurs(pattern, line)
    ||| is_caseless_keyword(pattern) && text::occurs_in_any_case(
        pattern.skip(caseless_flag().len() as int),
        line,
    )
}

/// One of the patterns is a keyword that stands in the line.
pub open spec fn any_keyword_stands(patterns: Seq<Seq<char>>, line: Seq<char>) -> bool {
    exists|i: int| 0 <= i < patterns.len() && keyword_stands(#[trigger] patterns[i], line)
}

/// Every pattern is a keyword, with or without the flag.
pub open spec fn all_keywords(patterns: Seq<Seq<char>>) -> bool {
    forall|i: int|
        0 <= i < patterns.len() ==> is_keyword(#[trigger] patterns[i]) || is_caseless_keyword(
            patterns[i],
        )
}

/// The pattern that the set is built with: `pattern` itself, or `pattern`
/// behind the flag where case is ignored.
pub open spec fn effective(pattern: Seq<char>, ignore_case: bool) -> Seq<char> {
    if ignore_case {
        caseless_flag() + pattern
    } else {
        pattern
    }
}

/// The patterns that the set is built with.
pub open spec fn effective_all(patterns: Seq<Seq<char>>, ignore_case: bool) -> Seq<Seq<char>> {
    patterns.map_values(|p: Seq<char>| effective(p, ignore_case))
}

/// Why a single pattern is refused.
pub open spec fn pattern_failure(pattern: Seq<char>, ignore_case: bool) -> Option<Seq<char>> {
    if syntax_failure(pattern) is Some {
        syntax_failure(pattern)
    } else {
        limit_failure(pattern, ignore_case, usize::BITS as int)
    }
}

/// Why the patterns are refused as a set.
pub open spec fn union_failure(patterns: Seq<Seq<char>>, ignore_case: bool) -> Option<Seq<char>> {
    set_failure(effective_all(patterns, ignore_case), usize::BITS as int)
}

/// The pattern at `i` is refused, and none before it.
pub open spec fn is_first_refused(
    patterns: Seq<Seq<char>>,
    ignore_case: bool,
    i: int,
) -> bool {
    &&& 0 <= i < patterns.len()
    &&& pattern_failure(patterns[i], ignore_case) is Some
    &&& none_refused(patterns.take(i), ignore_case)
}

/// No pattern is refused on its own.
pub open spec fn none_refused(patterns: Seq<Seq<char>>, ignore_case: bool) -> bool {
    forall|i: int|
        0 <= i < patterns.len() ==> pattern_failure(#[trigger] patterns[i], ignore_case) is None
}

/// Why a list of patterns does not compile.
#[derive(Debug)]
pub enum CompileError {
    /// One pattern is no regular expression, or too large a one.
    InvalidPattern { pattern: String, reason: String },
    /// Each pattern is fine, but not all of them together.
    RejectedSet { patterns: Vec<String>, reason: String },
}

impl CompileError {
    /// What went wrong, in one line that names the pattern or the patterns.
    pub open spec fn headline(self) -> Seq<char> {
        match self {
            CompileError::InvalidPattern { pattern, reason } => "Invalid regex pattern: '"@
                + pattern@ + "'"@,
            CompileError::RejectedSet { patterns, reason } =>
                "Failed to compile RegexSet for patterns: "@ + debug_text(text::texts(patterns@)),
        }
    }

    /// What the `regex` crate has against it.
    pub open spec fn cause(self) -> Seq<char> {
        match self {
            CompileError::InvalidPattern { pattern, reason } => reason@,
            CompileError::RejectedSet { patterns, reason } => reason@,
        }
    }

    /// What went wrong, in one line that names the pattern or the patterns.
    pub fn message(&self) -> (line: String)
        ensures
            line@ == self.headline(),
            self matches CompileError::InvalidPattern { pattern, reason } ==> line@
                == "Invalid regex pattern: '"@ + pattern@ + "'"@,
            self matches CompileError::RejectedSet { patterns, reason } ==> line@
                == "Failed to compile RegexSet for patterns: "@ + debug_text(
                text::texts(patterns@),
            ),
    {
        match self {
            CompileError::InvalidPattern { pattern, .. } => {
                let opened = text::joined("Invalid regex pattern: '", pattern.as_str());
                text::joined(opened.as_str(), "'")
            },
            CompileError::RejectedSet { patterns, .. } => {
                let written = debug_list(patterns);
                text::joined("Failed to compile RegexSet for patterns: ", written.as_str())
            },
        }
    }

    /// The text of the error that the `regex` crate reported.
    pub fn reason(&self) -> (told: &str)
        ensures
            told@ == self.cause(),
            self matches CompileError::InvalidPattern { pattern, reason } ==> told@ == reason@,
            self matches CompileError::RejectedSet { patterns, reason } ==> told@ == reason@,
    {
        match self {
            CompileError::InvalidPattern { reason, .. } => reason.as_str(),
            CompileError::RejectedSet { reason, .. } => reason.as_str(),
        }
    }

    /// The message and the reason, a colon between them.
    pub fn report(&self) -> (full: String)
        ensures
            full@ == self.headline() + ": "@ + self.cause(),
    {
        let message = self.message();
        let opened = text::joined(message.as_str(), ": ");
        text::joined(opened.as_str(), self.reason())
    }
}

/// The error `error` is the one that `patterns` call for.
pub open spec fn explains(
    patterns: Seq<Seq<char>>,
    ignore_case: bool,
    error: CompileError,
) -> bool {
    match error {
        CompileError::InvalidPattern { pattern, reason } => exists|i: int|
            {
                &&& #[trigger] is_first_refused(patterns, ignore_case, i)
                &&& pattern@ == patterns[i]
                &&& pattern_failure(patterns[i], ignore_case) == Some(reason@)
            },
        CompileError::RejectedSet { patterns: rejected, reason } => {
            &&& none_refused(patterns, ignore_case)
            &&& text::texts(rejected@) == patterns
            &&& union_failure(patterns, ignore_case) == Some(reason@)
        },
    }
}

/// The patterns compile: each on its own and all together.
pub open spec fn compiles(patterns: Seq<Seq<char>>, ignore_case: bool) -> bool {
    none_refused(patterns, ignore_case) && union_failure(patterns, ignore_case) is None
}

/// A compiled set of patterns. It is cheap to clone, and the clones share what
/// was compiled.
#[derive(Debug)]
pub struct MatchSet {
    inner: Arc<regex::RegexSet>,
}

impl View for MatchSet {
    type V = Seq<Seq<char>>;

    /// The patterns of the set, in order.
    closed spec fn view(&self) -> Seq<Seq<char>> {
        set_patterns(*self.inner)
    }
}

impl Clone for MatchSet {
    fn clone(&self) -> (other: Self)
        ensures
            other@ == self@,
    {
        proof {
            use_type_invariant(self);
        }
        MatchSet { inner: share(&self.inner) }
    }
}

/// What building one pattern comes to: the error names the pattern.
pub fn judge_pattern(pattern: &str, verdict: Result<(), String>) -> (judged: Result<
    (),
    CompileError,
>)
    ensures
        judged is Ok <==> verdict is Ok,
        verdict matches Err(reason) ==> (judged matches Err(
            CompileError::InvalidPattern { pattern: named, reason: told },
        ) && named@ == pattern@ && told@ == reason@),
{
    match verdict {
        Ok(_) => Ok(()),
        Err(reason) => Err(
            CompileError::InvalidPattern { pattern: pattern.to_owned(), reason },
        ),
    }
}

/// The patterns that the set is built with.
pub fn effective_patterns(patterns: &[String], ignore_case: bool) -> (list: Vec<String>)
    ensures
        text::texts(list@) == effective_all(text::texts(patterns@), ignore_case),
        list@.len() == patterns@.len(),
        forall|i: int|
            0 <= i < list@.len() ==> (#[trigger] list@[i])@ == if ignore_case {
                "(?i)"@ + patterns@[i]@
            } else {
                patterns@[i]@
            },
{
    let mut list: Vec<String> = Vec::new();
    let mut i: usize = 0;
    while i < patterns.len()
        invariant
            i <= patterns@.len(),
            list@.len() == i,
            forall|k: int|
                0 <= k < i ==> (#[trigger] list@[k])@ == effective(patterns@[k]@, ignore_case),
        decreases patterns@.len() - i,
    {
        if ignore_case {
            list.push(text::joined("(?i)", patterns[i].as_str()));
        } else {
            list.push(patterns[i].clone());
        }
        i += 1;
    }
    list
}

impl MatchSet {
    /// The set has the default settings.
    #[verifier::type_invariant]
    spec fn settings_are_default(self) -> bool {
        has_default_settings(*self.inner)
    }

    /// What building the set comes to: the error names all patterns.
    pub fn judge_set(patterns: &[String], built: Result<regex::RegexSet, String>) -> (judged:
        Result<MatchSet, CompileError>)
        requires
            built matches Ok(set) ==> has_default_settings(set),
        ensures
            built matches Ok(set) ==> (judged matches Ok(m) && m@ == set_patterns(set)),
            built matches Err(reason) ==> (judged matches Err(
                CompileError::RejectedSet { patterns: named, reason: told },
            ) && named@ == patterns@ && told@ == reason@),
    {
        match built {
            Ok(set) => Ok(MatchSet { inner: Arc::new(set) }),
            Err(reason) => Err(
                CompileError::RejectedSet { patterns: text::copy_list(patterns), reason },
            ),
        }
    }

    /// Compiles a list of patterns. Each is built on its own first, so that an
    /// error names the first pattern that is refused.
    pub fn compile(patterns: &[String], ignore_case: bool) -> (compiled: Result<
        MatchSet,
        CompileError,
    >)
        ensures
            compiled is Ok <==> compiles(text::texts(patterns@), ignore_case),
            patterns@.len() == 0 ==> compiled is Ok,
            compiled matches Ok(m) ==> m@ == effective_all(text::texts(patterns@), ignore_case),
            compiled matches Ok(m) ==> m@.len() == patterns@.len() && forall|i: int|
                0 <= i < m@.len() ==> #[trigger] m@[i] == if ignore_case {
                    "(?i)"@ + patterns@[i]@
                } else {
                    patterns@[i]@
                },
            compiled matches Err(error) ==> explains(text::texts(patterns@), ignore_case, error),
    {
        let mut i: usize = 0;
        while i < patterns.len()
            invariant
                i <= patterns@.len(),
                none_refused(text::texts(patterns@).take(i as int), ignore_case),
            decreases patterns@.len() - i,
        {
            let pattern = patterns[i].as_str();
            let verdict = check_pattern(pattern, ignore_case);
            match judge_pattern(pattern, verdict) {
                Ok(_) => {},
                Err(error) => {
                    proof {
                        assert(is_first_refused(text::texts(patterns@), ignore_case, i as int));
                    }
                    return Err(error);
                },
            }
            i += 1;
        }
        assert(text::texts(patterns@).take(i as int) =~= text::texts(patterns@));
        let list = effective_patterns(patterns, ignore_case);
        assert(list@.len() == text::texts(list@).len());
        MatchSet::judge_set(patterns, build_set(&list))
    }

    /// Whether a line matches one of the patterns.
    pub fn is_match(&self, line: &str) -> (found: bool)
        ensures
            found == any_matches(self@, line@),
            found == (exists|i: int|
                0 <= i < self@.len() && pattern_matches(#[trigger] self@[i], line@)),
            any_keyword_stands(self@, line@) ==> found,
            all_keywords(self@) ==> found == any_keyword_stands(self@, line@),
    {
        proof {
            use_type_invariant(self);
        }
        set_is_match(&self.inner, line)
    }
}

/// A set of two lists matches where one of the lists does.
pub proof fn lemma_match_is_a_disjunction(
    left: Seq<Seq<char>>,
    right: Seq<Seq<char>>,
    line: Seq<char>,
)
    ensures
        any_matches(left + right, line) == (any_matches(left, line) || any_matches(right, line)),
{
    let both = left + right;
    if any_matches(left, line) {
        let i = choose|i: int| 0 <= i < left.len() && pattern_matches(#[trigger] left[i], line);
        assert(both[i] == left[i]);
    }
    if any_matches(right, line) {
        let i = choose|i: int| 0 <= i < right.len() && pattern_matches(#[trigger] right[i], line);
        assert(both[left.len() + i] == right[i]);
    }
    if any_matches(both, line) {
        let i = choose|i: int| 0 <= i < both.len() && pattern_matches(#[trigger] both[i], line);
        if i < left.len() {
            assert(left[i] == both[i]);
        } else {
            assert(right[i - left.len()] == both[i]);
        }
    }
}

/// A set of one pattern matches where that pattern does.
pub proof fn lemma_one_pattern_matches_for_itself(pattern: Seq<char>, line: Seq<char>)
    ensures
        any_matches(seq![pattern], line) == pattern_matches(pattern, line),
{
    let one = seq![pattern];
    assert(one[0] == pattern);
}

/// Where case is ignored, every pattern, whatever it is, is compiled behind the flag,
/// and else as it is; none is left out, and none is added.
pub proof fn lemma_the_flag_goes_before_every_pattern(
    patterns: Seq<Seq<char>>,
    ignore_case: bool,
)
    ensures
        effective_all(patterns, ignore_case).len() == patterns.len(),
        forall|i: int|
            0 <= i < patterns.len() ==> #[trigger] effective_all(patterns, ignore_case)[i]
                == if ignore_case {
                "(?i)"@ + patterns[i]
            } else {
                patterns[i]
            },
{
}

/// A line matches a compiled list if one of the patterns matches it, behind the flag
/// where case is ignored.
pub proof fn lemma_what_a_compiled_list_matches(
    patterns: Seq<Seq<char>>,
    ignore_case: bool,
    line: Seq<char>,
)
    ensures
        any_matches(effective_all(patterns, ignore_case), line) <==> exists|i: int|
            0 <= i < patterns.len() && pattern_matches(
                if ignore_case {
                    "(?i)"@ + #[trigger] patterns[i]
                } else {
                    patterns[i]
                },
                line,
            ),
{
    let all = effective_all(patterns, ignore_case);
    lemma_the_flag_goes_before_every_pattern(patterns, ignore_case);
    if any_matches(all, line) {
        let i = choose|i: int| 0 <= i < all.len() && pattern_matches(#[trigger] all[i], line);
        assert(patterns[i] == patterns[i]);
    }
    if exists|i: int|
        0 <= i < patterns.len() && pattern_matches(
            if ignore_case {
                "(?i)"@ + #[trigger] patterns[i]
            } else {
                patterns[i]
            },
            line,
        ) {
        let i = choose|i: int|
            0 <= i < patterns.len() && pattern_matches(
                if ignore_case {
                    "(?i)"@ + #[trigger] patterns[i]
                } else {
                    patterns[i]
                },
                line,
            );
        assert(pattern_matches(all[i], line));
    }
}

/// `regex` accepts the pattern on its own.
pub open spec fn is_accepted(pattern: Seq<char>, ignore_case: bool) -> bool {
    &&& syntax_failure(pattern) is None
    &&& limit_failure(pattern, ignore_case, usize::BITS as int) is None
}

/// A list compiles if and only if every pattern is accepted on its own and `regex`
/// makes a set of what is built of them: the patterns, behind the flag where case is
/// ignored.
pub proof fn lemma_when_a_list_compiles(
    patterns: Seq<Seq<char>>,
    ignore_case: bool,
    built: Seq<Seq<char>>,
)
    requires
        built.len() == patterns.len(),
        forall|i: int|
            0 <= i < patterns.len() ==> #[trigger] built[i] == if ignore_case {
                "(?i)"@ + patterns[i]
            } else {
                patterns[i]
            },
    ensures
        compiles(patterns, ignore_case) <==> {
            &&& forall|i: int|
                0 <= i < patterns.len() ==> is_accepted(#[trigger] patterns[i], ignore_case)
            &&& set_failure(built, usize::BITS as int) is None
        },
{
    lemma_the_flag_goes_before_every_pattern(patterns, ignore_case);
    assert(built =~= effective_all(patterns, ignore_case));
    if compiles(patterns, ignore_case) {
        assert forall|i: int| 0 <= i < patterns.len() implies is_accepted(
            #[trigger] patterns[i],
            ignore_case,
        ) by {
            assert(pattern_failure(patterns[i], ignore_case) is None);
        }
    }
}

/// What an error tells. It names a pattern that is not accepted while all before it
/// are, and says why: that it is no regular expression, or else that it is too large
/// a one. Or it names all patterns, each of which is accepted, and says why `regex`
/// makes no set of what is built of them.
pub proof fn lemma_what_an_error_tells(
    patterns: Seq<Seq<char>>,
    ignore_case: bool,
    built: Seq<Seq<char>>,
    error: CompileError,
)
    requires
        explains(patterns, ignore_case, error),
        built.len() == patterns.len(),
        forall|i: int|
            0 <= i < patterns.len() ==> #[trigger] built[i] == if ignore_case {
                "(?i)"@ + patterns[i]
            } else {
                patterns[i]
            },
    ensures
        match error {
            CompileError::InvalidPattern { pattern, reason } => exists|i: int|
                {
                    &&& 0 <= i < patterns.len()
                    &&& pattern@ == #[trigger] patterns[i]
                    &&& forall|j: int| 0 <= j < i ==> is_accepted(#[trigger] patterns[j], ignore_case)
                    &&& match syntax_failure(patterns[i]) {
                        Some(why) => reason@ == why,
                        None => limit_failure(patterns[i], ignore_case, usize::BITS as int) == Some(
                            reason@,
                        ),
                    }
                },
            CompileError::RejectedSet { patterns: named, reason } => {
                &&& named@.len() == patterns.len()
                &&& forall|i: int|
                    0 <= i < patterns.len() ==> (#[trigger] named@[i])@ == patterns[i]
                        && is_accepted(patterns[i], ignore_case)
                &&& set_failure(built, usize::BITS as int) == Some(reason@)
            },
        },
{
    lemma_the_flag_goes_before_every_pattern(patterns, ignore_case);
    assert(built =~= effective_all(patterns, ignore_case));
    match error {
        CompileError::InvalidPattern { pattern, reason } => {
            let i = choose|i: int|
                {
                    &&& #[trigger] is_first_refused(patterns, ignore_case, i)
                    &&& pattern@ == patterns[i]
                    &&& pattern_failure(patterns[i], ignore_case) == Some(reason@)
                };
            assert forall|j: int| 0 <= j < i implies is_accepted(
                #[trigger] patterns[j],
                ignore_case,
            ) by {
                assert(patterns.take(i)[j] == patterns[j]);
            }
            assert(pattern@ == patterns[i]);
        },
        CompileError::RejectedSet { patterns: named, reason } => {
            assert(text::texts(named@).len() == named@.len());
            assert forall|i: int| 0 <= i < patterns.len() implies (#[trigger] named@[i])@
                == patterns[i] && is_accepted(patterns[i], ignore_case) by {
                assert(text::texts(named@)[i] == named@[i]@);
                assert(pattern_failure(patterns[i], ignore_case) is None);
            }
        },
    }
}

/// The limits on a set do not decide: where every pattern is accepted, so are all
/// together.
pub open spec fn set_fits(patterns: Seq<Seq<char>>, ignore_case: bool) -> bool {
    none_refused(patterns, ignore_case) ==> union_failure(patterns, ignore_case) is None
}

/// No limit decides, neither on a pattern nor on the set.
pub open spec fn limits_do_not_decide(patterns: Seq<Seq<char>>, ignore_case: bool) -> bool {
    &&& forall|i: int|
        0 <= i < patterns.len() && syntax_failure(#[trigger] patterns[i]) is None ==> limit_failure(
            patterns[i],
            ignore_case,
            usize::BITS as int,
        ) is None
    &&& set_fits(patterns, ignore_case)
}

/// Where the limits on a set do not decide, a list compiles if and only if both
/// its parts do, and what is compiled matches where one of the parts does.
pub proof fn lemma_a_list_compiles_if_its_parts_do(
    left: Seq<Seq<char>>,
    right: Seq<Seq<char>>,
    ignore_case: bool,
)
    requires
        set_fits(left, ignore_case),
        set_fits(right, ignore_case),
        set_fits(left + right, ignore_case),
    ensures
        compiles(left + right, ignore_case) <==> compiles(left, ignore_case) && compiles(
            right,
            ignore_case,
        ),
        forall|line: Seq<char>| #[trigger]
            any_matches(effective_all(left + right, ignore_case), line) == (any_matches(
                effective_all(left, ignore_case),
                line,
            ) || any_matches(effective_all(right, ignore_case), line)),
{
    let both = left + right;
    if none_refused(both, ignore_case) {
        assert forall|i: int| 0 <= i < left.len() implies pattern_failure(
            #[trigger] left[i],
            ignore_case,
        ) is None by {
            assert(both[i] == left[i]);
        }
        assert forall|i: int| 0 <= i < right.len() implies pattern_failure(
            #[trigger] right[i],
            ignore_case,
        ) is None by {
            assert(both[left.len() + i] == right[i]);
        }
    }
    assert(effective_all(both, ignore_case) =~= effective_all(left, ignore_case) + effective_all(
        right,
        ignore_case,
    ));
    assert forall|line: Seq<char>| #[trigger]
        any_matches(effective_all(both, ignore_case), line) == (any_matches(
            effective_all(left, ignore_case),
            line,
        ) || any_matches(effective_all(right, ignore_case), line)) by {
        lemma_match_is_a_disjunction(
            effective_all(left, ignore_case),
            effective_all(right, ignore_case),
            line,
        );
    }
}

/// Neither the order of the patterns nor how often each comes matters for what
/// matches, nor, where the limits on a set do not decide, for whether they compile.
pub proof fn lemma_order_and_repetition_do_not_matter(
    one: Seq<Seq<char>>,
    other: Seq<Seq<char>>,
    ignore_case: bool,
    line: Seq<char>,
)
    requires
        forall|p: Seq<char>| #[trigger] one.contains(p) <==> other.contains(p),
    ensures
        any_matches(effective_all(one, ignore_case), line) == any_matches(
            effective_all(other, ignore_case),
            line,
        ),
        set_fits(one, ignore_case) && set_fits(other, ignore_case) ==> compiles(one, ignore_case)
            == compiles(other, ignore_case),
{
    lemma_more_patterns_match_more(one, other, ignore_case, line);
    lemma_more_patterns_match_more(other, one, ignore_case, line);
}

/// With every pattern of `one` in `other`, `other` matches where `one` does, and
/// is accepted, pattern by pattern, only where `one` is.
proof fn lemma_more_patterns_match_more(
    one: Seq<Seq<char>>,
    other: Seq<Seq<char>>,
    ignore_case: bool,
    line: Seq<char>,
)
    requires
        forall|p: Seq<char>| #[trigger] one.contains(p) ==> other.contains(p),
    ensures
        any_matches(effective_all(one, ignore_case), line) ==> any_matches(
            effective_all(other, ignore_case),
            line,
        ),
        none_refused(other, ignore_case) ==> none_refused(one, ignore_case),
{
    let few = effective_all(one, ignore_case);
    let many = effective_all(other, ignore_case);
    if any_matches(few, line) {
        let i = choose|i: int| 0 <= i < few.len() && pattern_matches(#[trigger] few[i], line);
        assert(one.contains(one[i]));
        let j = choose|j: int| 0 <= j < other.len() && other[j] == one[i];
        assert(many[j] == few[i]);
    }
    if none_refused(other, ignore_case) {
        assert forall|i: int| 0 <= i < one.len() implies pattern_failure(
            #[trigger] one[i],
            ignore_case,
        ) is None by {
            assert(one.contains(one[i]));
            let j = choose|j: int| 0 <= j < other.len() && other[j] == one[i];
            assert(pattern_failure(other[j], ignore_case) is None);
        }
    }
}

/// Where no limit decides, ignoring case changes neither which lists compile nor
/// how one that does not is reported.
pub proof fn lemma_ignoring_case_accepts_the_same(patterns: Seq<Seq<char>>, error: CompileError)
    requires
        limits_do_not_decide(patterns, true),
        limits_do_not_decide(patterns, false),
    ensures
        compiles(patterns, true) == compiles(patterns, false),
        explains(patterns, true, error) == explains(patterns, false, error),
{
    assert forall|i: int| 0 <= i < patterns.len() implies pattern_failure(
        #[trigger] patterns[i],
        true,
    ) == pattern_failure(patterns[i], false) by {}
    assert forall|n: int| 0 <= n <= patterns.len() implies #[trigger] none_refused(
        patterns.take(n),
        true,
    ) == none_refused(patterns.take(n), false) by {
        let front = patterns.take(n);
        assert forall|i: int| 0 <= i < front.len() implies pattern_failure(
            #[trigger] front[i],
            true,
        ) == pattern_failure(front[i], false) by {
            assert(front[i] == patterns[i]);
        }
    }
    assert(patterns.take(patterns.len() as int) =~= patterns);
    if let CompileError::InvalidPattern { pattern, reason } = error {
        if explains(patterns, true, error) {
            let i = choose|i: int|
                {
                    &&& #[trigger] is_first_refused(patterns, true, i)
                    &&& pattern@ == patterns[i]
                    &&& pattern_failure(patterns[i], true) == Some(reason@)
                };
            assert(is_first_refused(patterns, false, i));
        }
        if explains(patterns, false, error) {
            let i = choose|i: int|
                {
                    &&& #[trigger] is_first_refused(patterns, false, i)
                    &&& pattern@ == patterns[i]
                    &&& pattern_failure(patterns[i], false) == Some(reason@)
                };
            assert(none_refused(patterns.take(i), true));
            assert(is_first_refused(patterns, true, i));
        }
    }
}

/// A set without patterns matches no line.
pub proof fn lemma_no_pattern_no_match(ignore_case: bool, line: Seq<char>)
    ensures
        !any_matches(effective_all(Seq::empty(), ignore_case), line),
{
}

/// A set compiled from keywords matches a line if and only if one of the
/// keywords stands in it: letter for letter, or in any case where case is
/// ignored. (What `is_match` says of a set of keywords is put in terms of the
/// keywords that the set was compiled from.)
pub proof fn lemma_keywords_are_found(
    keywords: Seq<Seq<char>>,
    ignore_case: bool,
    line: Seq<char>,
)
    requires
        forall|i: int| 0 <= i < keywords.len() ==> is_keyword(#[trigger] keywords[i]),
    ensures
        all_keywords(effective_all(keywords, ignore_case)),
        any_keyword_stands(effective_all(keywords, ignore_case), line) == (exists|i: int|
            0 <= i < keywords.len() && if ignore_case {
                text::occurs_in_any_case(#[trigger] keywords[i], line)
            } else {
                text::occurs(keywords[i], line)
            }),
{
    reveal_strlit("(?i)");
    let all = effective_all(keywords, ignore_case);
    let flag = caseless_flag();
    assert forall|i: int| 0 <= i < all.len() implies {
        &&& is_keyword(#[trigger] all[i]) || is_caseless_keyword(all[i])
        &&& keyword_stands(all[i], line) == if ignore_case {
            text::occurs_in_any_case(keywords[i], line)
        } else {
            text::occurs(keywords[i], line)
        }
    } by {
        let word = keywords[i];
        if ignore_case {
            assert(all[i] == flag + word);
            assert((flag + word).take(flag.len() as int) =~= flag);
            assert((flag + word).skip(flag.len() as int) =~= word);
            assert(!is_literal_char(all[i][0]));
        } else if is_caseless_keyword(word) {
            assert(word.take(flag.len() as int)[0] == word[0]);
            assert(is_literal_char(word[0]));
        }
    }
    if any_keyword_stands(all, line) {
        let i = choose|i: int| 0 <= i < all.len() && keyword_stands(#[trigger] all[i], line);
        assert(all[i] == effective(keywords[i], ignore_case));
    }
    if exists|i: int|
        0 <= i < keywords.len() && if ignore_case {
            text::occurs_in_any_case(#[trigger] keywords[i], line)
        } else {
            text::occurs(keywords[i], line)
        } {
        let i = choose|i: int|
            0 <= i < keywords.len() && if ignore_case {
                text::occurs_in_any_case(#[trigger] keywords[i], line)
            } else {
                text::occurs(keywords[i], line)
            };
        assert(keyword_stands(all[i], line));
    }
}

/// Where case is ignored, the case in which a line is written does not count.
pub proof fn lemma_case_of_the_line_does_not_count(
    word: Seq<char>,
    line: Seq<char>,
    other: Seq<char>,
)
    requires
        is_keyword(word),
        text::equal_but_for_ascii_case(line, other),
    ensures
        text::occurs_in_any_case(word, line) == text::occurs_in_any_case(word, other),
{
    if text::occurs_in_any_case(word, line) {
        let at = choose|at: int| text::stands_at_in_any_case(word, line, at);
        assert(text::stands_at_in_any_case(word, other, at));
    }
    if text::occurs_in_any_case(word, other) {
        let at = choose|at: int| text::stands_at_in_any_case(word, other, at);
        assert(text::stands_at_in_any_case(word, line, at));
    }
}

/// A line that matches letter for letter matches all the more where case is
/// ignored.
pub proof fn lemma_ignoring_case_finds_no_less(word: Seq<char>, line: Seq<char>)
    requires
        text::occurs(word, line),
    ensures
        text::occurs_in_any_case(word, line),
{
    let at = choose|at: int| text::stands_at(word, line, at);
    assert forall|k: int| 0 <= k < word.len() implies text::same_but_for_case(
        #[trigger] word[k],
        line[at + k],
    ) by {
        assert(line.subrange(at, at + word.len())[k] == line[at + k]);
    }
    assert(text::stands_at_in_any_case(word, line, at));
}

/// The patterns determine the error: two errors that explain the same patterns
/// read the same.
pub proof fn lemma_error_is_determined(
    patterns: Seq<Seq<char>>,
    ignore_case: bool,
    one: CompileError,
    other: CompileError,
)
    requires
        explains(patterns, ignore_case, one),
        explains(patterns, ignore_case, other),
    ensures
        one.headline() == other.headline(),
        one.cause() == other.cause(),
{
    if let CompileError::InvalidPattern { pattern, reason } = one {
        let i = choose|i: int|
            {
                &&& #[trigger] is_first_refused(patterns, ignore_case, i)
                &&& pattern@ == patterns[i]
                &&& pattern_failure(patterns[i], ignore_case) == Some(reason@)
            };
        if let CompileError::InvalidPattern { pattern: pattern2, reason: reason2 } = other {
            let j = choose|j: int|
                {
                    &&& #[trigger] is_first_refused(patterns, ignore_case, j)
                    &&& pattern2@ == patterns[j]
                    &&& pattern_failure(patterns[j], ignore_case) == Some(reason2@)
                };
            if i < j {
                assert(patterns.take(j)[i] == patterns[i]);
            }
            if j < i {
                assert(patterns.take(i)[j] == patterns[j]);
            }
        }
    } else {
        if let CompileError::InvalidPattern { pattern: pattern2, reason: reason2 } = other {
            let j = choose|j: int|
                {
                    &&& #[trigger] is_first_refused(patterns, ignore_case, j)
                    &&& pattern2@ == patterns[j]
                    &&& pattern_failure(patterns[j], ignore_case) == Some(reason2@)
                };
            assert(pattern_failure(patterns[j], ignore_case) is None);
        }
    }
}

/// The message about a refused pattern quotes that pattern as it was given, and
/// it is a pattern of the list.
pub proof fn lemma_message_quotes_the_pattern(
    patterns: Seq<Seq<char>>,
    ignore_case: bool,
    error: CompileError,
)
    requires
        explains(patterns, ignore_case, error),
        !none_refused(patterns, ignore_case),
    ensures
        exists|i: int| #[trigger]
            is_first_refused(patterns, ignore_case, i) && text::occurs(
                patterns[i],
                error.headline(),
            ),
{
    if let CompileError::InvalidPattern { pattern, reason } = error {
        let i = choose|i: int|
            {
                &&& #[trigger] is_first_refused(patterns, ignore_case, i)
                &&& pattern@ == patterns[i]
                &&& pattern_failure(patterns[i], ignore_case) == Some(reason@)
            };
        let at = "Invalid regex pattern: '"@.len() as int;
        assert(error.headline().subrange(at, at + pattern@.len()) =~= pattern@);
        assert(text::stands_at(pattern@, error.headline(), at));
        assert(text::occurs(patterns[i], error.headline()));
    }
}

} // verus!
