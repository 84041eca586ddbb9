//! The command line.
//!
//! The arguments are taken apart by `clap`; which options there are, and what
//! they mean, is said here.
use clap::Arg;
use clap::ArgAction::Append;
use clap::ArgAction::SetTrue;
use clap::Command;
use vstd::prelude::*;

use crate::engine::EngineConfig;
use crate::stamp;
use crate::stamp::Moment;
use crate::text;

verus! {

/// An option of a command line.
pub struct OptionDef {
    /// What its value is called.
    pub label: &'static str,
    pub short: char,
    pub long: &'static str,
    /// Whether it must be there.
    pub required: bool,
    pub help: &'static str,
}

impl View for OptionDef {
    type V = (Seq<char>, char, Seq<char>, bool, Seq<char>);

    /// How the option is called, by its label, its letter and its word, whether it
    /// must be there, and what it is said to be for.
    open spec fn view(&self) -> (Seq<char>, char, Seq<char>, bool, Seq<char>) {
        (self.label@, self.short, self.long@, self.required, self.help@)
    }
}

/// The options can be told apart, from each other and from those for help and
/// version, and a word does not begin with a dash.
pub open spec fn are_distinct(options: Seq<(Seq<char>, char, Seq<char>, bool, Seq<char>)>) -> bool {
    &&& forall|i: int, j: int|
        0 <= i < j < options.len() ==> {
            &&& (#[trigger] options[i]).0 != (#[trigger] options[j]).0
            &&& options[i].1 != options[j].1
            &&& options[i].2 != options[j].2
        }
    &&& forall|i: int|
        0 <= i < options.len() ==> {
            &&& (#[trigger] options[i]).0 != "help"@
            &&& options[i].0 != "version"@
            &&& options[i].1 != 'h'
            &&& options[i].1 != 'V'
            &&& options[i].1 != '-'
            &&& options[i].2 != "help"@
            &&& options[i].2 != "version"@
            &&& options[i].2.len() > 0
            &&& options[i].2[0] != '-'
        }
}

/// What was given for an option that takes values.
pub open spec fn given(values: Option<Vec<String>>) -> Option<Seq<Seq<char>>> {
    match values {
        Some(list) => Some(text::texts(list@)),
        None => None,
    }
}

/// Arguments by option: for an option with one value, for one with several and
/// for another with one value what was given, and for two flags whether they are
/// there.
pub type Arguments = ([Option<Vec<String>>; 3], bool, bool);

/// What came of taking a command line apart: what was given for each option, or
/// the kind of the error.
pub open spec fn outcome(matched: Result<Arguments, (String, String)>) -> Result<
    (Option<Seq<Seq<char>>>, Option<Seq<Seq<char>>>, Option<Seq<Seq<char>>>, bool, bool),
    Seq<char>,
> {
    match matched {
        Ok((values, first, second)) => Ok(
            (given(values@[0]), given(values@[1]), given(values@[2]), first, second),
        ),
        Err((kind, _)) => Err(kind@),
    }
}

/// What `clap` makes of the arguments `argv`, the name of the program first,
/// where there are five options: with one value, with one or more values and
/// again, with one value, and two flags. It is what was given for each of them,
/// or the kind of the error.
pub uninterp spec fn command_line(
    options: Seq<(Seq<char>, char, Seq<char>, bool, Seq<char>)>,
    argv: Seq<Seq<char>>,
) -> Result<
    (Option<Seq<Seq<char>>>, Option<Seq<Seq<char>>>, Option<Seq<Seq<char>>>, bool, bool),
    Seq<char>,
>;

/// What `clap` tells the user of a command line that is not carried out, for a
/// command with a name, a version, a description and five options as in
/// `command_line`.
pub uninterp spec fn usage_text(
    name: Seq<char>,
    version: Seq<char>,
    about: Seq<char>,
    options: Seq<(Seq<char>, char, Seq<char>, bool, Seq<char>)>,
    argv: Seq<Seq<char>>,
) -> Seq<char>;

/// The program is called by a plain file name, which is the same on every platform.
pub open spec fn is_plain_call(argv: Seq<Seq<char>>) -> bool {
    argv.len() > 0 ==> {
        &&& argv[0] != "."@
        &&& argv[0] != ".."@
        &&& forall|i: int|
            0 <= i < argv[0].len() ==> {
                &&& #[trigger] argv[0][i] != '/'
                &&& argv[0][i] != '\\'
                &&& argv[0][i] != ':'
            }
    }
}

/// A plain call has no separator of paths in the name of the program, which is no
/// name for a directory either.
pub proof fn lemma_what_a_plain_call_is(argv: Seq<Seq<char>>)
    ensures
        is_plain_call(argv) <==> argv.len() == 0 || (!argv[0].contains('/') && !argv[0].contains(
            '\\',
        ) && !argv[0].contains(':') && argv[0] != seq!['.'] && argv[0] != seq!['.', '.']),
{
    reveal_strlit(".");
    reveal_strlit("..");
    assert("."@ =~= seq!['.']);
    assert(".."@ =~= seq!['.', '.']);
    if argv.len() > 0 {
        let name = argv[0];
        assert(forall|i: int| 0 <= i < name.len() ==> name.contains(#[trigger] name[i]));
    }
}

/// Takes arguments apart with `clap::Command::try_get_matches_from`, for a
/// command with a version and five options: `value` takes one value, `list` one
/// or more and may come again, `extra` takes one value, `first` and `second` are
/// flags. The result is `command_line`. What is given has a value, of `value` and
/// `extra` one and no more, and what must be there is given. The text of an error
/// is `usage_text` where the program is called by a plain file name. It is left
/// open for a path: the text names the program by the file name in it, and what
/// that is depends on the platform.
#[verifier::external_body]
fn match_arguments(
    name: &'static str,
    version: &'static str,
    about: &'static str,
    value: &OptionDef,
    list: &OptionDef,
    extra: &OptionDef,
    first: &OptionDef,
    second: &OptionDef,
    argv: &Vec<String>,
) -> (matched: Result<Arguments, (String, String)>)
    requires
        are_distinct(seq![value@, list@, extra@, first@, second@]),
        !first.required,
        !second.required,
    ensures
        outcome(matched) == command_line(
            seq![value@, list@, extra@, first@, second@],
            text::texts(argv@),
        ),
        matched matches Ok(found) ==> {
            &&& found.0@[0] matches Some(one) ==> one@.len() == 1
            &&& found.0@[1] matches Some(some) ==> some@.len() > 0
            &&& found.0@[2] matches Some(one) ==> one@.len() == 1
            &&& value.required ==> found.0@[0] is Some
            &&& list.required ==> found.0@[1] is Some
            &&& extra.required ==> found.0@[2] is Some
        },
        matched matches Err(told) ==> (is_plain_call(text::texts(argv@)) ==> told.1@ == usage_text(
            name@,
            version@,
            about@,
            seq![value@, list@, extra@, first@, second@],
            text::texts(argv@),
        )),
{
    let arg = |o: &OptionDef|
        Arg::new(o.label).short(o.short).long(o.long).help(o.help).required(o.required);
    Command::new(name).version(version).about(about).args([
        arg(value),
        arg(list).num_args(1..).action(Append),
        arg(extra),
        arg(first).action(SetTrue),
        arg(second).action(SetTrue)
    ]).try_get_matches_from(argv).map(|mut found| (
        [value, list, extra].map(|o| found.remove_many(o.label).map(Iterator::collect)),
        found.get_flag(first.label),
        found.get_flag(second.label)
    )).map_err(|e| (format!("{:?}", e.kind()), e.to_string()))
}

pub const NAME: &'static str = "tgrep";

pub const VERSION: &'static str = "0.1.0";

/// What the program says of itself.
pub const ABOUT: &'static str =
    "High-performance Tokio-powered concurrent log & text line filtering CLI tool";

pub const DIR_HELP: &'static str = "目标检索目录路径";

pub const PATTERNS_HELP: &'static str =
    "匹配检索的关键字符串或正则表达式（支持多个：-p p1 -p p2，或单次 -p p1 p2） 至少提供 1 个 pattern；完全不传 -p 时 clap 直接报 required argument 缺失。";

pub const OUTPUT_HELP: &'static str = "过滤结果输出文件路径 [不指定时自动生成 output_YYYYMMDD_HHMMSS.log]";

pub const IGNORE_CASE_HELP: &'static str = "忽略大小写匹配（默认：关）";

pub const RECURSIVE_HELP: &'static str = "递归扫描所有子目录（默认：关，仅一级文件）";

/// The options of the program: how they are called, whether they must be there, and
/// what they are said to be for.
pub open spec fn tgrep_options() -> Seq<(Seq<char>, char, Seq<char>, bool, Seq<char>)> {
    seq![
        ("DIR"@, 'd', "dir"@, true, DIR_HELP@),
        ("PATTERNS"@, 'p', "patterns"@, true, PATTERNS_HELP@),
        ("OUTPUT"@, 'o', "output"@, false, OUTPUT_HELP@),
        ("IGNORE_CASE"@, 'i', "ignore-case"@, false, IGNORE_CASE_HELP@),
        ("RECURSIVE"@, 'r', "recursive"@, false, RECURSIVE_HELP@),
    ]
}

/// What the user of the program is told of a command line that is not carried out.
pub open spec fn tgrep_usage(argv: Seq<Seq<char>>) -> Seq<char> {
    usage_text(NAME@, VERSION@, ABOUT@, tgrep_options(), argv)
}

/// The options of the program: `-d` or `--dir` and `-p` or `--patterns` must be there,
/// `-o` or `--output`, `-i` or `--ignore-case` and `-r` or `--recursive` need not.
pub proof fn lemma_how_the_options_are_called()
    ensures
        tgrep_options().len() == 5,
        tgrep_options()[0].1 == 'd' && tgrep_options()[0].2 == "dir"@ && tgrep_options()[0].3,
        tgrep_options()[1].1 == 'p' && tgrep_options()[1].2 == "patterns"@ && tgrep_options()[1].3,
        tgrep_options()[2].1 == 'o' && tgrep_options()[2].2 == "output"@ && !tgrep_options()[2].3,
        tgrep_options()[3].1 == 'i' && tgrep_options()[3].2 == "ignore-case"@
            && !tgrep_options()[3].3,
        tgrep_options()[4].1 == 'r' && tgrep_options()[4].2 == "recursive"@
            && !tgrep_options()[4].3,
{
}

/// The options of the program can be told apart.
proof fn lemma_tgrep_options_are_distinct()
    ensures
        are_distinct(tgrep_options()),
{
    reveal_strlit("help");
    reveal_strlit("version");
    reveal_strlit("DIR");
    reveal_strlit("PATTERNS");
    reveal_strlit("OUTPUT");
    reveal_strlit("IGNORE_CASE");
    reveal_strlit("RECURSIVE");
    reveal_strlit("dir");
    reveal_strlit("patterns");
    reveal_strlit("output");
    reveal_strlit("ignore-case");
    reveal_strlit("recursive");
    let n = tgrep_options();
    assert(n[0].0.len() == 3 && n[0].2.len() == 3);
    assert(n[1].0.len() == 8 && n[1].2.len() == 8);
    assert(n[2].0.len() == 6 && n[2].2.len() == 6);
    assert(n[3].0.len() == 11 && n[3].2.len() == 11);
    assert(n[4].0.len() == 9 && n[4].2.len() == 9);
    assert forall|i: int| 0 <= i < n.len() implies (#[trigger] n[i]).2[0] == n[i].1 by {
        if i == 0 {
        } else if i == 1 {
        } else if i == 2 {
        } else if i == 3 {
        }
    }
}

/// Takes a command line of the program apart.
pub fn tgrep_arguments(argv: &Vec<String>) -> (matched: Result<Arguments, (String, String)>)
    ensures
        outcome(matched) == command_line(tgrep_options(), text::texts(argv@)),
        matched matches Ok(found) ==> are_complete(found),
        matched matches Err(told) ==> (is_plain_call(text::texts(argv@)) ==> told.1@
            == tgrep_usage(text::texts(argv@))),
        matched matches Err(told) ==> (is_plain_call(text::texts(argv@)) ==> told.1@ == usage_text(
            "tgrep"@,
            "0.1.0"@,
            ABOUT@,
            tgrep_options(),
            text::texts(argv@),
        )),
{
    let dir = OptionDef {
        label: "DIR",
        short: 'd',
        long: "dir",
        required: true,
        help: DIR_HELP,
    };
    let patterns = OptionDef {
        label: "PATTERNS",
        short: 'p',
        long: "patterns",
        required: true,
        help: PATTERNS_HELP,
    };
    let output = OptionDef {
        label: "OUTPUT",
        short: 'o',
        long: "output",
        required: false,
        help: OUTPUT_HELP,
    };
    let ignore_case = OptionDef {
        label: "IGNORE_CASE",
        short: 'i',
        long: "ignore-case",
        required: false,
        help: IGNORE_CASE_HELP,
    };
    let recursive = OptionDef {
        label: "RECURSIVE",
        short: 'r',
        long: "recursive",
        required: false,
        help: RECURSIVE_HELP,
    };
    proof {
        lemma_tgrep_options_are_distinct();
    }
    assert(tgrep_options() =~= seq![dir@, patterns@, output@, ignore_case@, recursive@]);
    match_arguments(
        NAME,
        VERSION,
        ABOUT,
        &dir,
        &patterns,
        &output,
        &ignore_case,
        &recursive,
        argv,
    )
}

/// The exit code for a kind of error: success where help or the version was asked
/// for, else wrong usage.
pub open spec fn exit_code_for(kind: Seq<char>) -> int {
    if kind == "DisplayHelp"@ || kind == "DisplayVersion"@ {
        0
    } else {
        2
    }
}

/// Why a command line is not carried out: it is wrong, or it asks for help or
/// for the version.
#[derive(Debug)]
pub struct UsageError {
    /// The name of the kind of the error in `clap`.
    pub kind: String,
    /// The exit code that goes with it.
    pub exit_code: i32,
    /// What to tell the user.
    pub text: String,
}

impl UsageError {
    /// The error of a kind, with what to tell the user.
    pub fn new(kind: String, text: String) -> (error: UsageError)
        ensures
            error.kind == kind,
            error.exit_code == exit_code_for(kind@),
            error.exit_code == 0 || error.exit_code == 2,
            error.exit_code == 0 <==> kind@ == "DisplayHelp"@ || kind@ == "DisplayVersion"@,
            error.text == text,
    {
        let asked = kind == "DisplayHelp".to_owned() || kind == "DisplayVersion".to_owned();
        let exit_code: i32 = if asked {
            0
        } else {
            2
        };
        UsageError { kind, exit_code, text }
    }
}

/// There is a directory, one and no more; there are patterns, one at least; and
/// there is not more than one output.
pub open spec fn are_complete(arguments: Arguments) -> bool {
    &&& arguments.0@[0] matches Some(dirs) && dirs@.len() == 1
    &&& arguments.0@[1] matches Some(patterns) && patterns@.len() > 0
    &&& arguments.0@[2] matches Some(outputs) ==> outputs@.len() == 1
}

/// What the command line of the program asks for.
#[derive(Debug, Clone)]
pub struct Cli {
    /// The directory to search.
    pub dir: String,
    /// The patterns to look for, one at least.
    pub patterns: Vec<String>,
    /// Where to write; without it a name is made up.
    pub output: Option<String>,
    /// Whether case does not matter.
    pub ignore_case: bool,
    /// Whether directories in the directory are searched too.
    pub recursive: bool,
}

impl Cli {
    /// What was given for each option.
    pub open spec fn given(self) -> (
        Option<Seq<Seq<char>>>,
        Option<Seq<Seq<char>>>,
        Option<Seq<Seq<char>>>,
        bool,
        bool,
    ) {
        (
            Some(seq![self.dir@]),
            Some(text::texts(self.patterns@)),
            match self.output {
                Some(path) => Some(seq![path@]),
                None => None,
            },
            self.ignore_case,
            self.recursive,
        )
    }

    /// The request that the arguments make.
    pub fn from_arguments(arguments: &Arguments) -> (cli: Cli)
        requires
            are_complete(*arguments),
        ensures
            Ok::<_, Seq<char>>(cli.given()) == outcome(Ok(*arguments)),
            cli.dir@ == arguments.0@[0]->0@[0]@,
            cli.patterns@ == arguments.0@[1]->0@,
            arguments.0@[2] matches Some(paths) ==> (cli.output matches Some(path) && path@
                == paths@[0]@),
            arguments.0@[2] is None ==> cli.output is None,
            cli.ignore_case == arguments.1,
            cli.recursive == arguments.2,
    {
        let values = &arguments.0;
        let dir = match &values[0] {
            Some(dirs) => dirs[0].clone(),
            None => vstd::pervasive::unreached(),
        };
        let patterns = match &values[1] {
            Some(list) => text::copy_list(list.as_slice()),
            None => vstd::pervasive::unreached(),
        };
        let output = match &values[2] {
            Some(paths) => Some(paths[0].clone()),
            None => None,
        };
        let cli = Cli { dir, patterns, output, ignore_case: arguments.1, recursive: arguments.2 };
        proof {
            assert(given(values@[0])->0 =~= seq![cli.dir@]);
            if output is Some {
                assert(given(values@[2])->0 =~= seq![cli.output->0@]);
            }
        }
        cli
    }

    /// Takes a command line apart, the name of the program first. What it asks
    /// for, or the error, is what `clap` makes of it; there is one pattern at
    /// least. The text of an error is that of `clap`, and is stated where the program
    /// is called by a plain file name.
    pub fn try_parse_from(argv: &Vec<String>) -> (parsed: Result<Cli, UsageError>)
        ensures
            match command_line(tgrep_options(), text::texts(argv@)) {
                Ok((dirs, patterns, outputs, first, second)) => {
                    &&& parsed matches Ok(cli)
                    &&& cli.given() == (dirs, patterns, outputs, first, second)
                    &&& dirs == Some(seq![cli.dir@])
                    &&& patterns matches Some(list) && list.len() == cli.patterns@.len() && forall|
                        i: int,
                    |
                        0 <= i < list.len() ==> #[trigger] list[i] == cli.patterns@[i]@
                    &&& match cli.output {
                        Some(path) => outputs == Some(seq![path@]),
                        None => outputs is None,
                    }
                    &&& cli.ignore_case == first
                    &&& cli.recursive == second
                },
                Err(kind) => parsed is Err && parsed->Err_0.kind@ == kind
                    && parsed->Err_0.exit_code == exit_code_for(kind),
            },
            parsed matches Err(error) ==> (is_plain_call(text::texts(argv@)) ==> error.text@
                == tgrep_usage(text::texts(argv@))),
            parsed matches Err(error) ==> (is_plain_call(text::texts(argv@)) ==> error.text@
                == usage_text("tgrep"@, "0.1.0"@, ABOUT@, tgrep_options(), text::texts(argv@))),
            parsed matches Ok(cli) ==> cli.patterns@.len() > 0,
    {
        match tgrep_arguments(argv) {
            Ok(arguments) => {
                let cli = Cli::from_arguments(&arguments);
                assert(cli.patterns@.len() == cli.given().1->0.len());
                Ok(cli)
            },
            Err((kind, told)) => Err(UsageError::new(kind, told)),
        }
    }

    /// The settings of the run that the command line asks for. Without an output
    /// path the name of the output is made from the moment; there are no settings
    /// if that is needed and there is no such moment.
    pub fn into_config(self, now: Moment) -> (config: Option<EngineConfig>)
        ensures
            config is Some <==> self.output is Some || now.exists_in_calendar(),
            config matches Some(c) ==> {
                &&& c.dir@ == self.dir@
                &&& c.output@ == match self.output {
                    Some(path) => path@,
                    None => stamp::output_name(now),
                }
                &&& self.output is None ==> c.output@ == "output_"@ + stamp::stamp_text(now)
                    + ".log"@
                &&& c.patterns == self.patterns
                &&& c.ignore_case == self.ignore_case
                &&& c.recursive == self.recursive
            },
    {
        let output = match self.output {
            Some(path) => Some(path),
            None => stamp::default_output_name(now),
        };
        match output {
            Some(output) => Some(
                EngineConfig {
                    dir: self.dir,
                    output,
                    patterns: self.patterns,
                    ignore_case: self.ignore_case,
                    recursive: self.recursive,
                },
            ),
            None => None,
        }
    }
}

} // verus!
