# tgrep

Scans the files of a directory for lines that match any of a set of regular
expressions, and gathers those lines in one output file.

    tgrep -d ./logs -p ERROR -p "timeout|refused" -i -r -o result.log

| Option | Meaning |
| --- | --- |
| `-d`, `--dir` | the directory to scan |
| `-p`, `--patterns` | the patterns, one at least; `-p a b` and `-p a -p b` mean the same |
| `-o`, `--output` | the output file; without it `output_YYYYMMDD_HHMMSS.log` |
| `-i`, `--ignore-case` | case does not matter |
| `-r`, `--recursive` | go into subdirectories |

A directory that does not exist makes the run fail; a directory or a file that
cannot be read is passed over.

## Layout

`src/` is the library, verified with Verus. It performs no input or output: each
part that has to wait for the outside world is a state machine that is told what
happened and answers what to do next.

- `cli`: the command line, taken apart by `clap`
- `stamp`: the name of the output file where none was asked for, with `chrono`
- `matcher`: the set of patterns, with `regex`
- `walk`, `walk_laws`: which files are scanned
- `scan`: the reader of one file
- `writer`: the writer of the output file
- `engine`, `run_laws`: the run as a whole
- `logger`: which messages are logged
- `text`: texts as sequences of characters

`app/` is the program: it reads and writes files with `tokio`, one task for each
file and one for the output, and logs with `tracing`.

## What is trusted

What `clap`, `chrono` and `regex` return is stated in the contracts of the
functions marked `external_body`, and not proved. Of a regular expression the
library knows only that the same pattern gives the same answer on the same line,
except for keywords (letters, digits, underscores and spaces), which are found
where they stand, and that whether it is one does not depend on case.
