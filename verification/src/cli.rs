//! The command line: which flag wins, and which arguments are files.
use vstd::prelude::*;

use crate::text::chars_of_string;

verus! {

/// The outcome of parsing the command line.
#[derive(Debug)]
pub enum Cli {
    Help,
    Version,
    Files(Vec<String>),
    Unknown(String),
}

/// What a [`Cli`] says, as text.
pub enum CliView {
    Help,
    Version,
    Files(Seq<Seq<char>>),
    Unknown(Seq<char>),
}

/// The text view of a parsed command line.
pub open spec fn cli_view(c: Cli) -> CliView {
    match c {
        Cli::Help => CliView::Help,
        Cli::Version => CliView::Version,
        Cli::Files(f) => CliView::Files(f@.map_values(|s: String| s@)),
        Cli::Unknown(o) => CliView::Unknown(o@),
    }
}

/// `--`
pub open spec fn dashes() -> Seq<char> {
    seq!['-', '-']
}

/// Whether `a` asks for help: `-h` or `--help`.
pub open spec fn is_help(a: Seq<char>) -> bool {
    a == seq!['-', 'h'] || a == seq!['-', '-', 'h', 'e', 'l', 'p']
}

/// Whether `a` asks for the version: `-V` or `--version`.
pub open spec fn is_version(a: Seq<char>) -> bool {
    a == seq!['-', 'V'] || a == seq!['-', '-', 'v', 'e', 'r', 's', 'i', 'o', 'n']
}

/// The command line from argument `i` on, `files` collected so far. `-h`/`--help` and
/// `-V`/`--version` win, first seen; `--` ends option parsing; any other `-`-leading token
/// of two or more chars before `--` is an unknown option; everything else is a file path.
pub open spec fn cli_from(args: Seq<Seq<char>>, i: int, end_of_opts: bool, files: Seq<Seq<char>>) -> CliView
    decreases args.len() - i,
{
    if i < 0 || i >= args.len() {
        CliView::Files(files)
    } else {
        let a = args[i];
        if end_of_opts {
            cli_from(args, i + 1, true, files.push(a))
        } else if a == dashes() {
            cli_from(args, i + 1, true, files)
        } else if is_help(a) {
            CliView::Help
        } else if is_version(a) {
            CliView::Version
        } else if a.len() > 1 && a[0] == '-' {
            CliView::Unknown(a)
        } else {
            cli_from(args, i + 1, false, files.push(a))
        }
    }
}

fn is_exactly(a: &[char], w: &[char]) -> (r: bool)
    ensures
        r == (a@ == w@),
{
    crate::text::chars_eq(a, w)
}

/// Split arguments (without the program name) into what to do.
pub fn parse_cli(raw: Vec<String>) -> (r: Cli)
    ensures
        cli_view(r) == cli_from(raw@.map_values(|s: String| s@), 0, false, seq![]),
{
    let ghost args = raw@.map_values(|s: String| s@);
    let dd = vec!['-', '-'];
    let h = vec!['-', 'h'];
    let help = vec!['-', '-', 'h', 'e', 'l', 'p'];
    let v = vec!['-', 'V'];
    let version = vec!['-', '-', 'v', 'e', 'r', 's', 'i', 'o', 'n'];
    proof {
        assert(dd@ =~= dashes());
        assert(h@ =~= seq!['-', 'h']);
        assert(help@ =~= seq!['-', '-', 'h', 'e', 'l', 'p']);
        assert(v@ =~= seq!['-', 'V']);
        assert(version@ =~= seq!['-', '-', 'v', 'e', 'r', 's', 'i', 'o', 'n']);
    }
    let mut files: Vec<String> = Vec::new();
    let mut end_of_opts = false;
    let mut i: usize = 0;
    assert(files@.map_values(|s: String| s@) =~= seq![]);
    while i < raw.len()
        invariant
            args == raw@.map_values(|s: String| s@),
            i <= raw@.len(),
            dd@ == dashes(),
            h@ == seq!['-', 'h'],
            help@ == seq!['-', '-', 'h', 'e', 'l', 'p'],
            v@ == seq!['-', 'V'],
            version@ == seq!['-', '-', 'v', 'e', 'r', 's', 'i', 'o', 'n'],
            cli_from(args, 0, false, seq![]) == cli_from(
                args,
                i as int,
                end_of_opts,
                files@.map_values(|s: String| s@),
            ),
        decreases raw@.len() - i,
    {
        let arg = raw[i].clone();
        let a = chars_of_string(&arg);
        assert(a@ == args[i as int]);
        let ghost before = files@;
        if end_of_opts {
            files.push(arg);
        } else if is_exactly(&a, &dd) {
            end_of_opts = true;
        } else if is_exactly(&a, &h) || is_exactly(&a, &help) {
            return Cli::Help;
        } else if is_exactly(&a, &v) || is_exactly(&a, &version) {
            return Cli::Version;
        } else if a.len() > 1 && a[0] == '-' {
            return Cli::Unknown(arg);
        } else {
            files.push(arg);
        }
        proof {
            if files@.len() > before.len() {
                assert(files@.map_values(|s: String| s@) =~= before.map_values(|s: String| s@).push(
                    args[i as int],
                ));
            }
        }
        i = i + 1;
    }
    Cli::Files(files)
}

} // verus!
