use torg::cli::{parse_cli, Cli};

fn cli(args: &[&str]) -> Cli {
    parse_cli(args.iter().map(|s| s.to_string()).collect())
}

#[test]
fn help_and_version_flags_win_over_files() {
    assert!(matches!(cli(&["--help"]), Cli::Help));
    assert!(matches!(cli(&["-h"]), Cli::Help));
    assert!(matches!(cli(&["--version"]), Cli::Version));
    assert!(matches!(cli(&["-V"]), Cli::Version));
    // A flag anywhere in the list still triggers.
    assert!(matches!(cli(&["a.org", "--help"]), Cli::Help));
    // First flag seen wins.
    assert!(matches!(cli(&["--version", "--help"]), Cli::Version));
}

#[test]
fn bare_args_become_files() {
    match cli(&[]) {
        Cli::Files(f) => assert!(f.is_empty()),
        other => panic!("{other:?}"),
    }
    match cli(&["a.org", "b.md"]) {
        Cli::Files(f) => assert_eq!(f, ["a.org", "b.md"]),
        other => panic!("{other:?}"),
    }
}

#[test]
fn unknown_option_is_reported() {
    match cli(&["--bogus"]) {
        Cli::Unknown(o) => assert_eq!(o, "--bogus"),
        other => panic!("{other:?}"),
    }
    match cli(&["-x"]) {
        Cli::Unknown(o) => assert_eq!(o, "-x"),
        other => panic!("{other:?}"),
    }
}

#[test]
fn double_dash_ends_option_parsing() {
    // A file literally named like a flag is reachable after `--`.
    match cli(&["--", "-weird.org"]) {
        Cli::Files(f) => assert_eq!(f, ["-weird.org"]),
        other => panic!("{other:?}"),
    }
    // `--help` after `--` is a filename, not the flag.
    match cli(&["--", "--help"]) {
        Cli::Files(f) => assert_eq!(f, ["--help"]),
        other => panic!("{other:?}"),
    }
}
