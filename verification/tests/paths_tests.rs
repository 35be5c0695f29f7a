use torg::paths::{common_prefix, expand_env, expand_path, ExpandedPath};

fn common(names: &[&str]) -> String {
    let v: Vec<String> = names.iter().map(|s| s.to_string()).collect();
    common_prefix(&v)
}

fn env(pairs: &[(&str, &str)]) -> Vec<(String, String)> {
    pairs.iter().map(|(k, v)| (k.to_string(), v.to_string())).collect()
}

#[test]
fn common_prefix_of_names() {
    assert_eq!(common(&["alpha", "alpine", "al"]), "al");
    assert_eq!(common(&["one"]), "one");
    assert_eq!(common(&["a", "b"]), "");
    assert_eq!(common(&[]), "");
}

#[test]
fn expand_path_leaves_a_plain_absolute_path_unchanged() {
    assert_eq!(
        expand_path("/tmp/a/b.sh", &[]),
        ExpandedPath::Plain("/tmp/a/b.sh".to_string())
    );
}

#[test]
fn expand_path_names_the_home_directory_for_a_leading_tilde() {
    assert_eq!(expand_path("~", &[]), ExpandedPath::Home);
    assert_eq!(
        expand_path(" ~/scripts/foo.sh ", &[]),
        ExpandedPath::UnderHome("scripts/foo.sh".to_string())
    );
    // A tilde not at the start is left alone.
    assert_eq!(expand_path("/etc/~x", &[]), ExpandedPath::Plain("/etc/~x".to_string()));
}

#[test]
fn expand_env_replaces_known_variables_and_keeps_the_rest() {
    let e = env(&[("PATH", "/usr/bin"), ("HOME", "/home/me"), ("PATH", "/shadowed")]);
    assert_eq!(expand_env("$PATH/bin", &e), "/usr/bin/bin");
    assert_eq!(expand_env("${PATH}/bin", &e), "/usr/bin/bin");
    assert_eq!(expand_env("$TORG_NOPE_UNDEFINED/x", &e), "$TORG_NOPE_UNDEFINED/x");
    assert_eq!(expand_env("${HOME", &e), "${HOME"); // unclosed brace
    assert_eq!(expand_env("cost $5", &e), "cost $5");
    assert_eq!(expand_env("a$", &e), "a$");
    assert_eq!(expand_env("${}", &e), "${}");
    assert_eq!(
        expand_path("$HOME/notes.org", &e),
        ExpandedPath::Plain("/home/me/notes.org".to_string())
    );
}

#[test]
fn expand_path_expands_a_leading_tilde() {
    assert_eq!(expand_path("~", &[]), ExpandedPath::Home);
    assert_eq!(
        expand_path("~/scripts/foo.sh", &[]),
        ExpandedPath::UnderHome("scripts/foo.sh".to_string())
    );
    // A tilde not at the start is left alone.
    assert_eq!(expand_path("/etc/~x", &[]), ExpandedPath::Plain("/etc/~x".to_string()));
}
