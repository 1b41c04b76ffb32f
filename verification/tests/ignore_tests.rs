use ruthenium::ignore::{match_patterns, relative_path_from, Ignores};
use ruthenium::walk::WalkState;

fn rules(root: &str, lines: &[&str]) -> Ignores {
    let owned: Vec<String> = lines.iter().map(|s| s.to_string()).collect();
    Ignores::from_lines(root.to_string(), &owned)
}

#[test]
fn extension_rule_ignores_logs() {
    let stack = vec![rules(".", &["*.log"])];
    assert!(match_patterns("./drop.log", &stack));
    assert!(!match_patterns("./keep.txt", &stack));
}

#[test]
fn walker_prunes_ignored_entries() {
    let mut state = WalkState::new();
    state.push_dir(".", rules(".", &["*.log"]));
    assert!(state.allow_entry("./keep.txt", false, true));
    assert!(!state.allow_entry("./drop.log", false, true));
    // ignore checking can be switched off
    assert!(state.allow_entry("./drop.log", false, false));
}

#[test]
fn literal_filename_rule() {
    let stack = vec![rules(".", &["Makefile"])];
    assert!(match_patterns("./Makefile", &stack));
    assert!(match_patterns("./sub/dir/Makefile", &stack));
    assert!(!match_patterns("./makefile", &stack));
}

#[test]
fn glob_pattern_rule() {
    let stack = vec![rules(".", &["build/*.o"])];
    assert!(match_patterns("./build/x.o", &stack));
    assert!(!match_patterns("./src/x.o", &stack));
}

#[test]
fn anchored_pattern_is_kept_verbatim() {
    // a leading slash suppresses the any-depth prefix; the pattern is used
    // as written and therefore does not match slash-less relative paths
    let stack = vec![rules(".", &["/top.txt"])];
    assert!(!match_patterns("./sub/top.txt", &stack));
    assert!(!match_patterns("./top.txt", &stack));
}

#[test]
fn unanchored_pattern_matches_at_any_depth() {
    let stack = vec![rules(".", &["tmp"])];
    assert!(match_patterns("./tmp", &stack));
    assert!(match_patterns("./a/b/tmp", &stack));
}

#[test]
fn negated_pattern_rescues_a_path() {
    let stack = vec![rules(".", &["*.log", "!keep.log"])];
    assert!(match_patterns("./drop.log", &stack));
    assert!(!match_patterns("./keep.log", &stack));
}

#[test]
fn comments_blanks_and_whitespace_are_handled() {
    let stack = vec![rules(".", &["# a comment", "", "   ", "  spaced.txt  "])];
    assert!(match_patterns("./spaced.txt", &stack));
    assert!(!match_patterns("./other.txt", &stack));
}

#[test]
fn malformed_glob_is_dropped() {
    let stack = vec![rules(".", &["[unclosed", "*.log"])];
    assert!(match_patterns("./drop.log", &stack));
    assert!(!match_patterns("./unclosed", &stack));
}

#[test]
fn inner_rule_set_applies_below_its_root() {
    let stack = vec![rules(".", &[]), rules("./sub", &["*.gen"])];
    assert!(match_patterns("./sub/x.gen", &stack));
}

#[test]
fn is_ignored_is_deterministic() {
    let mk = || vec![rules(".", &["*.log", "!keep.log", "build/*"])];
    let paths = ["./a.log", "./keep.log", "./build/x", "./src/a.rs"];
    for p in paths {
        assert_eq!(match_patterns(p, &mk()), match_patterns(p, &mk()));
    }
}

#[test]
fn relative_path_basics() {
    assert_eq!(relative_path_from("src/a.txt", "src"), Some("a.txt"));
    assert_eq!(relative_path_from("src/a/b", "src/a"), Some("b"));
    assert_eq!(relative_path_from("src", "src"), Some(""));
    assert_eq!(relative_path_from("srcx/a", "src"), None);
    assert_eq!(relative_path_from("other/a", "src"), None);
    assert_eq!(relative_path_from("./x/y", "."), Some("x/y"));
}

#[test]
fn relative_path_compares_components() {
    // repeated separators and a lone dot are not components of their own
    assert_eq!(relative_path_from("a/b/c", "a//b"), Some("c"));
    assert_eq!(relative_path_from("a//b/c", "a/b"), Some("c"));
    assert_eq!(relative_path_from("src/a", "src/"), Some("a"));
    assert_eq!(relative_path_from("src/", "src"), Some(""));
    assert_eq!(relative_path_from("a/./b/c", "a/b"), Some("c"));
    // a rooted path is not under an unrooted base
    assert_eq!(relative_path_from("/a/b", "a"), None);
    assert_eq!(relative_path_from("/a/b", "/a"), Some("b"));
    // an empty base is a prefix of everything
    assert_eq!(relative_path_from("x/y", ""), Some("x/y"));
}

#[test]
fn special_names_have_no_extension() {
    // a "*." line is an empty literal extension rule
    let stack = vec![rules(".", &["*."])];
    assert!(match_patterns("./a.", &stack));
    // the special name ".." has no extension at all
    assert!(!match_patterns("./..", &stack));
}

#[test]
fn walker_pops_to_parent() {
    let mut state = WalkState::new();
    state.push_dir("a", rules("a", &[]));
    state.push_dir("a/b", rules("a/b", &[]));
    state.push_dir("a/b/c", rules("a/b/c", &[]));
    assert_eq!(state.depth(), 3);
    // moving to a sibling of "a/b" pops two levels
    state.pop_to_parent("a");
    assert_eq!(state.depth(), 1);
    // an unknown parent clears the stack
    state.pop_to_parent("elsewhere");
    assert_eq!(state.depth(), 0);
}

#[test]
fn hidden_entries_are_rejected() {
    let state = WalkState::new();
    assert!(!state.allow_entry("./src/.git", false, true));
    assert!(state.allow_entry("./src/.git", true, true));
    assert!(state.allow_entry("./src/code.rs", false, true));
    // the special names are not hidden
    assert!(state.allow_entry(".", false, true));
    assert!(state.allow_entry("..", false, true));
}
