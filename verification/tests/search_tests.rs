use ruthenium::options::{Casing, Colors, Opts};
use ruthenium::pattern::create_rx;
use ruthenium::search::{search, FileResult};

fn base_opts(pattern: &str) -> Opts {
    Opts {
        path: ".".to_string(),
        depth: usize::MAX,
        follow_links: false,
        do_binaries: false,
        do_hidden: false,
        check_ignores: true,
        pattern: pattern.to_string(),
        casing: Casing::Smart,
        literal: false,
        invert: false,
        colors: Some(Colors::empty()),
        only_files: None,
        only_count: false,
        show_break: false,
        show_heading: false,
        ackmate_format: false,
        vimgrep_format: false,
        max_count: usize::MAX,
        before: 0,
        after: 0,
        workers: 1,
    }
}

fn run_search(opts: &Opts, path: &str, buf: &[u8]) -> FileResult {
    let rx = create_rx(opts).unwrap();
    search(&rx, opts, path, buf)
}

#[test]
fn two_matching_lines_with_spans() {
    let opts = base_opts("foo");
    let res = run_search(&opts, "a.txt", b"foo\nbar\nfoo baz\n");
    assert_eq!(res.fname, "a.txt");
    assert!(!res.is_binary);
    assert!(!res.has_context);
    assert_eq!(res.matches.len(), 2);
    assert_eq!(res.matches[0].lineno, 1);
    assert_eq!(res.matches[0].line, b"foo".to_vec());
    assert_eq!(res.matches[0].spans, vec![(0, 3)]);
    assert_eq!(res.matches[1].lineno, 3);
    assert_eq!(res.matches[1].line, b"foo baz".to_vec());
    assert_eq!(res.matches[1].spans, vec![(0, 3)]);
}

#[test]
fn several_spans_on_one_line() {
    let opts = base_opts("o");
    let res = run_search(&opts, "a.txt", b"foo\nbar\nfoo baz\n");
    assert_eq!(res.matches.len(), 2);
    assert_eq!(res.matches[0].spans, vec![(1, 2), (2, 3)]);
    assert_eq!(res.matches[1].spans, vec![(1, 2), (2, 3)]);
}

#[test]
fn binary_file_with_match() {
    let mut opts = base_opts("a");
    opts.do_binaries = true;
    let res = run_search(&opts, "a.bin", b"aa\x00bb");
    assert!(res.is_binary);
    assert_eq!(res.matches.len(), 1);
    assert_eq!(res.matches[0].lineno, 0);
    assert!(res.matches[0].line.is_empty());
    assert!(res.matches[0].spans.is_empty());
}

#[test]
fn binary_file_without_match() {
    let mut opts = base_opts("zzz");
    opts.do_binaries = true;
    let res = run_search(&opts, "a.bin", b"aa\x00bb");
    assert!(res.is_binary);
    assert_eq!(res.matches.len(), 0);
}

#[test]
fn binary_file_skipped_when_not_searched() {
    let opts = base_opts("a");
    let res = run_search(&opts, "a.bin", b"aa\x00bb");
    assert!(res.is_binary);
    assert_eq!(res.matches.len(), 0);
}

#[test]
fn bom_file_is_text() {
    let opts = base_opts("hi");
    let res = run_search(&opts, "bom.txt", b"\xEF\xBB\xBFhi\x00there");
    assert!(!res.is_binary);
}

#[test]
fn empty_file_yields_nothing() {
    let opts = base_opts("x");
    let res = run_search(&opts, "empty", b"");
    assert!(!res.is_binary);
    assert_eq!(res.matches.len(), 0);
}

#[test]
fn empty_file_inverted_yields_nothing() {
    let mut opts = base_opts("x");
    opts.invert = true;
    let res = run_search(&opts, "empty", b"");
    assert_eq!(res.matches.len(), 0);
}

#[test]
fn context_lines_around_match() {
    let mut opts = base_opts("3");
    opts.before = 1;
    opts.after = 1;
    let res = run_search(&opts, "nums", b"1\n2\n3\n4\n5\n");
    assert!(res.has_context);
    assert_eq!(res.matches.len(), 1);
    let m = &res.matches[0];
    assert_eq!(m.lineno, 3);
    assert_eq!(m.line, b"3".to_vec());
    assert_eq!(m.before, vec![b"2".to_vec()]);
    assert_eq!(m.after, vec![b"4".to_vec()]);
}

#[test]
fn context_truncated_at_file_edges() {
    let mut opts = base_opts("1");
    opts.before = 3;
    opts.after = 10;
    let res = run_search(&opts, "nums", b"1\n2\n3\n");
    assert_eq!(res.matches.len(), 1);
    let m = &res.matches[0];
    assert_eq!(m.lineno, 1);
    assert!(m.before.is_empty());
    assert_eq!(m.after, vec![b"2".to_vec(), b"3".to_vec()]);
}

#[test]
fn inverted_match_lines() {
    let mut opts = base_opts("3");
    opts.invert = true;
    let res = run_search(&opts, "nums", b"1\n2\n3\n4\n5\n");
    assert_eq!(res.matches.len(), 4);
    let linenos: Vec<usize> = res.matches.iter().map(|m| m.lineno).collect();
    assert_eq!(linenos, vec![1, 2, 4, 5]);
    for m in &res.matches {
        assert!(m.spans.is_empty());
    }
}

#[test]
fn invert_duality_on_sample() {
    let buf = b"ax\nbx\ncy\ndx\n";
    let opts = base_opts("x");
    let normal = run_search(&opts, "f", buf);
    let mut iopts = base_opts("x");
    iopts.invert = true;
    let inverted = run_search(&iopts, "f", buf);
    let mut all: Vec<usize> = normal.matches.iter().map(|m| m.lineno).collect();
    let inv: Vec<usize> = inverted.matches.iter().map(|m| m.lineno).collect();
    for l in &inv {
        assert!(!all.contains(l));
    }
    all.extend(inv);
    all.sort();
    assert_eq!(all, vec![1, 2, 3, 4]);
}

#[test]
fn zero_width_pattern_terminates() {
    let opts = base_opts("a*");
    let res = run_search(&opts, "f", b"b\nab\nc\n");
    // at most one record per line
    let mut seen: Vec<usize> = Vec::new();
    for m in &res.matches {
        assert!(!seen.contains(&m.lineno));
        seen.push(m.lineno);
    }
    assert_eq!(seen, vec![1, 2, 3]);
    // the line with a real occurrence gets a non-empty span
    assert_eq!(res.matches[1].spans[0], (0, 1));
}

#[test]
fn multiline_match_is_ignored() {
    let opts = base_opts("b\nc");
    let res = run_search(&opts, "f", b"ab\ncd\n");
    assert_eq!(res.matches.len(), 0);
}

#[test]
fn max_count_caps_matches() {
    let mut opts = base_opts("x");
    opts.max_count = 2;
    let res = run_search(&opts, "f", b"x\nx\nx\nx\n");
    assert_eq!(res.matches.len(), 2);
    assert_eq!(res.matches[0].lineno, 1);
    assert_eq!(res.matches[1].lineno, 2);
}

#[test]
fn only_files_stops_after_first() {
    let mut opts = base_opts("x");
    opts.only_files = Some(true);
    let res = run_search(&opts, "f", b"x\nx\n");
    assert_eq!(res.matches.len(), 1);
    assert!(res.matches[0].spans.is_empty());
}

#[test]
fn smart_case_is_insensitive_without_uppercase() {
    let opts = base_opts("foo");
    let res = run_search(&opts, "f", b"FOO\n");
    assert_eq!(res.matches.len(), 1);
}

#[test]
fn smart_case_is_sensitive_with_uppercase() {
    let opts = base_opts("Foo");
    let res = run_search(&opts, "f", b"foo\nFoo\n");
    assert_eq!(res.matches.len(), 1);
    assert_eq!(res.matches[0].lineno, 2);
}

#[test]
fn case_sensitive_by_request() {
    let mut opts = base_opts("foo");
    opts.casing = Casing::Default;
    let res = run_search(&opts, "f", b"FOO\nfoo\n");
    assert_eq!(res.matches.len(), 1);
    assert_eq!(res.matches[0].lineno, 2);
}

#[test]
fn literal_pattern_escapes_metacharacters() {
    let mut opts = base_opts("a.b");
    opts.literal = true;
    opts.casing = Casing::Default;
    let res = run_search(&opts, "f", b"axb\na.b\n");
    assert_eq!(res.matches.len(), 1);
    assert_eq!(res.matches[0].lineno, 2);
}

#[test]
fn invalid_pattern_is_reported() {
    let opts = base_opts("(unclosed");
    let err = create_rx(&opts).err().unwrap();
    assert!(!err.message.is_empty());
}

#[test]
fn fname_is_normalized() {
    let opts = base_opts("x");
    let res = run_search(&opts, "./src/f.rs", b"x\n");
    assert_eq!(res.fname, "src/f.rs");
    let res2 = run_search(&opts, "//tmp/f", b"x\n");
    assert_eq!(res2.fname, "/tmp/f");
    let res3 = run_search(&opts, "plain", b"x\n");
    assert_eq!(res3.fname, "plain");
}

#[test]
fn match_swallowing_final_newline_is_clamped() {
    let mut opts = base_opts("a\n");
    opts.casing = Casing::Default;
    let res = run_search(&opts, "f", b"a\n");
    assert_eq!(res.matches.len(), 1);
    assert_eq!(res.matches[0].line, b"a".to_vec());
    assert_eq!(res.matches[0].spans, vec![(0, 1)]);
}

#[test]
fn unterminated_last_line() {
    let opts = base_opts("tail");
    let res = run_search(&opts, "f", b"head\ntail");
    assert_eq!(res.matches.len(), 1);
    assert_eq!(res.matches[0].lineno, 2);
    assert_eq!(res.matches[0].line, b"tail".to_vec());
}
