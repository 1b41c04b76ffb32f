use ruthenium::display::{
    AckMateMode, CountMode, DefaultMode, DisplayMode, FilesOnlyMode, VimGrepMode,
};
use ruthenium::lines::Lines;
use ruthenium::options::{Casing, Colors, Opts};
use ruthenium::pattern::create_rx;
use ruthenium::search::{search, FileResult};

fn plain_opts(pattern: &str) -> Opts {
    Opts {
        path: ".".to_string(),
        depth: usize::MAX,
        follow_links: false,
        do_binaries: false,
        do_hidden: false,
        check_ignores: true,
        pattern: pattern.to_string(),
        casing: Casing::Smart,
        literal: false,
        invert: false,
        colors: Some(Colors::empty()),
        only_files: None,
        only_count: false,
        show_break: false,
        show_heading: false,
        ackmate_format: false,
        vimgrep_format: false,
        max_count: usize::MAX,
        before: 0,
        after: 0,
        workers: 1,
    }
}

fn scan(opts: &Opts, path: &str, buf: &[u8]) -> FileResult {
    let rx = create_rx(opts).unwrap();
    search(&rx, opts, path, buf)
}

#[test]
fn count_mode_counts_spans() {
    let opts = plain_opts("o");
    let res = scan(&opts, "a.txt", b"foo\nbar\nfoo baz\n");
    let mut mode = CountMode::new(Colors::empty());
    mode.print_result(res);
    assert_eq!(mode.take_output(), b"a.txt:4\n".to_vec());
}

#[test]
fn count_mode_skips_files_without_matches() {
    let opts = plain_opts("zzz");
    let res = scan(&opts, "a.txt", b"foo\n");
    let mut mode = CountMode::new(Colors::empty());
    mode.print_result(res);
    assert!(mode.take_output().is_empty());
}

#[test]
fn binary_notice_in_default_mode() {
    let mut opts = plain_opts("a");
    opts.do_binaries = true;
    let res = scan(&opts, "a.bin", b"aa\x00bb");
    let mut mode = DefaultMode::new(Colors::empty(), false, false);
    mode.print_result(res);
    assert_eq!(mode.take_output(), b"Binary file a.bin matches.\n".to_vec());
}

#[test]
fn default_mode_without_heading() {
    let opts = plain_opts("foo");
    let res = scan(&opts, "a.txt", b"foo\nbar\nfoo baz\n");
    let mut mode = DefaultMode::new(Colors::empty(), false, false);
    mode.print_result(res);
    assert_eq!(
        mode.take_output(),
        b"a.txt:1:foo\na.txt:3:foo baz\n".to_vec()
    );
}

#[test]
fn default_mode_with_heading() {
    let opts = plain_opts("foo");
    let res = scan(&opts, "a.txt", b"foo\nbar\nfoo baz\n");
    let mut mode = DefaultMode::new(Colors::empty(), false, true);
    mode.print_result(res);
    assert_eq!(mode.take_output(), b"a.txt\n1:foo\n3:foo baz\n".to_vec());
}

#[test]
fn default_mode_grouping_blank_line() {
    let opts = plain_opts("x");
    let res1 = scan(&opts, "one", b"x\n");
    let res2 = scan(&opts, "two", b"x\n");
    let mut mode = DefaultMode::new(Colors::empty(), true, true);
    mode.print_result(res1);
    mode.print_result(res2);
    assert_eq!(mode.take_output(), b"one\n1:x\n\ntwo\n1:x\n".to_vec());
}

#[test]
fn default_mode_context_with_separator() {
    let mut opts = plain_opts("x");
    opts.before = 1;
    opts.after = 1;
    let res = scan(&opts, "f", b"1\nx\n3\n4\n5\nx\n7\n");
    let mut mode = DefaultMode::new(Colors::empty(), false, true);
    mode.print_result(res);
    assert_eq!(
        mode.take_output(),
        b"f\n1-1\n2:x\n3-3\n--\n5-5\n6:x\n7-7\n".to_vec()
    );
}

#[test]
fn default_mode_context_dedup_of_adjacent_lines() {
    let mut opts = plain_opts("x");
    opts.before = 1;
    opts.after = 1;
    let res = scan(&opts, "f", b"x\nx\n3\n");
    let mut mode = DefaultMode::new(Colors::empty(), false, true);
    mode.print_result(res);
    // line 1 was already printed as a match, and the after-context of the
    // first match stops at the second match's line
    assert_eq!(mode.take_output(), b"f\n1:x\n2:x\n3-3\n".to_vec());
}

#[test]
fn default_mode_colors_highlight_spans() {
    let opts = plain_opts("oo");
    let res = scan(&opts, "a.txt", b"foo\n");
    let colors = Colors::from("35", "32", "4", "36");
    let mut mode = DefaultMode::new(colors, false, true);
    mode.print_result(res);
    assert_eq!(
        mode.take_output(),
        b"\x1b[35ma.txt\x1b[0m\n\x1b[32m1\x1b[0m\x1b[36m:\x1b[0mf\x1b[4moo\x1b[0m\n".to_vec()
    );
}

#[test]
fn files_only_mode_lists_matching_files() {
    let opts = plain_opts("foo");
    let hit = scan(&opts, "a.txt", b"foo\n");
    let miss = scan(&opts, "b.txt", b"bar\n");
    let mut mode = FilesOnlyMode::new(Colors::empty(), true);
    mode.print_result(hit);
    mode.print_result(miss);
    assert_eq!(mode.take_output(), b"a.txt\n".to_vec());
}

#[test]
fn files_only_mode_lists_non_matching_files() {
    let opts = plain_opts("foo");
    let hit = scan(&opts, "a.txt", b"foo\n");
    let miss = scan(&opts, "b.txt", b"bar\n");
    let mut mode = FilesOnlyMode::new(Colors::empty(), false);
    mode.print_result(hit);
    mode.print_result(miss);
    assert_eq!(mode.take_output(), b"b.txt\n".to_vec());
}

#[test]
fn vimgrep_mode_one_line_per_span() {
    let opts = plain_opts("o");
    let res = scan(&opts, "a.txt", b"foo\n");
    let mut mode = VimGrepMode::new();
    mode.print_result(res);
    assert_eq!(
        mode.take_output(),
        b"a.txt:1:2:foo\na.txt:1:3:foo\n".to_vec()
    );
}

#[test]
fn ackmate_mode_span_list() {
    let opts = plain_opts("o");
    let res = scan(&opts, "a.txt", b"foo\nbar\n");
    let mut mode = AckMateMode::new();
    mode.print_result(res);
    assert_eq!(mode.take_output(), b":a.txt1;1 1,2 1:foo\n".to_vec());
}

#[test]
fn ackmate_mode_blank_line_between_files() {
    let opts = plain_opts("x");
    let res1 = scan(&opts, "one", b"x\n");
    let res2 = scan(&opts, "two", b"x\n");
    let mut mode = AckMateMode::new();
    mode.print_result(res1);
    mode.print_result(res2);
    assert_eq!(
        mode.take_output(),
        b":one1;0 1:x\n\n:two1;0 1:x\n".to_vec()
    );
}

#[test]
fn color_escape_sequences() {
    let c = Colors::from("35", "32", "4", "36");
    assert_eq!(c.path, "\x1b[35m");
    assert_eq!(c.lineno, "\x1b[32m");
    assert_eq!(c.span, "\x1b[4m");
    assert_eq!(c.punct, "\x1b[36m");
    assert_eq!(c.reset, "\x1b[0m");
    assert!(!c.empty);
    let e = Colors::empty();
    assert!(e.empty);
    assert!(e.path.is_empty());
}

#[test]
fn line_index_queries() {
    let buf = b"aa\nbbb\n\ncc";
    let mut lines = Lines::new(buf);
    assert_eq!(lines.get_lineno(buf, 0), 0);
    assert_eq!(lines.get_lineno(buf, 2), 0);
    assert_eq!(lines.get_lineno(buf, 3), 1);
    assert_eq!(lines.get_lineno(buf, 7), 2);
    assert_eq!(lines.get_lineno(buf, 8), 3);
    assert_eq!(lines.get_lineno(buf, buf.len()), 3);
    assert_eq!(lines.get_offset(buf, 0), 0);
    assert_eq!(lines.get_offset(buf, 1), 3);
    assert_eq!(lines.get_offset(buf, 2), 7);
    assert_eq!(lines.get_offset(buf, 3), 8);
    assert_eq!(lines.get_offset(buf, 4), buf.len());
    assert_eq!(lines.get_line(buf, 0), Some(b"aa".to_vec()));
    assert_eq!(lines.get_line(buf, 1), Some(b"bbb".to_vec()));
    assert_eq!(lines.get_line(buf, 2), Some(b"".to_vec()));
    assert_eq!(lines.get_line(buf, 3), Some(b"cc".to_vec()));
    assert_eq!(lines.get_line(buf, 4), None);
}
