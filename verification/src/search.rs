//! Scanning a single file (a byte buffer) for lines that match a pattern.
//!
//! The scanner separates the one unverifiable step — asking the regex engine
//! for the next match — from everything that is done with the answer. The
//! engine's verdict is a named function of the pattern text and the bytes,
//! the collected span list is a spec-level recurrence over that name
//! (`found_spans_from`), and the whole result is computed from that list by
//! ordinary verified code, so the records are pinned exactly up to the
//! engine's answers.

use vstd::prelude::*;

use crate::lines::{
    line_content, line_exists, line_of, line_start, lemma_line_of_correct, lemma_line_start_bounds,
    lemma_line_start_mono, lemma_line_start_step, lemma_lineno_unique, Lines,
};
use crate::options::Opts;
use crate::pattern::{rx_find_of, rx_match_of, CompiledRegex};

verus! {

/// Represents a line that matched the pattern (maybe multiple times).
#[derive(Debug)]
pub struct Match {
    /// 1-based line number in the file (0 for the synthetic record of a
    /// matching binary file)
    pub lineno: usize,
    /// Line text, without the terminating newline
    pub line: Vec<u8>,
    /// Spans (start, end) of matching parts in the line
    pub spans: Vec<(usize, usize)>,
    /// Context lines before the matched line
    pub before: Vec<Vec<u8>>,
    /// Context lines after the matched line
    pub after: Vec<Vec<u8>>,
}

/// Represents all matches from a single file.
#[derive(Debug)]
pub struct FileResult {
    /// File name, relative to the initial argument
    pub fname: String,
    /// Is the file binary? If yes, `matches` has 0 or 1 elements
    pub is_binary: bool,
    /// Do we provide (and print) context lines?
    pub has_context: bool,
    /// Matches relevant for printing
    pub matches: Vec<Match>,
}

/// A path with a leading `./` stripped and a leading `//` collapsed to `/`.
pub open spec fn normalized(p: Seq<char>) -> Seq<char> {
    if p.len() >= 2 && p[0] == '.' && p[1] == '/' {
        p.subrange(2, p.len() as int)
    } else if p.len() >= 2 && p[0] == '/' && p[1] == '/' {
        p.subrange(1, p.len() as int)
    } else {
        p
    }
}

/// Return normalized path: get rid of leading ./ and make leading // into /.
pub fn normalized_path(path: &str) -> (r: String)
    ensures
        r@ == normalized(path@),
{
    let n = path.unicode_len();
    if n >= 2 && path.get_char(0) == '.' && path.get_char(1) == '/' {
        let tail = path.substring_char(2, n);
        tail.to_owned()
    } else if n >= 2 && path.get_char(0) == '/' && path.get_char(1) == '/' {
        let tail = path.substring_char(1, n);
        tail.to_owned()
    } else {
        path.to_owned()
    }
}

/// A buffer is binary when it is non-empty, does not begin with the UTF-8
/// byte-order mark, and has a zero byte among its first 512 bytes.
pub open spec fn is_binary_spec(buf: Seq<u8>) -> bool {
    &&& buf.len() > 0
    &&& !(buf.len() >= 3 && buf[0] == 0xefu8 && buf[1] == 0xbbu8 && buf[2] == 0xbfu8)
    &&& exists|i: int|
        0 <= i < (if buf.len() < 512 {
            buf.len() as int
        } else {
            512
        }) && buf[i] == 0u8
}

/// Check file for binary-ness.
///
/// Only null bytes near the front are recognized to constitute binary file
/// content; a UTF-8 byte-order mark marks the file as text.
pub fn is_binary(buf: &[u8], len: usize) -> (r: bool)
    requires
        len == buf@.len(),
    ensures
        r == is_binary_spec(buf@),
{
    if len == 0 {
        return false;
    }
    if len >= 3 && buf[0] == 0xefu8 && buf[1] == 0xbbu8 && buf[2] == 0xbfu8 {
        // UTF-8 BOM
        return false;
    }
    let n = if len < 512 {
        len
    } else {
        512
    };
    let mut i: usize = 0;
    while i < n
        invariant
            i <= n <= buf@.len(),
            buf@.len() > 0,
            !(buf@.len() >= 3 && buf@[0] == 0xefu8 && buf@[1] == 0xbbu8 && buf@[2] == 0xbfu8),
            n == if buf@.len() < 512 {
                buf@.len() as int
            } else {
                512
            },
            forall|q: int| 0 <= q < i ==> buf@[q] != 0u8,
        decreases n - i,
    {
        if buf[i] == 0u8 {
            return true;
        }
        i = i + 1;
    }
    false
}

/// Everything `create_match` promises about the context lines of a match on
/// 0-based line `k`: `before` holds the up to `b` lines just before `k`, and
/// `after` the up to `a` lines just after it, truncated at end of buffer.
pub open spec fn context_fields_ok(
    buf: Seq<u8>,
    b: nat,
    a: nat,
    k: nat,
    before: Seq<Vec<u8>>,
    after: Seq<Vec<u8>>,
) -> bool {
    &&& before.len() == (if k < b {
        k as int
    } else {
        b as int
    })
    &&& forall|j: int|
        0 <= j < before.len() ==> #[trigger] before[j]@ == line_content(
            buf,
            (k - before.len() + j) as nat,
        )
    &&& after.len() <= a
    &&& forall|j: int|
        0 <= j < after.len() ==> #[trigger] after[j]@ == line_content(buf, (k + 1 + j) as nat)
            && line_exists(buf, (k + 1 + j) as nat)
    &&& (after.len() == a || !line_exists(buf, (k + 1 + after.len()) as nat))
}

/// The context promise, applied to a match record.
pub open spec fn context_ok(buf: Seq<u8>, b: nat, a: nat, k: nat, m: Match) -> bool {
    context_fields_ok(buf, b, a, k, m.before@, m.after@)
}

/// What a fresh match record for 0-based line `k` looks like: 1-based line
/// number, the line's bytes, no spans yet, and exact context.
pub open spec fn fresh_match_ok(buf: Seq<u8>, b: nat, a: nat, k: nat, m: Match) -> bool {
    &&& m.lineno == k + 1
    &&& m.line@ == line_content(buf, k)
    &&& m.spans@ == Seq::<(usize, usize)>::empty()
    &&& context_ok(buf, b, a, k, m)
}

/// Every line index is at most its own start offset, so an existing line's
/// index is bounded by the buffer length.
pub proof fn lemma_line_index_le_start(buf: Seq<u8>, i: nat)
    ensures
        i <= line_start(buf, i) || line_start(buf, i) == buf.len(),
        line_exists(buf, i) ==> i < buf.len(),
    decreases i,
{
    lemma_line_start_bounds(buf, i);
    if i > 0 {
        lemma_line_index_le_start(buf, (i - 1) as nat);
        lemma_line_start_step(buf, (i - 1) as nat);
        lemma_line_start_bounds(buf, (i - 1) as nat);
    }
}

/// A result of the line index agreeing with the characterization of
/// `get_lineno` is the mathematical line of the offset.
proof fn lemma_lineno_is_line_of(buf: Seq<u8>, off: int, r: nat)
    requires
        0 <= off <= buf.len(),
        buf.len() == 0 ==> r == 0,
        buf.len() > 0 ==> line_exists(buf, r) && line_start(buf, r) <= off && (off < line_start(
            buf,
            r + 1,
        ) || line_start(buf, r + 1) == buf.len()),
    ensures
        r == line_of(buf, off),
{
    if buf.len() > 0 {
        lemma_line_of_correct(buf, off);
        lemma_lineno_unique(buf, off, r, line_of(buf, off));
    }
}

/// The spans the scan collects, as a function of the pattern text and the
/// buffer: ask the engine for a match at the cursor, drop it if it spans
/// several lines, take a zero-width match once per line (stopping at the end
/// of the buffer), and otherwise resume where the match ended. The branches
/// on ill-formed engine answers are never taken by the real engine; they
/// only make the recursion total.
pub open spec fn found_spans_from(pattern: Seq<char>, buf: Seq<u8>, c: int) -> Seq<
    (usize, usize, usize),
>
    decreases buf.len() - c,
{
    if !(0 <= c <= buf.len()) {
        Seq::empty()
    } else {
        match rx_find_of(pattern, buf, c) {
            None => Seq::empty(),
            Some(p) => {
                let s = c + p.0;
                let e = c + p.1;
                if !(0 <= p.0 <= p.1 && e <= buf.len()) {
                    Seq::empty()
                } else {
                    let ln = line_of(buf, s);
                    let ln_end = line_of(buf, e);
                    if ln != ln_end {
                        // the match spans several lines: drop it, resume at
                        // the start of the next line
                        let c2 = line_start(buf, ln + 1);
                        if c < c2 <= buf.len() {
                            found_spans_from(pattern, buf, c2)
                        } else {
                            Seq::empty()
                        }
                    } else if s == e {
                        if s == buf.len() {
                            Seq::empty()
                        } else {
                            let c2 = line_start(buf, ln + 1);
                            if c < c2 <= buf.len() {
                                seq![(s as usize, e as usize, ln as usize)] + found_spans_from(
                                    pattern,
                                    buf,
                                    c2,
                                )
                            } else {
                                Seq::empty()
                            }
                        }
                    } else {
                        seq![(s as usize, e as usize, ln as usize)] + found_spans_from(
                            pattern,
                            buf,
                            e,
                        )
                    }
                }
            },
        }
    }
}

/// One collected match: absolute start and end offsets in the buffer and the
/// 0-based line both offsets lie on.
pub open spec fn span_wf(buf: Seq<u8>, t: (usize, usize, usize)) -> bool {
    &&& line_exists(buf, t.2 as nat)
    &&& line_start(buf, t.2 as nat) <= t.0 as int
    &&& (t.0 as int) < line_start(buf, t.2 as nat + 1)
    &&& t.0 <= t.1
    &&& t.1 as int <= line_start(buf, t.2 as nat + 1)
}

/// The collected matches are well-formed and ordered as the scanner's cursor
/// produces them: each ends before the next begins, and a zero-width match
/// is the last one reported on its line.
pub open spec fn spans_wf(buf: Seq<u8>, sp: Seq<(usize, usize, usize)>) -> bool {
    &&& forall|i: int| 0 <= i < sp.len() ==> span_wf(buf, #[trigger] sp[i])
    &&& forall|i: int|
        1 <= i < sp.len() ==> (#[trigger] sp[i]).0 >= sp[i - 1].1 && (sp[i - 1].0 == sp[i - 1].1
            ==> sp[i].2 > sp[i - 1].2)
}

/// Span lines never decrease along the list.
pub proof fn lemma_span_lines_mono(buf: Seq<u8>, sp: Seq<(usize, usize, usize)>, i: int, j: int)
    requires
        spans_wf(buf, sp),
        0 <= i <= j < sp.len(),
    ensures
        sp[i].2 <= sp[j].2,
    decreases j - i,
{
    if i < j {
        lemma_span_lines_mono(buf, sp, i, j - 1);
        assert(sp[j].0 >= sp[j - 1].1);
        if sp[j].2 < sp[j - 1].2 {
            lemma_line_start_mono(buf, sp[j].2 as nat + 1, sp[j - 1].2 as nat);
            assert(line_start(buf, sp[j].2 as nat + 1) <= line_start(buf, sp[j - 1].2 as nat));
            assert(false);
        }
    }
}

/// Collect every match the regex engine reports, walking the buffer the way
/// the scanner does: a match that spans several lines is dropped, a
/// zero-width match is taken once per line, and any other match moves the
/// cursor to its end. The result is exactly `found_spans_from` of the
/// pattern text and the buffer.
#[verifier::rlimit(60)]
fn find_spans(rx: &CompiledRegex, buf: &[u8], lines: &mut Lines) -> (sp: Vec<
    (usize, usize, usize),
>)
    requires
        old(lines).wf(buf@),
    ensures
        final(lines).wf(buf@),
        spans_wf(buf@, sp@),
        sp@ == found_spans_from(rx@, buf@, 0),
{
    let blen = buf.len();
    let mut sp: Vec<(usize, usize, usize)> = Vec::new();
    let mut c: usize = 0;
    proof {
        assert(found_spans_from(rx@, buf@, 0) =~= sp@ + found_spans_from(rx@, buf@, 0));
    }
    loop
        invariant
            lines.wf(buf@),
            blen == buf@.len(),
            c <= blen,
            spans_wf(buf@, sp@),
            sp@.len() > 0 ==> sp@.last().1 <= c,
            sp@.len() > 0 && sp@.last().0 == sp@.last().1 ==> line_start(
                buf@,
                sp@.last().2 as nat + 1,
            ) <= c,
            found_spans_from(rx@, buf@, 0) == sp@ + found_spans_from(rx@, buf@, c as int),
        ensures
            sp@ == found_spans_from(rx@, buf@, 0),
        decreases blen - c + 1,
    {
        let ghost c0 = c as int;
        let found = rx.find_from(buf, c);
        match found {
            None => {
                proof {
                    assert(found_spans_from(rx@, buf@, c0) =~= Seq::<(usize, usize, usize)>::empty());
                    assert(sp@ =~= sp@ + found_spans_from(rx@, buf@, c0));
                }
                return sp;
            },
            Some((rs, re)) => {
                let s = c + rs;
                let e = c + re;
                let ln = lines.get_lineno(buf, s);
                let ln_end = lines.get_lineno(buf, e);
                proof {
                    lemma_lineno_is_line_of(buf@, s as int, ln as nat);
                    lemma_lineno_is_line_of(buf@, e as int, ln_end as nat);
                }
                if ln != ln_end {
                    // match spans multiple lines: ignore it and start at the
                    // beginning of the next line
                    proof {
                        assert(blen > 0);
                        lemma_line_index_le_start(buf@, ln as nat);
                        // the start's line is not the last one: the end
                        // offset lies on a different line
                        if line_start(buf@, ln as nat + 1) == buf@.len() {
                            if ln_end < ln {
                                lemma_line_start_mono(buf@, ln_end as nat + 1, ln as nat);
                            } else {
                                lemma_line_start_mono(buf@, ln as nat + 1, ln_end as nat);
                            }
                            assert(false);
                        }
                    }
                    let next = lines.get_offset(buf, ln + 1);
                    assert(next > s);
                    proof {
                        assert(found_spans_from(rx@, buf@, c0) == found_spans_from(
                            rx@,
                            buf@,
                            next as int,
                        ));
                    }
                    c = next;
                } else if s == e {
                    // are we at the end of the text?
                    if s == blen {
                        proof {
                            assert(found_spans_from(rx@, buf@, c0) =~= Seq::<
                                (usize, usize, usize),
                            >::empty());
                            assert(sp@ =~= sp@ + found_spans_from(rx@, buf@, c0));
                        }
                        return sp;
                    }
                    // zero-size match: record this line and go to the next
                    proof {
                        assert(blen > 0);
                        lemma_line_index_le_start(buf@, ln as nat);
                        lemma_line_start_bounds(buf@, ln as nat + 1);
                        assert((s as int) < line_start(buf@, ln as nat + 1));
                        assert(span_wf(buf@, (s, e, ln)));
                        if sp@.len() > 0 && sp@.last().0 == sp@.last().1 {
                            if ln <= sp@.last().2 {
                                lemma_line_start_mono(
                                    buf@,
                                    ln as nat + 1,
                                    sp@.last().2 as nat + 1,
                                );
                                assert(false);
                            }
                        }
                    }
                    let next = lines.get_offset(buf, ln + 1);
                    let ghost old_sp = sp@;
                    sp.push((s, e, ln));
                    proof {
                        assert(forall|i: int| 0 <= i < old_sp.len() ==> sp@[i] == old_sp[i]);
                        assert(sp@.last() == (s, e, ln));
                        assert(found_spans_from(rx@, buf@, c0) == seq![(s, e, ln)]
                            + found_spans_from(rx@, buf@, next as int));
                        assert(old_sp + found_spans_from(rx@, buf@, c0) =~= sp@ + found_spans_from(
                            rx@,
                            buf@,
                            next as int,
                        ));
                    }
                    c = next;
                } else {
                    // start next match where this one ended
                    proof {
                        assert(blen > 0);
                        lemma_line_index_le_start(buf@, ln as nat);
                        assert((s as int) < line_start(buf@, ln as nat + 1));
                        assert((e as int) <= line_start(buf@, ln as nat + 1));
                        assert(span_wf(buf@, (s, e, ln)));
                        if sp@.len() > 0 && sp@.last().0 == sp@.last().1 {
                            if ln <= sp@.last().2 {
                                lemma_line_start_mono(
                                    buf@,
                                    ln as nat + 1,
                                    sp@.last().2 as nat + 1,
                                );
                                assert(false);
                            }
                        }
                    }
                    let ghost old_sp = sp@;
                    sp.push((s, e, ln));
                    proof {
                        assert(forall|i: int| 0 <= i < old_sp.len() ==> sp@[i] == old_sp[i]);
                        assert(sp@.last() == (s, e, ln));
                        assert(found_spans_from(rx@, buf@, c0) == seq![(s, e, ln)]
                            + found_spans_from(rx@, buf@, e as int));
                        assert(old_sp + found_spans_from(rx@, buf@, c0) =~= sp@ + found_spans_from(
                            rx@,
                            buf@,
                            e as int,
                        ));
                    }
                    c = e;
                }
                assert(c > c0);
            },
        }
    }
}

/// Whether some collected span lies on 0-based line `k`.
pub open spec fn line_hit(sp: Seq<(usize, usize, usize)>, k: int) -> bool {
    exists|i: int| 0 <= i < sp.len() && (#[trigger] sp[i]).2 == k
}

/// Whether 0-based line `k` gets a match record: in normal mode the lines
/// some span lies on, in inverted mode the existing lines no span lies on.
pub open spec fn emitted_line(
    buf: Seq<u8>,
    sp: Seq<(usize, usize, usize)>,
    invert: bool,
    k: int,
) -> bool {
    if invert {
        0 <= k && line_exists(buf, k as nat) && !line_hit(sp, k)
    } else {
        line_hit(sp, k)
    }
}

/// How many match records may be produced: `max_count` caps them, and a
/// files-only search stops after the first.
pub open spec fn scan_cap(max_count: usize, only_files: Option<bool>) -> int {
    if only_files is Some {
        if max_count == 0 {
            0
        } else {
            1
        }
    } else {
        max_count as int
    }
}

pub open spec fn linenos_ascending(ms: Seq<Match>) -> bool {
    forall|i: int, j: int|
        0 <= i < j < ms.len() ==> (#[trigger] ms[i]).lineno < (#[trigger] ms[j]).lineno
}

pub open spec fn line_in(ms: Seq<Match>, k: int) -> bool {
    exists|i: int| 0 <= i < ms.len() && (#[trigger] ms[i]).lineno == k + 1
}

/// The match list holds exactly the first `cap` emitted lines, in ascending
/// order: every record's line is emitted, and an emitted line is missing
/// only when the list is full and the line is past its end.
pub open spec fn matches_complete(
    buf: Seq<u8>,
    sp: Seq<(usize, usize, usize)>,
    invert: bool,
    cap: int,
    ms: Seq<Match>,
) -> bool {
    &&& ms.len() <= cap
    &&& linenos_ascending(ms)
    &&& forall|i: int|
        0 <= i < ms.len() ==> (#[trigger] ms[i]).lineno >= 1 && emitted_line(
            buf,
            sp,
            invert,
            ms[i].lineno - 1,
        )
    &&& forall|k: int|
        #[trigger] emitted_line(buf, sp, invert, k) && 0 <= k ==> line_in(ms, k) || (ms.len() == cap
            && (ms.len() == 0 || k + 1 > ms[ms.len() - 1].lineno))
}

/// A collected span, relative to the start of its line, with the end clamped
/// to the line's visible content (a match may swallow the final newline of
/// the buffer).
pub open spec fn rel_span(buf: Seq<u8>, t: (usize, usize, usize)) -> (usize, usize) {
    let ls = line_start(buf, t.2 as nat);
    let cl = line_content(buf, t.2 as nat).len() as int;
    let rs = t.0 - ls;
    let re = if t.1 - ls <= cl {
        t.1 - ls
    } else {
        cl
    };
    (rs as usize, re as usize)
}

/// The relative spans of all collected spans lying on line `k`, in order.
pub open spec fn line_spans(buf: Seq<u8>, sp: Seq<(usize, usize, usize)>, k: int) -> Seq<
    (usize, usize),
>
    decreases sp.len(),
{
    if sp.len() == 0 {
        Seq::empty()
    } else {
        let rest = line_spans(buf, sp.drop_last(), k);
        if sp.last().2 == k {
            rest.push(rel_span(buf, sp.last()))
        } else {
            rest
        }
    }
}

/// Appending spans that lie on other lines leaves a line's span list
/// unchanged.
pub proof fn lemma_line_spans_stable(
    buf: Seq<u8>,
    sp: Seq<(usize, usize, usize)>,
    i: int,
    j: int,
    k: int,
)
    requires
        0 <= i <= j <= sp.len(),
        forall|q: int| i <= q < j ==> (#[trigger] sp[q]).2 != k,
    ensures
        line_spans(buf, sp.take(j), k) == line_spans(buf, sp.take(i), k),
    decreases j - i,
{
    if i < j {
        lemma_line_spans_stable(buf, sp, i, j - 1, k);
        assert(sp.take(j).drop_last() =~= sp.take(j - 1));
        assert(sp.take(j).last() == sp[j - 1]);
    }
}

/// Whether some span with index below `i` lies on line `k`.
pub open spec fn line_hit_upto(sp: Seq<(usize, usize, usize)>, i: int, k: int) -> bool {
    exists|q: int| 0 <= q < i && (#[trigger] sp[q]).2 == k
}

/// What scanning promises of each produced match record beyond its place in
/// the list: the right line text, exact context, and exactly the relative
/// spans of its line (none in inverted or files-only mode).
pub open spec fn scan_match_ok(
    buf: Seq<u8>,
    sp: Seq<(usize, usize, usize)>,
    opts: Opts,
    m: Match,
) -> bool {
    &&& m.lineno >= 1
    &&& line_exists(buf, (m.lineno - 1) as nat)
    &&& m.line@ == line_content(buf, (m.lineno - 1) as nat)
    &&& context_ok(buf, opts.before as nat, opts.after as nat, (m.lineno - 1) as nat, m)
    &&& m.spans@ == (if opts.invert || opts.only_files is Some {
        Seq::<(usize, usize)>::empty()
    } else {
        line_spans(buf, sp, m.lineno - 1)
    })
}


/// Produce the match records for the inverted scan: one record for every
/// existing line no span lies on, up to the configured caps.
fn scan_invert(buf: &[u8], sp: &Vec<(usize, usize, usize)>, opts: &Opts, lines: &mut Lines) -> (ms:
    Vec<Match>)
    requires
        old(lines).wf(buf@),
        spans_wf(buf@, sp@),
        opts.invert,
    ensures
        final(lines).wf(buf@),
        matches_complete(buf@, sp@, true, scan_cap(opts.max_count, opts.only_files), ms@),
        forall|q: int| 0 <= q < ms@.len() ==> scan_match_ok(buf@, sp@, *opts, #[trigger] ms@[q]),
{
    let blen = buf.len();
    let mut ms: Vec<Match> = Vec::new();
    let mut i: usize = 0;
    let mut last: usize = 0;
    while i < sp.len()
        invariant
            lines.wf(buf@),
            spans_wf(buf@, sp@),
            blen == buf@.len(),
            opts.invert,
            i <= sp@.len(),
            i > 0 ==> last == sp@[i - 1 as int].2,
            forall|q: int|
                0 <= q < ms@.len() ==> scan_match_ok(buf@, sp@, *opts, #[trigger] ms@[q]),
            forall|q: int|
                0 <= q < ms@.len() ==> emitted_line(buf@, sp@, true, (#[trigger] ms@[q]).lineno - 1)
                    && ms@[q].lineno - 1 < (if i == 0 {
                    0int
                } else {
                    last as int + 1
                }),
            linenos_ascending(ms@),
            forall|k: int|
                0 <= k < (if i == 0 {
                    0int
                } else {
                    last as int + 1
                }) && #[trigger] emitted_line(buf@, sp@, true, k) ==> line_in(ms@, k),
            ms@.len() <= scan_cap(opts.max_count, opts.only_files),
            opts.only_files is Some ==> ms@.len() == 0,
            ms@.len() <= opts.max_count,
        decreases sp@.len() - i,
    {
        let t = sp[i];
        let ln = t.2;
        proof {
            assert(span_wf(buf@, sp@[i as int]));
            lemma_line_index_le_start(buf@, ln as nat);
        }
        if i == 0 || ln != last {
            proof {
                if i > 0 {
                    lemma_span_lines_mono(buf@, sp@, i - 1, i as int);
                    assert(span_wf(buf@, sp@[i - 1]));
                    lemma_line_index_le_start(buf@, last as nat);
                }
            }
            let from: usize = if i == 0 {
                0
            } else {
                last + 1
            };
            let mut k = from;
            while k < ln
                invariant
                    lines.wf(buf@),
                    spans_wf(buf@, sp@),
                    blen == buf@.len(),
                    opts.invert,
                    i < sp@.len(),
                    ln == sp@[i as int].2,
                    from <= k <= ln,
                    from as int == (if i == 0 {
                        0int
                    } else {
                        sp@[i - 1 as int].2 + 1
                    }),
                    forall|q: int|
                        0 <= q < ms@.len() ==> scan_match_ok(buf@, sp@, *opts, #[trigger] ms@[q]),
                    forall|q: int|
                        0 <= q < ms@.len() ==> emitted_line(
                            buf@,
                            sp@,
                            true,
                            (#[trigger] ms@[q]).lineno - 1,
                        ) && ms@[q].lineno - 1 < k,
                    linenos_ascending(ms@),
                    forall|k2: int|
                        0 <= k2 < k && #[trigger] emitted_line(buf@, sp@, true, k2) ==> line_in(
                            ms@,
                            k2,
                        ),
                    ms@.len() <= scan_cap(opts.max_count, opts.only_files),
                    opts.only_files is Some ==> ms@.len() == 0,
                    ms@.len() <= opts.max_count,
                decreases ln - k,
            {
                if ms.len() >= opts.max_count {
                    proof {
                        assert(ms@.len() == opts.max_count);
                        assert(ms@.len() == scan_cap(opts.max_count, opts.only_files));
                        assert forall|k2: int|
                            #[trigger] emitted_line(buf@, sp@, true, k2) && 0 <= k2 implies line_in(
                            ms@,
                            k2,
                        ) || (ms@.len() == scan_cap(opts.max_count, opts.only_files) && (ms@.len()
                            == 0 || k2 + 1 > ms@[ms@.len() - 1].lineno)) by {
                            if k2 < k && !line_in(ms@, k2) {
                                assert(line_in(ms@, k2));
                            }
                        }
                    }
                    return ms;
                }
                proof {
                    lemma_line_start_mono(buf@, k as nat, ln as nat);
                }
                let m = create_match(lines, buf, opts, k);
                proof {
                    // no span lies on line k: earlier spans sit on lines
                    // before the gap, later ones at or past the current span
                    assert forall|q: int| 0 <= q < sp@.len() implies (#[trigger] sp@[q]).2
                        != k by {
                        if q < i {
                            lemma_span_lines_mono(buf@, sp@, q, i - 1);
                        } else {
                            lemma_span_lines_mono(buf@, sp@, i as int, q);
                        }
                    }
                    assert(!line_hit(sp@, k as int));
                }
                let ghost old_ms = ms@;
                ms.push(m);
                proof {
                    assert(forall|q: int| 0 <= q < old_ms.len() ==> ms@[q] == old_ms[q]);
                    assert(ms@[ms@.len() - 1] == m);
                }
                if opts.only_files.is_some() {
                    proof {
                        assert(opts.max_count >= 1);
                        assert(ms@.len() == 1 == scan_cap(opts.max_count, opts.only_files));
                        assert forall|k2: int|
                            #[trigger] emitted_line(buf@, sp@, true, k2) && 0 <= k2 implies line_in(
                            ms@,
                            k2,
                        ) || (ms@.len() == scan_cap(opts.max_count, opts.only_files) && (ms@.len()
                            == 0 || k2 + 1 > ms@[ms@.len() - 1].lineno)) by {
                            if k2 < k {
                                assert(line_in(old_ms, k2));
                                assert(false);
                            } else if k2 == k {
                                assert(ms@[0].lineno == k + 1);
                            }
                        }
                    }
                    return ms;
                }
                k = k + 1;
            }
            last = ln;
        }
        proof {
            if i > 0 && ln == last {
                lemma_span_lines_mono(buf@, sp@, i - 1, i as int);
            }
        }
        i = i + 1;
    }
    // record the lines after the last span
    if blen > 0 {
        let last_line = lines.get_lineno(buf, blen);
        proof {
            if sp@.len() > 0 {
                assert(span_wf(buf@, sp@[sp@.len() - 1]));
                lemma_line_index_le_start(buf@, last as nat);
                // a line with a span on it is at most the last line
                if last > last_line {
                    lemma_line_start_mono(buf@, last_line as nat + 1, last as nat);
                    assert(false);
                }
            }
        }
        let from: usize = if sp.len() == 0 {
            0
        } else {
            last + 1
        };
        let mut k = from;
        while k <= last_line
            invariant
                lines.wf(buf@),
                spans_wf(buf@, sp@),
                blen == buf@.len(),
                blen > 0,
                opts.invert,
                line_exists(buf@, last_line as nat),
                line_start(buf@, last_line as nat) <= blen,
                blen as int <= line_start(buf@, last_line as nat + 1),
                from <= k,
                k <= last_line + 1,
                sp@.len() > 0 ==> from as int == sp@[sp@.len() - 1].2 + 1,
                sp@.len() == 0 ==> from == 0,
                forall|q: int|
                    0 <= q < ms@.len() ==> scan_match_ok(buf@, sp@, *opts, #[trigger] ms@[q]),
                forall|q: int|
                    0 <= q < ms@.len() ==> emitted_line(
                        buf@,
                        sp@,
                        true,
                        (#[trigger] ms@[q]).lineno - 1,
                    ) && ms@[q].lineno - 1 < k,
                linenos_ascending(ms@),
                forall|k2: int|
                    0 <= k2 < k && #[trigger] emitted_line(buf@, sp@, true, k2) ==> line_in(
                        ms@,
                        k2,
                    ),
                ms@.len() <= scan_cap(opts.max_count, opts.only_files),
                opts.only_files is Some ==> ms@.len() == 0,
                ms@.len() <= opts.max_count,
            decreases last_line + 1 - k,
        {
            if ms.len() >= opts.max_count {
                proof {
                    assert(ms@.len() == opts.max_count);
                    assert forall|k2: int|
                        #[trigger] emitted_line(buf@, sp@, true, k2) && 0 <= k2 implies line_in(
                        ms@,
                        k2,
                    ) || (ms@.len() == scan_cap(opts.max_count, opts.only_files) && (ms@.len() == 0
                        || k2 + 1 > ms@[ms@.len() - 1].lineno)) by {
                        if k2 < k && !line_in(ms@, k2) {
                            assert(line_in(ms@, k2));
                        }
                    }
                }
                return ms;
            }
            proof {
                lemma_line_start_mono(buf@, k as nat, last_line as nat);
            }
            let m = create_match(lines, buf, opts, k);
            proof {
                assert forall|q: int| 0 <= q < sp@.len() implies (#[trigger] sp@[q]).2 != k by {
                    lemma_span_lines_mono(buf@, sp@, q, sp@.len() - 1);
                }
                assert(!line_hit(sp@, k as int));
            }
            let ghost old_ms = ms@;
            ms.push(m);
            proof {
                assert(forall|q: int| 0 <= q < old_ms.len() ==> ms@[q] == old_ms[q]);
                assert(ms@[ms@.len() - 1] == m);
            }
            if opts.only_files.is_some() {
                proof {
                    assert(opts.max_count >= 1);
                    assert forall|k2: int|
                        #[trigger] emitted_line(buf@, sp@, true, k2) && 0 <= k2 implies line_in(
                        ms@,
                        k2,
                    ) || (ms@.len() == scan_cap(opts.max_count, opts.only_files) && (ms@.len() == 0
                        || k2 + 1 > ms@[ms@.len() - 1].lineno)) by {
                        if k2 < k {
                            assert(line_in(old_ms, k2));
                            assert(false);
                        } else if k2 == k {
                            assert(ms@[0].lineno == k + 1);
                        }
                    }
                }
                return ms;
            }
            k = k + 1;
        }
        proof {
            // every existing line has index at most the last line
            assert forall|k2: int|
                #[trigger] emitted_line(buf@, sp@, true, k2) && 0 <= k2 implies k2 < k by {
                if k2 >= k {
                    crate::lines::lemma_line_start_saturates(
                        buf@,
                        last_line as nat + 1,
                        k2 as nat,
                    );
                }
            }
        }
    } else {
        proof {
            assert forall|k2: int|
                #[trigger] emitted_line(buf@, sp@, true, k2) && 0 <= k2 implies false by {
                crate::lines::lemma_line_start_bounds(buf@, k2 as nat);
            }
        }
    }
    ms
}


/// When the record list is full and every line hit so far is recorded, the
/// truncation clause of completeness holds: a missing hit line lies past
/// the end of the list.
proof fn lemma_truncated_complete(
    buf: Seq<u8>,
    sp: Seq<(usize, usize, usize)>,
    i: int,
    ln: int,
    ms: Seq<Match>,
    cap: int,
)
    requires
        spans_wf(buf, sp),
        0 <= i < sp.len(),
        sp[i].2 == ln,
        ms.len() == cap,
        forall|k: int| #[trigger] line_hit_upto(sp, i, k) ==> line_in(ms, k),
        ms.len() > 0 ==> ms[ms.len() - 1].lineno <= ln,
    ensures
        forall|k: int|
            #[trigger] emitted_line(buf, sp, false, k) && 0 <= k ==> line_in(ms, k) || (ms.len()
                == cap && (ms.len() == 0 || k + 1 > ms[ms.len() - 1].lineno)),
{
    assert forall|k: int| #[trigger] emitted_line(buf, sp, false, k) && 0 <= k implies line_in(
        ms,
        k,
    ) || (ms.len() == cap && (ms.len() == 0 || k + 1 > ms[ms.len() - 1].lineno)) by {
        if !line_in(ms, k) && ms.len() > 0 {
            let q = choose|q: int| 0 <= q < sp.len() && (#[trigger] sp[q]).2 == k;
            if q < i {
                assert(line_hit_upto(sp, i, k));
            } else {
                lemma_span_lines_mono(buf, sp, i, q);
            }
        }
    }
}

/// After recording the very first hit line in files-only mode, completeness
/// holds with a cap of one: every other hit line lies past it.
proof fn lemma_first_match_complete(
    buf: Seq<u8>,
    sp: Seq<(usize, usize, usize)>,
    ln: int,
    ms: Seq<Match>,
)
    requires
        spans_wf(buf, sp),
        sp.len() > 0,
        sp[0].2 == ln,
        ms.len() == 1,
        ms[0].lineno == ln + 1,
    ensures
        forall|k: int|
            #[trigger] emitted_line(buf, sp, false, k) && 0 <= k ==> line_in(ms, k) || k + 1 > ms[
                ms.len() - 1
            ].lineno,
{
    assert forall|k: int| #[trigger] emitted_line(buf, sp, false, k) && 0 <= k implies line_in(
        ms,
        k,
    ) || k + 1 > ms[ms.len() - 1].lineno by {
        if k == ln {
            assert(ms[0].lineno == k + 1);
        } else {
            let q = choose|q: int| 0 <= q < sp.len() && (#[trigger] sp[q]).2 == k;
            lemma_span_lines_mono(buf, sp, 0, q);
        }
    }
}

/// One scanning step keeps the running record list complete: the lines hit
/// by one more span are the old ones plus the line being accumulated.
proof fn lemma_step_complete(
    buf: Seq<u8>,
    sp: Seq<(usize, usize, usize)>,
    i: int,
    ms0: Seq<Match>,
    ms: Seq<Match>,
    cur_prev: Option<Match>,
    cur: Option<Match>,
    flushed: bool,
)
    requires
        0 < i <= sp.len(),
        forall|k: int|
            #[trigger] line_hit_upto(sp, i - 1, k) ==> line_in(ms0, k) || (cur_prev matches Some(m)
                && m.lineno == k + 1),
        cur matches Some(m) && m.lineno == sp[i - 1].2 + 1,
        !flushed ==> ms == ms0 && (cur_prev matches Some(mp) ==> (cur matches Some(mc)
            && mc.lineno == mp.lineno)),
        flushed ==> ms.len() >= ms0.len() && (forall|q: int|
            0 <= q < ms0.len() ==> #[trigger] ms[q] == ms0[q]) && (
        cur_prev matches Some(mp) ==> ms.len() == ms0.len() + 1 && ms[ms.len() - 1].lineno
            == mp.lineno),
    ensures
        forall|k: int|
            #[trigger] line_hit_upto(sp, i, k) ==> line_in(ms, k) || (cur matches Some(mg)
                && mg.lineno == k + 1),
{
    let mc = cur->0;
    assert forall|k: int| #[trigger] line_hit_upto(sp, i, k) implies line_in(ms, k) || (
    cur matches Some(mg) && mg.lineno == k + 1) by {
        let q = choose|q: int| 0 <= q < i && (#[trigger] sp[q]).2 == k;
        assert(0 <= q < i && sp[q].2 == k);
        if q == i - 1 {
            assert(sp[i - 1].2 == k);
            assert(mc.lineno == k + 1);
        } else {
            assert(line_hit_upto(sp, i - 1, k));
            if line_in(ms0, k) {
                let w = choose|w: int| 0 <= w < ms0.len() && (#[trigger] ms0[w]).lineno == k + 1;
                assert(ms[w].lineno == k + 1);
                assert(line_in(ms, k));
            } else {
                assert(cur_prev matches Some(mp) && mp.lineno == k + 1);
                if flushed {
                    assert(ms[ms.len() - 1].lineno == k + 1);
                    assert(line_in(ms, k));
                } else {
                    assert(mc.lineno == k + 1);
                }
            }
        }
        assert(line_in(ms, k) || mc.lineno == k + 1);
        assert(cur matches Some(mg) ==> mg == mc);
    }
}

/// Produce the match records for the normal scan: one record per line some
/// span lies on, carrying the relative spans of that line, up to the
/// configured caps.
#[verifier::rlimit(100)]
fn scan_normal(buf: &[u8], sp: &Vec<(usize, usize, usize)>, opts: &Opts, lines: &mut Lines) -> (ms:
    Vec<Match>)
    requires
        old(lines).wf(buf@),
        spans_wf(buf@, sp@),
        !opts.invert,
    ensures
        final(lines).wf(buf@),
        matches_complete(buf@, sp@, false, scan_cap(opts.max_count, opts.only_files), ms@),
        forall|q: int| 0 <= q < ms@.len() ==> scan_match_ok(buf@, sp@, *opts, #[trigger] ms@[q]),
        count_total(ms@) <= sp@.len(),
{
    let blen = buf.len();
    let mut ms: Vec<Match> = Vec::new();
    let mut cur: Option<Match> = None;
    let mut i: usize = 0;
    while i < sp.len()
        invariant
            lines.wf(buf@),
            spans_wf(buf@, sp@),
            blen == buf@.len(),
            !opts.invert,
            i <= sp@.len(),
            (cur is Some) <==> (i > 0),
            i == 0 ==> ms@.len() == 0,
            i > 0 ==> opts.only_files is None,
            cur matches Some(m) ==> {
                &&& m.lineno == sp@[i - 1].2 + 1
                &&& line_exists(buf@, (m.lineno - 1) as nat)
                &&& m.line@ == line_content(buf@, (m.lineno - 1) as nat)
                &&& context_ok(buf@, opts.before as nat, opts.after as nat, (m.lineno - 1) as nat, m)
                &&& m.spans@ == line_spans(buf@, sp@.take(i as int), m.lineno - 1)
            },
            forall|q: int|
                0 <= q < ms@.len() ==> scan_match_ok(buf@, sp@, *opts, #[trigger] ms@[q]),
            forall|q: int|
                0 <= q < ms@.len() ==> line_hit(sp@, (#[trigger] ms@[q]).lineno - 1)
                    && ms@[q].lineno >= 1,
            linenos_ascending(ms@),
            cur matches Some(m) ==> forall|q: int|
                0 <= q < ms@.len() ==> (#[trigger] ms@[q]).lineno < m.lineno,
            forall|k: int|
                #[trigger] line_hit_upto(sp@, i as int, k) ==> line_in(ms@, k) || (cur matches Some(
                    m,
                ) && m.lineno == k + 1),
            ms@.len() + (if cur is Some {
                1int
            } else {
                0int
            }) <= opts.max_count,
            count_total(ms@) + (match cur {
                Some(m) => m.spans@.len() as int,
                None => 0int,
            }) == i,
        decreases sp@.len() - i,
    {
        let ghost i0 = i as int;
        let ghost ms0 = ms@;
        let ghost cur_prev = cur;
        let t = sp[i];
        let s = t.0;
        let e = t.1;
        let ln = t.2;
        proof {
            assert(span_wf(buf@, sp@[i as int]));
            lemma_line_index_le_start(buf@, ln as nat);
            if i > 0 {
                lemma_span_lines_mono(buf@, sp@, i - 1, i as int);
            }
        }
        let is_new = match &cur {
            None => true,
            Some(m) => m.lineno != ln + 1,
        };
        if is_new {
            let ghost old_ms_flush = ms@;
            match cur {
                Some(m) => {
                    proof {
                        // the flushed line is finished: every remaining span
                        // lies on a later line
                        let k0 = m.lineno - 1;
                        assert(sp@[i - 1].2 == k0);
                        assert(ln > k0);
                        assert forall|q: int| i <= q < sp@.len() implies (#[trigger] sp@[q]).2
                            != k0 by {
                            lemma_span_lines_mono(buf@, sp@, i as int, q);
                        }
                        lemma_line_spans_stable(buf@, sp@, i as int, sp@.len() as int, k0);
                        assert(sp@.take(sp@.len() as int) =~= sp@);
                        assert(m.spans@ == line_spans(buf@, sp@, k0));
                    }
                    proof {
                        assert(scan_match_ok(buf@, sp@, *opts, m));
                    }
                    ms.push(m);
                    proof {
                        assert(forall|q: int|
                            0 <= q < old_ms_flush.len() ==> ms@[q] == old_ms_flush[q]);
                        assert(ms@[ms@.len() - 1] == m);
                        assert(ms@[ms@.len() - 1].lineno == sp@[i - 1].2 + 1);
                        assert(ms@.drop_last() =~= old_ms_flush);
                        assert(count_total(ms@) == count_total(old_ms_flush)
                            + m.spans@.len());
                    }
                },
                None => {},
            }
            proof {
                assert(ms@.len() > 0 ==> ms@[ms@.len() - 1].lineno <= ln as int);
            }
            if ms.len() >= opts.max_count {
                proof {
                    assert(ms@.len() == opts.max_count);
                    assert(ms@.len() == scan_cap(opts.max_count, opts.only_files));
                    assert forall|k: int| #[trigger] line_hit_upto(sp@, i as int, k) implies
                        line_in(ms@, k) by {
                        if line_in(ms0, k) {
                            let w = choose|w: int|
                                0 <= w < ms0.len() && (#[trigger] ms0[w]).lineno == k + 1;
                            assert(ms@[w].lineno == k + 1);
                        } else {
                            assert(cur_prev matches Some(mp) && mp.lineno == k + 1);
                            assert(ms@[ms@.len() - 1].lineno == k + 1);
                        }
                    }
                    lemma_truncated_complete(
                        buf@,
                        sp@,
                        i as int,
                        ln as int,
                        ms@,
                        ms@.len() as int,
                    );
                }
                return ms;
            }
            let m = create_match(lines, buf, opts, ln);
            if opts.only_files.is_some() {
                let ghost old_ms = ms@;
                ms.push(m);
                proof {
                    assert(i == 0);
                    assert(old_ms.len() == 0);
                    assert(ms@[0] == m);
                    assert(ms@.len() == 1);
                    assert(ms@.drop_last() =~= old_ms);
                    assert(count_total(ms@) == 0);
                    assert(opts.max_count >= 1);
                    assert(line_hit(sp@, ln as int));
                    lemma_first_match_complete(buf@, sp@, ln as int, ms@);
                }
                return ms;
            }
            proof {
                // a new line's span list is empty so far
                assert forall|q: int| 0 <= q < i implies (#[trigger] sp@[q]).2 != ln as int by {
                    lemma_span_lines_mono(buf@, sp@, q, i - 1);
                }
                lemma_line_spans_stable(buf@, sp@, 0, i as int, ln as int);
                assert(sp@.take(0) =~= Seq::<(usize, usize, usize)>::empty());
                assert(line_spans(buf@, sp@.take(i as int), ln as int) =~= Seq::<
                    (usize, usize),
                >::empty());
            }
            cur = Some(m);
        }
        // append this span, relative to the line start, to the line's record
        let lo = lines.get_offset(buf, ln);
        proof {
            assert(lo as int == line_start(buf@, ln as nat));
            assert(s >= lo);
            assert(e >= s);
        }
        let rs = s - lo;
        let re0 = e - lo;
        let ghost old_cur_m = cur->0;
        match &mut cur {
            Some(m) => {
                let ll = m.line.len();
                let re = if re0 <= ll {
                    re0
                } else {
                    ll
                };
                let ghost old_spans = m.spans@;
                m.spans.push((rs, re));
                proof {
                    assert(sp@.take(i as int + 1).drop_last() =~= sp@.take(i as int));
                    assert(sp@.take(i as int + 1).last() == sp@[i as int]);
                    assert(rel_span(buf@, sp@[i as int]) == (rs, re));
                    assert(m.spans@ == line_spans(buf@, sp@.take(i as int + 1), m.lineno - 1));
                    assert(m.lineno == sp@[i as int].2 + 1);
                    assert(line_exists(buf@, (m.lineno - 1) as nat));
                    assert(m.line@ == line_content(buf@, (m.lineno - 1) as nat));
                    assert(m.before@ == old_cur_m.before@ && m.after@ == old_cur_m.after@
                        && m.lineno == old_cur_m.lineno);
                    assert(context_fields_ok(
                        buf@,
                        opts.before as nat,
                        opts.after as nat,
                        (m.lineno - 1) as nat,
                        m.before@,
                        m.after@,
                    ));
                }
            },
            None => {
                proof {
                    assert(false);
                }
            },
        }
        i = i + 1;
        proof {
            lemma_step_complete(
                buf@,
                sp@,
                i as int,
                ms0,
                ms@,
                cur_prev,
                cur,
                is_new && cur_prev is Some,
            );
        }
    }
    // flush the last accumulated record
    let ghost pre = ms@;
    let ghost cur0 = cur;
    match cur {
        Some(m) => {
            proof {
                assert(sp@.take(sp@.len() as int) =~= sp@);
                assert(scan_match_ok(buf@, sp@, *opts, m));
            }
            ms.push(m);
            proof {
                assert(forall|q: int| 0 <= q < pre.len() ==> ms@[q] == pre[q]);
                assert(ms@[ms@.len() - 1] == m);
                assert(ms@.drop_last() =~= pre);
                assert(count_total(ms@) <= sp@.len());
            }
        },
        None => {},
    }
    proof {
        assert forall|k: int|
            #[trigger] emitted_line(buf@, sp@, false, k) && 0 <= k implies line_in(ms@, k) by {
            assert(line_hit_upto(sp@, sp@.len() as int, k));
            if line_in(pre, k) {
                let q = choose|q: int| 0 <= q < pre.len() && (#[trigger] pre[q]).lineno == k + 1;
                assert(ms@[q].lineno == k + 1);
            } else {
                assert(cur0 matches Some(m) && m.lineno == k + 1);
                assert(ms@[ms@.len() - 1].lineno == k + 1);
            }
        }
    }
    ms
}

/// Create a line-match for a given line with context lines determined by
/// options.
#[verifier::rlimit(30)]
fn create_match(lines: &mut Lines, buf: &[u8], opts: &Opts, lineno: usize) -> (m: Match)
    requires
        old(lines).wf(buf@),
        line_exists(buf@, lineno as nat),
    ensures
        final(lines).wf(buf@),
        fresh_match_ok(buf@, opts.before as nat, opts.after as nat, lineno as nat, m),
{
    let blen = buf.len();
    proof {
        lemma_line_index_le_start(buf@, lineno as nat);
    }
    assert(lineno < blen);
    let line = lines.get_line(buf, lineno).unwrap();
    let mut m = Match {
        lineno: lineno + 1,
        line,
        spans: Vec::new(),
        before: Vec::new(),
        after: Vec::new(),
    };
    let from = if lineno > opts.before {
        lineno - opts.before
    } else {
        0
    };
    let mut lno = from;
    while lno < lineno
        invariant
            lines.wf(buf@),
            from <= lno <= lineno,
            from == if lineno > opts.before {
                lineno - opts.before
            } else {
                0
            },
            line_exists(buf@, lineno as nat),
            m.lineno == lineno + 1,
            m.line@ == line_content(buf@, lineno as nat),
            m.spans@ == Seq::<(usize, usize)>::empty(),
            m.after@.len() == 0,
            m.before@.len() == lno - from,
            forall|j: int|
                0 <= j < m.before@.len() ==> #[trigger] m.before@[j]@ == line_content(
                    buf@,
                    (from + j) as nat,
                ),
        decreases lineno - lno,
    {
        proof {
            lemma_line_start_mono(buf@, lno as nat, lineno as nat);
        }
        let l = lines.get_line(buf, lno).unwrap();
        m.before.push(l);
        lno = lno + 1;
    }
    let mut cnt: usize = 0;
    while cnt < opts.after
        invariant
            lines.wf(buf@),
            line_exists(buf@, lineno as nat),
            blen == buf@.len(),
            lineno < blen,
            cnt <= opts.after,
            lineno + 1 + cnt <= blen,
            m.lineno == lineno + 1,
            m.line@ == line_content(buf@, lineno as nat),
            m.spans@ == Seq::<(usize, usize)>::empty(),
            m.before@.len() == (if lineno < opts.before {
                lineno as int
            } else {
                opts.before as int
            }),
            forall|j: int|
                0 <= j < m.before@.len() ==> #[trigger] m.before@[j]@ == line_content(
                    buf@,
                    (lineno - m.before@.len() + j) as nat,
                ),
            m.after@.len() == cnt,
            forall|j: int|
                0 <= j < m.after@.len() ==> #[trigger] m.after@[j]@ == line_content(
                    buf@,
                    (lineno + 1 + j) as nat,
                ) && line_exists(buf@, (lineno + 1 + j) as nat),
        decreases opts.after - cnt,
    {
        match lines.get_line(buf, lineno + 1 + cnt) {
            Some(l) => {
                proof {
                    lemma_line_index_le_start(buf@, (lineno + 1 + cnt) as nat);
                }
                let ghost old_after = m.after@;
                m.after.push(l);
                proof {
                    assert(m.after@ == old_after.push(l));
                    assert(forall|j: int|
                        0 <= j < old_after.len() ==> m.after@[j] == old_after[j]);
                    assert(m.after@[old_after.len() as int] == l);
                }
                cnt = cnt + 1;
            },
            None => {
                proof {
                    assert(m.before@.len() == (if (lineno as nat) < (opts.before as nat) {
                        lineno as int
                    } else {
                        opts.before as int
                    }));
                    assert(m.after@.len() <= opts.after);
                    assert(!line_exists(buf@, (lineno as nat + 1 + m.after@.len()) as nat));
                    assert(context_ok(buf@, opts.before as nat, opts.after as nat, lineno as nat, m));
                }
                return m;
            },
        }
    }
    proof {
        assert(context_ok(buf@, opts.before as nat, opts.after as nat, lineno as nat, m));
    }
    m
}

/// The total number of spans over all matches of a file.
pub open spec fn count_total(ms: Seq<Match>) -> int
    decreases ms.len(),
{
    if ms.len() == 0 {
        0
    } else {
        count_total(ms.drop_last()) + ms.last().spans@.len()
    }
}

/// Prefix sums of the span count never exceed the total.
pub proof fn lemma_count_total_mono(ms: Seq<Match>, a: int, b: int)
    requires
        0 <= a <= b <= ms.len(),
    ensures
        count_total(ms.take(a)) <= count_total(ms.take(b)),
    decreases b - a,
{
    if a < b {
        lemma_count_total_mono(ms, a, b - 1);
        assert(ms.take(b).drop_last() =~= ms.take(b - 1));
    }
}

/// A list of records without spans has span count zero.
pub proof fn lemma_count_total_empty(ms: Seq<Match>)
    requires
        forall|i: int| 0 <= i < ms.len() ==> (#[trigger] ms[i]).spans@.len() == 0,
    ensures
        count_total(ms) == 0,
    decreases ms.len(),
{
    if ms.len() > 0 {
        assert(forall|i: int| 0 <= i < ms.len() - 1 ==> ms.drop_last()[i] == ms[i]);
        lemma_count_total_empty(ms.drop_last());
        assert(ms.last() == ms[ms.len() - 1]);
    }
}

/// The numeric sanity bounds one record must satisfy before it can be
/// rendered: counts and line numbers stay within machine range, and the
/// spans lie sorted within the line.
pub open spec fn match_printable(m: Match) -> bool {
    &&& m.before@.len() < m.lineno || (m.lineno == 0 && m.before@.len() == 0)
    &&& m.lineno + m.after@.len() + 1 <= usize::MAX
    &&& m.line@.len() < usize::MAX
    &&& forall|j: int|
        0 <= j < m.spans@.len() ==> (#[trigger] m.spans@[j]).0 <= m.spans@[j].1 <= m.line@.len()
    &&& forall|j: int| 1 <= j < m.spans@.len() ==> (#[trigger] m.spans@[j]).0 >= m.spans@[j - 1].1
}

pub open spec fn matches_printable(ms: Seq<Match>) -> bool {
    forall|i: int| 0 <= i < ms.len() ==> match_printable(#[trigger] ms[i])
}

/// What every renderer needs of a result; the scanner's output satisfies it
/// for any buffer that fits in memory.
pub open spec fn printable(res: FileResult) -> bool {
    &&& count_total(res.matches@) <= usize::MAX
    &&& matches_printable(res.matches@)
}

/// The spans of one record are within the line, sorted, and pairwise
/// disjoint.
pub open spec fn match_spans_sorted(m: Match) -> bool {
    &&& forall|a: int|
        0 <= a < m.spans@.len() ==> (#[trigger] m.spans@[a]).0 <= m.spans@[a].1 <= m.line@.len()
    &&& forall|a: int| 1 <= a < m.spans@.len() ==> (#[trigger] m.spans@[a]).0 >= m.spans@[a - 1].1
}

/// The synthetic record of a matching binary file: line number 0, no text,
/// no spans, no context.
pub open spec fn is_binary_match(m: Match) -> bool {
    &&& m.lineno == 0
    &&& m.line@.len() == 0
    &&& m.spans@.len() == 0
    &&& m.before@.len() == 0
    &&& m.after@.len() == 0
}

/// What searching a binary file produces: no records unless binary files
/// are searched at all and the cap allows one, and at most one synthetic
/// record.
pub open spec fn binary_result_ok(opts: Opts, r: FileResult) -> bool {
    &&& r.matches@.len() <= 1
    &&& (!opts.do_binaries || opts.max_count == 0) ==> r.matches@.len() == 0
    &&& forall|i: int| 0 <= i < r.matches@.len() ==> is_binary_match(#[trigger] r.matches@[i])
}

/// Search a single file (represented as a u8 buffer) for matching lines.
///
/// The regex engine's findings are collected into a well-formed span list;
/// everything else about the result — which lines get records, their text,
/// context, spans, ordering, and the caps — is exact with respect to that
/// list.
/// A scanned record keeps within machine bounds: what the renderers demand.
proof fn lemma_scan_match_printable(
    buf: Seq<u8>,
    sp: Seq<(usize, usize, usize)>,
    opts: Opts,
    m: Match,
)
    requires
        buf.len() < usize::MAX,
        spans_wf(buf, sp),
        scan_match_ok(buf, sp, opts, m),
    ensures
        match_printable(m),
{
    let k = (m.lineno - 1) as nat;
    lemma_line_index_le_start(buf, k);
    lemma_line_start_bounds(buf, k);
    crate::lines::lemma_next_newline(buf, line_start(buf, k));
    assert(m.line@.len() <= buf.len());
    assert(context_fields_ok(
        buf,
        opts.before as nat,
        opts.after as nat,
        k,
        m.before@,
        m.after@,
    ));
    if m.after@.len() > 0 {
        let jj: int = m.after@.len() as int - 1;
        assert(0 <= jj < m.after@.len());
        assert(m.after@[jj]@ == line_content(buf, (k + 1 + jj) as nat));
        assert(line_exists(buf, (k + 1 + jj) as nat));
        lemma_line_index_le_start(buf, (k + 1 + jj) as nat);
    }
    if opts.invert || opts.only_files is Some {
        assert(m.spans@.len() == 0);
    } else {
        lemma_line_spans_ok(buf, sp, m.lineno - 1);
    }
}

/// Search a single file (represented as a u8 buffer) for matching lines.
///
/// The result is exact up to the named engine verdicts: the binary record is
/// present precisely when the engine matches the buffer, and in the text
/// case the records are precisely the first `cap` emitted lines of the span
/// list `found_spans_from(rx@, buf@, 0)` — the engine's matches, walked by
/// the scanner's cursor rules — with exact line text, context, spans,
/// ordering, and caps.
pub fn search(rx: &CompiledRegex, opts: &Opts, path: &str, buf: &[u8]) -> (r: FileResult)
    requires
        buf@.len() < usize::MAX,
    ensures
        r.fname@ == normalized(path@),
        r.has_context == (opts.before > 0 || opts.after > 0),
        r.is_binary == is_binary_spec(buf@),
        is_binary_spec(buf@) ==> binary_result_ok(*opts, r),
        is_binary_spec(buf@) ==> (r.matches@.len() == 1 <==> opts.do_binaries && opts.max_count > 0
            && rx_match_of(rx@, buf@)),
        linenos_ascending(r.matches@),
        forall|q: int| 0 <= q < r.matches@.len() ==> match_spans_sorted(#[trigger] r.matches@[q]),
        !is_binary_spec(buf@) && !opts.invert && opts.only_files is None ==> forall|q: int|
            0 <= q < r.matches@.len() ==> (#[trigger] r.matches@[q]).spans@.len() > 0,
        !is_binary_spec(buf@) ==> matches_complete(
            buf@,
            found_spans_from(rx@, buf@, 0),
            opts.invert,
            scan_cap(opts.max_count, opts.only_files),
            r.matches@,
        ),
        !is_binary_spec(buf@) ==> spans_wf(buf@, found_spans_from(rx@, buf@, 0)),
        !is_binary_spec(buf@) ==> forall|q: int|
            0 <= q < r.matches@.len() ==> scan_match_ok(
                buf@,
                found_spans_from(rx@, buf@, 0),
                *opts,
                #[trigger] r.matches@[q],
            ),
        printable(r),
{
    let len = buf.len();
    let mut result = FileResult {
        fname: normalized_path(path),
        is_binary: false,
        has_context: opts.before > 0 || opts.after > 0,
        matches: Vec::new(),
    };
    if is_binary(buf, len) {
        result.is_binary = true;
        // if we care for binaries at all
        if opts.do_binaries && opts.max_count > 0 {
            if rx.is_match(buf) {
                // found a match: record a synthetic match object; we never
                // need more information than "matched" or "didn't match"
                result.matches.push(
                    Match {
                        lineno: 0,
                        line: Vec::new(),
                        spans: Vec::new(),
                        before: Vec::new(),
                        after: Vec::new(),
                    },
                );
            }
        }
        proof {
            lemma_count_total_empty(result.matches@);
        }
    } else {
        let mut lines = Lines::new(buf);
        let sp = find_spans(rx, buf, &mut lines);
        let ms = if opts.invert {
            scan_invert(buf, &sp, opts, &mut lines)
        } else {
            scan_normal(buf, &sp, opts, &mut lines)
        };
        result.matches = ms;
        proof {
            assert(spans_wf(buf@, sp@));
            assert(sp@ == found_spans_from(rx@, buf@, 0));
            assert forall|q: int|
                0 <= q < result.matches@.len() implies match_spans_sorted(
                #[trigger] result.matches@[q],
            ) && match_printable(result.matches@[q]) && (!opts.invert && opts.only_files is None
                ==> result.matches@[q].spans@.len() > 0) by {
                lemma_scan_match_printable(buf@, sp@, *opts, result.matches@[q]);
                if opts.invert || opts.only_files is Some {
                    assert(scan_match_ok(buf@, sp@, *opts, result.matches@[q]));
                    assert(result.matches@[q].spans@.len() == 0);
                } else {
                    lemma_span_disjointness(buf@, sp@, *opts, result.matches@, q);
                }
            }
            if opts.invert {
                assert forall|q: int|
                    0 <= q < result.matches@.len() implies (#[trigger] result.matches@[q]).spans@.len()
                    == 0 by {
                    assert(scan_match_ok(buf@, sp@, *opts, result.matches@[q]));
                }
                lemma_count_total_empty(result.matches@);
            }
        }
    }
    result
}

/// Ends never pass the start of a later span./// Ends never pass the start of a later span.
pub proof fn lemma_span_ends_mono(buf: Seq<u8>, sp: Seq<(usize, usize, usize)>, i: int, j: int)
    requires
        spans_wf(buf, sp),
        0 <= i < j < sp.len(),
    ensures
        sp[i].1 <= sp[j].0,
    decreases j - i,
{
    if i + 1 < j {
        lemma_span_ends_mono(buf, sp, i, j - 1);
        assert(span_wf(buf, sp[j - 1]));
    }
}

/// A span relative to its line lies within the line's visible content.
pub proof fn lemma_rel_span_ok(buf: Seq<u8>, t: (usize, usize, usize))
    requires
        span_wf(buf, t),
    ensures
        rel_span(buf, t).0 <= rel_span(buf, t).1,
        rel_span(buf, t).1 <= line_content(buf, t.2 as nat).len(),
        rel_span(buf, t).0 as int == t.0 - line_start(buf, t.2 as nat),
{
    let k = t.2 as nat;
    let ls = line_start(buf, k);
    lemma_line_start_bounds(buf, k);
    lemma_line_start_step(buf, k);
    crate::lines::lemma_next_newline(buf, ls);
    let nn = crate::lines::next_newline(buf, ls);
    assert(line_content(buf, k).len() == nn - ls);
    // the next line starts right after the newline (or at the end), so an
    // offset before it is at most one past the content
    assert(line_start(buf, k + 1) == if nn < buf.len() {
        nn + 1
    } else {
        buf.len() as int
    });
}

/// In a content scan, a record's spans are non-empty, each lies within the
/// line, and they are sorted and pairwise disjoint.
pub proof fn lemma_line_spans_ok(buf: Seq<u8>, sp: Seq<(usize, usize, usize)>, k: int)
    requires
        spans_wf(buf, sp),
    ensures
        line_spans(buf, sp, k).len() > 0 <==> line_hit(sp, k),
        forall|a: int|
            0 <= a < line_spans(buf, sp, k).len() ==> (#[trigger] line_spans(buf, sp, k)[a]).0
                <= line_spans(buf, sp, k)[a].1 <= line_content(buf, k as nat).len(),
        forall|a: int|
            1 <= a < line_spans(buf, sp, k).len() ==> (#[trigger] line_spans(buf, sp, k)[a]).0
                >= line_spans(buf, sp, k)[a - 1].1,
        line_spans(buf, sp, k).len() > 0 ==> exists|j: int|
            {
                &&& 0 <= j < sp.len()
                &&& (#[trigger] sp[j]).2 == k
                &&& line_spans(buf, sp, k).last() == rel_span(buf, sp[j])
            },
    decreases sp.len(),
{
    if sp.len() > 0 {
        let prefix = sp.drop_last();
        assert(spans_wf(buf, prefix)) by {
            assert(forall|i: int| 0 <= i < prefix.len() ==> prefix[i] == sp[i]);
        }
        lemma_line_spans_ok(buf, prefix, k);
        if sp.last().2 == k {
            assert(span_wf(buf, sp[sp.len() - 1]));
            lemma_rel_span_ok(buf, sp.last());
            let cur = line_spans(buf, sp, k);
            let prev = line_spans(buf, prefix, k);
            assert(cur == prev.push(rel_span(buf, sp.last())));
            if prev.len() > 0 {
                let j = choose|j: int|
                    {
                        &&& 0 <= j < prefix.len()
                        &&& (#[trigger] prefix[j]).2 == k
                        &&& prev.last() == rel_span(buf, prefix[j])
                    };
                assert(prefix[j] == sp[j]);
                lemma_span_ends_mono(buf, sp, j, sp.len() - 1);
                // the previous record's clamped end is at most the raw end,
                // which is at most the new span's start
                assert(prev.last().1 <= sp[j].1 - line_start(buf, k as nat));
                assert(cur[cur.len() - 2] == prev[prev.len() - 1]);
                assert(cur[cur.len() - 1] == rel_span(buf, sp.last()));
                assert(sp.last().2 as nat == k as nat);
                let t = sp[sp.len() - 1];
                assert(sp.last() == t);
                let ls2 = line_start(buf, t.2 as nat);
                lemma_line_start_bounds(buf, t.2 as nat);
                assert(t.0 - ls2 >= 0);
                assert(t.0 - ls2 <= usize::MAX);
                assert(rel_span(buf, t).0 as int == t.0 - ls2);
                assert(sp[j].1 <= t.0);
                assert(cur[cur.len() - 1].0 >= cur[cur.len() - 2].1);
            }
            assert(sp[sp.len() - 1].2 == k);
            assert(line_hit(sp, k));
        } else {
            assert(line_spans(buf, sp, k) == line_spans(buf, prefix, k));
            if line_hit(prefix, k) {
                let q = choose|q: int| 0 <= q < prefix.len() && (#[trigger] prefix[q]).2 == k;
                assert(sp[q].2 == k);
            }
            if line_hit(sp, k) {
                let q = choose|q: int| 0 <= q < sp.len() && (#[trigger] sp[q]).2 == k;
                assert(q < sp.len() - 1);
                assert(prefix[q].2 == k);
            }
            if line_spans(buf, sp, k).len() > 0 {
                let j = choose|j: int|
                    {
                        &&& 0 <= j < prefix.len()
                        &&& (#[trigger] prefix[j]).2 == k
                        &&& line_spans(buf, prefix, k).last() == rel_span(buf, prefix[j])
                    };
                assert(sp[j] == prefix[j]);
            }
        }
    }
}

/// Span disjointness: in a normal scan with content records, every record
/// carries at least one span, the spans lie within `[0, len(line)]`, and
/// they are sorted and pairwise disjoint.
pub proof fn lemma_span_disjointness(
    buf: Seq<u8>,
    sp: Seq<(usize, usize, usize)>,
    opts: Opts,
    ms: Seq<Match>,
    q: int,
)
    requires
        spans_wf(buf, sp),
        !opts.invert,
        opts.only_files is None,
        matches_complete(buf, sp, false, scan_cap(opts.max_count, opts.only_files), ms),
        forall|i: int| 0 <= i < ms.len() ==> scan_match_ok(buf, sp, opts, #[trigger] ms[i]),
        0 <= q < ms.len(),
    ensures
        ms[q].spans@.len() > 0,
        forall|a: int|
            0 <= a < ms[q].spans@.len() ==> (#[trigger] ms[q].spans@[a]).0 <= ms[q].spans@[a].1
                <= ms[q].line@.len(),
        forall|a: int|
            1 <= a < ms[q].spans@.len() ==> (#[trigger] ms[q].spans@[a]).0 >= ms[q].spans@[a - 1].1,
{
    assert(scan_match_ok(buf, sp, opts, ms[q]));
    let k = ms[q].lineno - 1;
    lemma_line_spans_ok(buf, sp, k);
    assert(emitted_line(buf, sp, false, k));
}

/// Invert duality: over one span list, every existing line gets a record in
/// exactly one of the two modes, and neither mode invents lines. Stated for
/// two untruncated result lists; two searches over the same compiled regex
/// and buffer share the list `found_spans_from(rx@, buf@, 0)`, so their
/// contracts supply the hypotheses.
pub proof fn lemma_invert_duality(
    buf: Seq<u8>,
    sp: Seq<(usize, usize, usize)>,
    cap1: int,
    cap2: int,
    ms_normal: Seq<Match>,
    ms_invert: Seq<Match>,
    k: int,
)
    requires
        spans_wf(buf, sp),
        matches_complete(buf, sp, false, cap1, ms_normal),
        matches_complete(buf, sp, true, cap2, ms_invert),
        ms_normal.len() < cap1,
        ms_invert.len() < cap2,
        0 <= k,
    ensures
        line_exists(buf, k as nat) ==> (line_in(ms_normal, k) <==> !line_in(ms_invert, k)),
        !line_exists(buf, k as nat) ==> !line_in(ms_normal, k) && !line_in(ms_invert, k),
{
    if line_in(ms_normal, k) {
        let i = choose|i: int|
            0 <= i < ms_normal.len() && (#[trigger] ms_normal[i]).lineno == k + 1;
        assert(emitted_line(buf, sp, false, k));
        let j = choose|j: int| 0 <= j < sp.len() && (#[trigger] sp[j]).2 == k;
        assert(span_wf(buf, sp[j]));
        assert(line_exists(buf, k as nat));
        if line_in(ms_invert, k) {
            let w = choose|w: int|
                0 <= w < ms_invert.len() && (#[trigger] ms_invert[w]).lineno == k + 1;
            assert(emitted_line(buf, sp, true, k));
            assert(false);
        }
    }
    if line_in(ms_invert, k) {
        let i = choose|i: int|
            0 <= i < ms_invert.len() && (#[trigger] ms_invert[i]).lineno == k + 1;
        assert(emitted_line(buf, sp, true, k));
        assert(line_exists(buf, k as nat));
    }
    if line_exists(buf, k as nat) && !line_in(ms_normal, k) {
        if emitted_line(buf, sp, false, k) {
            assert(line_in(ms_normal, k));
            assert(false);
        }
        assert(!line_hit(sp, k));
        assert(emitted_line(buf, sp, true, k));
        assert(line_in(ms_invert, k));
    }
}

/// Context bounds: a record never carries more than the configured number
/// of context lines on either side.
pub proof fn lemma_context_bounds(buf: Seq<u8>, b: nat, a: nat, k: nat, m: Match)
    requires
        context_ok(buf, b, a, k, m),
    ensures
        m.before@.len() <= b,
        m.after@.len() <= a,
{
}

/// Zero-width safety: a result list with ascending line numbers holds at
/// most one record per line. (That the scan terminates on every pattern,
/// including ones matching the empty string, is enforced by the decreases
/// measure of the span-collection loop.)
pub proof fn lemma_one_match_per_line(ms: Seq<Match>, i: int, j: int)
    requires
        linenos_ascending(ms),
        0 <= i < ms.len(),
        0 <= j < ms.len(),
        i != j,
    ensures
        ms[i].lineno != ms[j].lineno,
{
}

} // verus!
