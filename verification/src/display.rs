//! Rendering search results into bytes, in the tool's display formats.
//!
//! Each mode accumulates its output in a byte buffer that the embedding
//! program drains to its sink; the bytes appended for a result are stated
//! exactly by the render functions of each mode.

use vstd::prelude::*;
use vstd::utf8::encode_utf8;

use crate::options::Colors;
use crate::search::{
    count_total, lemma_count_total_mono, matches_printable, printable, FileResult, Match,
};

verus! {

/// The bytes of a string, in its UTF-8 encoding.
pub open spec fn str_bytes(s: Seq<char>) -> Seq<u8> {
    encode_utf8(s)
}

/// The decimal digits of a number, most significant first.
pub open spec fn dec_digits(n: nat) -> Seq<u8>
    decreases n,
{
    if n < 10 {
        seq![(48 + n) as u8]
    } else {
        dec_digits(n / 10).push((48 + n % 10) as u8)
    }
}

/// Append the bytes of a slice to a buffer.
fn extend_bytes(out: &mut Vec<u8>, b: &[u8])
    ensures
        final(out)@ == old(out)@ + b@,
{
    let mut i: usize = 0;
    while i < b.len()
        invariant
            i <= b@.len(),
            out@ == old(out)@ + b@.take(i as int),
        decreases b@.len() - i,
    {
        out.push(b[i]);
        proof {
            assert(old(out)@ + b@.take(i as int + 1) =~= (old(out)@ + b@.take(i as int)).push(
                b@[i as int],
            ));
        }
        i = i + 1;
    }
    proof {
        assert(old(out)@ + b@.take(b@.len() as int) =~= old(out)@ + b@);
    }
}

/// Append the UTF-8 bytes of a string to a buffer.
fn extend_str(out: &mut Vec<u8>, s: &str)
    ensures
        final(out)@ == old(out)@ + str_bytes(s@),
{
    extend_bytes(out, s.as_bytes());
}

/// Append the decimal digits of a number to a buffer.
fn extend_usize(out: &mut Vec<u8>, n: usize)
    ensures
        final(out)@ == old(out)@ + dec_digits(n as nat),
{
    let mut rev: Vec<u8> = Vec::new();
    let mut m = n;
    loop
        invariant_except_break
            dec_digits(n as nat).len() == dec_digits(m as nat).len() + rev@.len(),
            dec_digits(n as nat).take(dec_digits(m as nat).len() as int) == dec_digits(m as nat),
        invariant
            rev@.len() <= dec_digits(n as nat).len(),
            forall|j: int|
                0 <= j < rev@.len() ==> #[trigger] rev@[j] == dec_digits(n as nat)[dec_digits(
                    n as nat,
                ).len() - 1 - j],
        ensures
            rev@.len() == dec_digits(n as nat).len(),
        decreases m,
    {
        let d = (m % 10) as u8;
        let ghost mv = m as nat;
        rev.push(48 + d);
        m = m / 10;
        proof {
            assert(dec_digits(mv) == if mv < 10 {
                seq![(48 + mv) as u8]
            } else {
                dec_digits(mv / 10).push((48 + mv % 10) as u8)
            });
            assert(dec_digits(mv).last() == (48 + mv % 10) as u8);
            assert(dec_digits(mv).drop_last() =~= if mv < 10 {
                Seq::<u8>::empty()
            } else {
                dec_digits(mv / 10)
            });
            assert(dec_digits(n as nat).take(dec_digits(mv).len() as int).last() == dec_digits(
                n as nat,
            )[dec_digits(mv).len() - 1]);
            assert(dec_digits(n as nat).take(dec_digits(mv).len() as int).drop_last()
                =~= dec_digits(n as nat).take(dec_digits(mv).len() - 1));
        }
        if m == 0 {
            break ;
        }
    }
    let mut i = rev.len();
    while i > 0
        invariant
            i <= rev@.len(),
            rev@.len() == dec_digits(n as nat).len(),
            forall|j: int|
                0 <= j < rev@.len() ==> #[trigger] rev@[j] == dec_digits(n as nat)[dec_digits(
                    n as nat,
                ).len() - 1 - j],
            out@ == old(out)@ + dec_digits(n as nat).take(rev@.len() - i),
        decreases i,
    {
        i = i - 1;
        out.push(rev[i]);
        proof {
            assert(old(out)@ + dec_digits(n as nat).take(rev@.len() - i) =~= (old(out)@
                + dec_digits(n as nat).take(rev@.len() - i - 1)).push(
                dec_digits(n as nat)[rev@.len() - 1 - i],
            ));
        }
    }
    proof {
        assert(old(out)@ + dec_digits(n as nat).take(rev@.len() as int) =~= old(out)@ + dec_digits(
            n as nat,
        ));
    }
}

/// A trait for rendering search results.
pub trait DisplayMode {
    /// Render the results from a single file into the output buffer.
    fn print_result(&mut self, res: FileResult)
        requires
            printable(res),
    ;

    /// Hand over the bytes rendered so far and clear the buffer.
    fn take_output(&mut self) -> Vec<u8>;
}

/// One line of count-mode output: `<name>:<count>`, colored.
pub open spec fn render_count(c: Colors, fr: FileResult) -> Seq<u8> {
    if fr.matches@.len() == 0 {
        Seq::empty()
    } else {
        str_bytes(c.path@) + str_bytes(fr.fname@) + str_bytes(c.reset@) + str_bytes(c.punct@)
            + seq![58u8] + str_bytes(c.reset@) + str_bytes(c.lineno@) + dec_digits(
            count_total(fr.matches@) as nat,
        ) + str_bytes(c.reset@) + seq![10u8]
    }
}

/// The mode used for count mode: one file per line, followed by the match
/// count (not the matched line count).
pub struct CountMode {
    colors: Colors,
    out: Vec<u8>,
}

impl CountMode {
    pub fn new(colors: Colors) -> (r: CountMode)
        ensures
            r.colors() == colors,
            r.out() == Seq::<u8>::empty(),
    {
        CountMode { colors, out: Vec::new() }
    }

    pub closed spec fn colors(self) -> Colors {
        self.colors
    }

    pub closed spec fn out(self) -> Seq<u8> {
        self.out@
    }
}

impl DisplayMode for CountMode {
    fn print_result(&mut self, res: FileResult)
        ensures
            final(self).colors() == old(self).colors(),
            final(self).out() == old(self).out() + render_count(old(self).colors(), res),
    {
        if res.matches.len() == 0 {
            proof {
                assert(self.out@ + render_count(self.colors, res) =~= self.out@);
            }
            return ;
        }
        let mut count: usize = 0;
        let mut i: usize = 0;
        while i < res.matches.len()
            invariant
                i <= res.matches@.len(),
                count == count_total(res.matches@.take(i as int)),
                count_total(res.matches@) <= usize::MAX,
            decreases res.matches@.len() - i,
        {
            proof {
                assert(res.matches@.take(i as int + 1).drop_last() =~= res.matches@.take(i as int));
                assert(res.matches@.take(i as int + 1).last() == res.matches@[i as int]);
                assert(res.matches@.take(res.matches@.len() as int) =~= res.matches@);
                lemma_count_total_mono(res.matches@, i as int + 1, res.matches@.len() as int);
            }
            count = count + res.matches[i].spans.len();
            i = i + 1;
        }
        proof {
            assert(res.matches@.take(res.matches@.len() as int) =~= res.matches@);
        }
        let out = &mut self.out;
        extend_str(out, self.colors.path.as_str());
        extend_str(out, res.fname.as_str());
        extend_str(out, self.colors.reset.as_str());
        extend_str(out, self.colors.punct.as_str());
        out.push(58);
        extend_str(out, self.colors.reset.as_str());
        extend_str(out, self.colors.lineno.as_str());
        extend_usize(out, count);
        extend_str(out, self.colors.reset.as_str());
        out.push(10);
        proof {
            assert(self.out@ =~= old(self).out() + render_count(old(self).colors(), res));
        }
    }

    fn take_output(&mut self) -> (r: Vec<u8>)
        ensures
            r@ == old(self).out(),
            final(self).out() == Seq::<u8>::empty(),
            final(self).colors() == old(self).colors(),
    {
        let mut r: Vec<u8> = Vec::new();
        core::mem::swap(&mut r, &mut self.out);
        r
    }
}

/// One line of files-only output: the file name, when the presence of
/// matches agrees with the mode's polarity.
pub open spec fn render_files_only(c: Colors, need_match: bool, fr: FileResult) -> Seq<u8> {
    if (fr.matches@.len() == 0) != need_match {
        str_bytes(c.path@) + str_bytes(fr.fname@) + str_bytes(c.reset@) + seq![10u8]
    } else {
        Seq::empty()
    }
}

/// The mode used for files-with-matches and files-without-matches: one file
/// per line, no contents printed.
pub struct FilesOnlyMode {
    colors: Colors,
    need_match: bool,
    out: Vec<u8>,
}

impl FilesOnlyMode {
    pub fn new(colors: Colors, need_match: bool) -> (r: FilesOnlyMode)
        ensures
            r.colors() == colors,
            r.need_match() == need_match,
            r.out() == Seq::<u8>::empty(),
    {
        FilesOnlyMode { colors, need_match, out: Vec::new() }
    }

    pub closed spec fn colors(self) -> Colors {
        self.colors
    }

    pub closed spec fn need_match(self) -> bool {
        self.need_match
    }

    pub closed spec fn out(self) -> Seq<u8> {
        self.out@
    }
}

impl DisplayMode for FilesOnlyMode {
    fn print_result(&mut self, res: FileResult)
        ensures
            final(self).colors() == old(self).colors(),
            final(self).need_match() == old(self).need_match(),
            final(self).out() == old(self).out() + render_files_only(
                old(self).colors(),
                old(self).need_match(),
                res,
            ),
    {
        if (res.matches.len() == 0) != self.need_match {
            let out = &mut self.out;
            extend_str(out, self.colors.path.as_str());
            extend_str(out, res.fname.as_str());
            extend_str(out, self.colors.reset.as_str());
            out.push(10);
            proof {
                assert(self.out@ =~= old(self).out() + render_files_only(
                    old(self).colors(),
                    old(self).need_match(),
                    res,
                ));
            }
        } else {
            proof {
                assert(self.out@ + render_files_only(self.colors, self.need_match, res)
                    =~= self.out@);
            }
        }
    }

    fn take_output(&mut self) -> (r: Vec<u8>)
        ensures
            r@ == old(self).out(),
            final(self).out() == Seq::<u8>::empty(),
            final(self).colors() == old(self).colors(),
            final(self).need_match() == old(self).need_match(),
    {
        let mut r: Vec<u8> = Vec::new();
        core::mem::swap(&mut r, &mut self.out);
        r
    }
}

/// The notice printed for a matching binary file.
pub open spec fn render_binary_notice(fname: Seq<char>) -> Seq<u8> {
    str_bytes("Binary file "@) + str_bytes(fname) + str_bytes(" matches.\n"@)
}

/// Append the notice for a matching binary file.
fn emit_binary_notice(out: &mut Vec<u8>, fname: &str)
    ensures
        final(out)@ == old(out)@ + render_binary_notice(fname@),
{
    extend_str(out, "Binary file ");
    extend_str(out, fname);
    extend_str(out, " matches.\n");
    proof {
        assert(out@ =~= old(out)@ + render_binary_notice(fname@));
    }
}

/// The vimgrep lines of one match, one physical line per span:
/// `file:line:col:text`.
pub open spec fn render_vimgrep_match(fname: Seq<char>, m: Match, j: int) -> Seq<u8>
    decreases m.spans@.len() - j,
{
    if j < 0 || j >= m.spans@.len() {
        Seq::empty()
    } else {
        str_bytes(fname) + seq![58u8] + dec_digits(m.lineno as nat) + seq![58u8] + dec_digits(
            (m.spans@[j].0 + 1) as nat,
        ) + seq![58u8] + m.line@ + seq![10u8] + render_vimgrep_match(fname, m, j + 1)
    }
}

/// The vimgrep output of a file's matches.
pub open spec fn render_vimgrep_matches(fname: Seq<char>, ms: Seq<Match>, i: int) -> Seq<u8>
    decreases ms.len() - i,
{
    if i < 0 || i >= ms.len() {
        Seq::empty()
    } else {
        render_vimgrep_match(fname, ms[i], 0) + render_vimgrep_matches(fname, ms, i + 1)
    }
}

/// The vimgrep output of one file.
pub open spec fn render_vimgrep(fr: FileResult) -> Seq<u8> {
    if fr.matches@.len() == 0 {
        Seq::empty()
    } else if fr.is_binary {
        render_binary_notice(fr.fname@)
    } else {
        render_vimgrep_matches(fr.fname@, fr.matches@, 0)
    }
}

/// The mode used for vimgrep format: no colors, one match per line (so
/// lines with several matches are printed several times).
pub struct VimGrepMode {
    out: Vec<u8>,
}

impl VimGrepMode {
    pub fn new() -> (r: VimGrepMode)
        ensures
            r.out() == Seq::<u8>::empty(),
    {
        VimGrepMode { out: Vec::new() }
    }

    pub closed spec fn out(self) -> Seq<u8> {
        self.out@
    }
}

impl DisplayMode for VimGrepMode {
    fn print_result(&mut self, res: FileResult)
        ensures
            final(self).out() == old(self).out() + render_vimgrep(res),
    {
        if res.matches.len() == 0 {
            proof {
                assert(self.out@ + render_vimgrep(res) =~= self.out@);
            }
            return ;
        }
        if res.is_binary {
            emit_binary_notice(&mut self.out, res.fname.as_str());
            return ;
        }
        let ghost base = self.out@;
        let mut i: usize = 0;
        while i < res.matches.len()
            invariant
                printable(res),
                i <= res.matches@.len(),
                !res.is_binary,
                base + render_vimgrep_matches(res.fname@, res.matches@, 0) == self.out@
                    + render_vimgrep_matches(res.fname@, res.matches@, i as int),
            decreases res.matches@.len() - i,
        {
            let m = &res.matches[i];
            let ghost pre = self.out@;
            let mut j: usize = 0;
            while j < m.spans.len()
                invariant
                    printable(res),
                    i < res.matches@.len(),
                    *m == res.matches@[i as int],
                    j <= m.spans@.len(),
                    pre + render_vimgrep_match(res.fname@, *m, 0) == self.out@
                        + render_vimgrep_match(res.fname@, *m, j as int),
                decreases m.spans@.len() - j,
            {
                let ghost o1 = self.out@;
                proof {
                    assert(res.matches@[i as int].spans@[j as int].0 < usize::MAX);
                }
                let out = &mut self.out;
                extend_str(out, res.fname.as_str());
                out.push(58);
                extend_usize(out, m.lineno);
                out.push(58);
                let (s0, _s1) = m.spans[j];
                extend_usize(out, s0 + 1);
                out.push(58);
                extend_bytes(out, m.line.as_slice());
                out.push(10);
                proof {
                    let piece = str_bytes(res.fname@) + seq![58u8] + dec_digits(m.lineno as nat)
                        + seq![58u8] + dec_digits((m.spans@[j as int].0 + 1) as nat) + seq![58u8]
                        + m.line@ + seq![10u8];
                    assert(self.out@ =~= o1 + piece);
                    assert(render_vimgrep_match(res.fname@, *m, j as int) == piece
                        + render_vimgrep_match(res.fname@, *m, j as int + 1));
                    assert(pre + render_vimgrep_match(res.fname@, *m, 0) =~= self.out@
                        + render_vimgrep_match(res.fname@, *m, j as int + 1));
                }
                j = j + 1;
            }
            i = i + 1;
            proof {
                assert(render_vimgrep_match(res.fname@, res.matches@[i - 1], m.spans@.len() as int)
                    =~= Seq::<u8>::empty());
                assert(render_vimgrep_matches(res.fname@, res.matches@, i - 1)
                    == render_vimgrep_match(res.fname@, res.matches@[i - 1], 0)
                    + render_vimgrep_matches(res.fname@, res.matches@, i as int));
            }
        }
        proof {
            assert(render_vimgrep_matches(res.fname@, res.matches@, res.matches@.len() as int)
                =~= Seq::<u8>::empty());
            assert(self.out@ =~= old(self).out() + render_vimgrep(res));
        }
    }

    fn take_output(&mut self) -> (r: Vec<u8>)
        ensures
            r@ == old(self).out(),
            final(self).out() == Seq::<u8>::empty(),
    {
        let mut r: Vec<u8> = Vec::new();
        core::mem::swap(&mut r, &mut self.out);
        r
    }
}

/// The ackmate span list: `start length` items joined by commas.
pub open spec fn render_ackmate_spans(spans: Seq<(usize, usize)>, j: int) -> Seq<u8>
    decreases spans.len() - j,
{
    if j < 0 || j >= spans.len() {
        Seq::empty()
    } else {
        let item = dec_digits(spans[j].0 as nat) + seq![32u8] + dec_digits(
            (spans[j].1 - spans[j].0) as nat,
        );
        if j + 1 < spans.len() {
            item + seq![44u8] + render_ackmate_spans(spans, j + 1)
        } else {
            item
        }
    }
}

/// One ackmate match line: `lineno;spans:text`.
pub open spec fn render_ackmate_match(m: Match) -> Seq<u8> {
    dec_digits(m.lineno as nat) + seq![59u8] + render_ackmate_spans(m.spans@, 0) + seq![58u8]
        + m.line@ + seq![10u8]
}

pub open spec fn render_ackmate_matches(ms: Seq<Match>, i: int) -> Seq<u8>
    decreases ms.len() - i,
{
    if i < 0 || i >= ms.len() {
        Seq::empty()
    } else {
        render_ackmate_match(ms[i]) + render_ackmate_matches(ms, i + 1)
    }
}

/// The ackmate output of one file: a blank line between files, then the
/// file name introduced by a colon, then one line per match.
pub open spec fn render_ackmate(is_first: bool, fr: FileResult) -> Seq<u8> {
    if fr.matches@.len() == 0 {
        Seq::empty()
    } else {
        (if !is_first {
            seq![10u8]
        } else {
            Seq::empty()
        }) + (if fr.is_binary {
            render_binary_notice(fr.fname@)
        } else {
            seq![58u8] + str_bytes(fr.fname@) + render_ackmate_matches(fr.matches@, 0)
        })
    }
}

/// The mode used for ackmate format: no colors, one matched line per line,
/// all spans indicated numerically.
pub struct AckMateMode {
    is_first: bool,
    out: Vec<u8>,
}

impl AckMateMode {
    pub fn new() -> (r: AckMateMode)
        ensures
            r.is_first() == true,
            r.out() == Seq::<u8>::empty(),
    {
        AckMateMode { is_first: true, out: Vec::new() }
    }

    pub closed spec fn is_first(self) -> bool {
        self.is_first
    }

    pub closed spec fn out(self) -> Seq<u8> {
        self.out@
    }
}

impl DisplayMode for AckMateMode {
    fn print_result(&mut self, res: FileResult)
        ensures
            final(self).out() == old(self).out() + render_ackmate(old(self).is_first(), res),
            final(self).is_first() == (old(self).is_first() && res.matches@.len() == 0),
    {
        if res.matches.len() == 0 {
            proof {
                assert(self.out@ + render_ackmate(self.is_first, res) =~= self.out@);
            }
            return ;
        }
        let ghost first0 = self.is_first;
        if !self.is_first {
            self.out.push(10);
        }
        if res.is_binary {
            emit_binary_notice(&mut self.out, res.fname.as_str());
            self.is_first = false;
            proof {
                assert(self.out@ =~= old(self).out() + render_ackmate(first0, res));
            }
            return ;
        }
        self.out.push(58);
        extend_str(&mut self.out, res.fname.as_str());
        let ghost base = self.out@;
        let mut i: usize = 0;
        while i < res.matches.len()
            invariant
                printable(res),
                i <= res.matches@.len(),
                base + render_ackmate_matches(res.matches@, 0) == self.out@
                    + render_ackmate_matches(res.matches@, i as int),
            decreases res.matches@.len() - i,
        {
            let m = &res.matches[i];
            let ghost o1 = self.out@;
            let out = &mut self.out;
            extend_usize(out, m.lineno);
            out.push(59);
            let ghost o2 = out@;
            let mut k: usize = 0;
            while k < m.spans.len()
                invariant
                    printable(res),
                    i < res.matches@.len(),
                    *m == res.matches@[i as int],
                    k <= m.spans@.len(),
                    o2 + render_ackmate_spans(m.spans@, 0) == out@ + render_ackmate_spans(
                        m.spans@,
                        k as int,
                    ),
                decreases m.spans@.len() - k,
            {
                {
                    let ghost ok = out@;
                    let (s0, s1) = m.spans[k];
                    proof {
                        assert(res.matches@[i as int].spans@[k as int].0
                            <= res.matches@[i as int].spans@[k as int].1);
                    }
                    extend_usize(out, s0);
                    out.push(32);
                    extend_usize(out, s1 - s0);
                    let ghost item = dec_digits(s0 as nat) + seq![32u8] + dec_digits(
                        (s1 - s0) as nat,
                    );
                    if k + 1 < m.spans.len() {
                        out.push(44);
                        proof {
                            assert(render_ackmate_spans(m.spans@, k as int) == item + seq![44u8]
                                + render_ackmate_spans(m.spans@, k as int + 1));
                            assert(out@ =~= ok + item + seq![44u8]);
                            assert(o2 + render_ackmate_spans(m.spans@, 0) =~= out@
                                + render_ackmate_spans(m.spans@, k as int + 1));
                        }
                    } else {
                        proof {
                            assert(render_ackmate_spans(m.spans@, k as int) == item);
                            assert(out@ =~= ok + item);
                            assert(render_ackmate_spans(m.spans@, k as int + 1) =~= Seq::<
                                u8,
                            >::empty());
                            assert(o2 + render_ackmate_spans(m.spans@, 0) =~= out@
                                + render_ackmate_spans(m.spans@, k as int + 1));
                        }
                    }
                }
                k = k + 1;
            }
            out.push(58);
            extend_bytes(out, m.line.as_slice());
            out.push(10);
            proof {
                assert(render_ackmate_spans(m.spans@, m.spans@.len() as int) =~= Seq::<
                    u8,
                >::empty());
                assert(self.out@ =~= o1 + render_ackmate_match(res.matches@[i as int]));
                assert(render_ackmate_matches(res.matches@, i as int) == render_ackmate_match(
                    res.matches@[i as int],
                ) + render_ackmate_matches(res.matches@, i as int + 1));
                assert(base + render_ackmate_matches(res.matches@, 0) =~= self.out@
                    + render_ackmate_matches(res.matches@, i as int + 1));
            }
            i = i + 1;
        }
        self.is_first = false;
        proof {
            assert(render_ackmate_matches(res.matches@, res.matches@.len() as int) =~= Seq::<
                u8,
            >::empty());
            assert(self.out@ =~= old(self).out() + render_ackmate(first0, res));
        }
    }

    fn take_output(&mut self) -> (r: Vec<u8>)
        ensures
            r@ == old(self).out(),
            final(self).out() == Seq::<u8>::empty(),
            final(self).is_first() == old(self).is_first(),
    {
        let mut r: Vec<u8> = Vec::new();
        core::mem::swap(&mut r, &mut self.out);
        r
    }
}

/// The `--` separator line printed between non-adjacent runs.
pub open spec fn render_sep(c: Colors) -> Seq<u8> {
    str_bytes(c.punct@) + seq![45u8, 45u8] + str_bytes(c.reset@) + seq![10u8]
}

/// What precedes a line's text: in heading mode just the line number, else
/// the file name and the line number, joined by the separator character.
pub open spec fn render_prefix(
    c: Colors,
    heading: bool,
    fname: Seq<char>,
    lineno: nat,
    sep: u8,
) -> Seq<u8> {
    let lno_part = str_bytes(c.lineno@) + dec_digits(lineno) + str_bytes(c.reset@) + str_bytes(
        c.punct@,
    ) + seq![sep] + str_bytes(c.reset@);
    if heading {
        lno_part
    } else {
        str_bytes(c.path@) + str_bytes(fname) + str_bytes(c.reset@) + str_bytes(c.punct@)
            + seq![sep] + str_bytes(c.reset@) + lno_part
    }
}

/// A matched line with its spans highlighted, from position `pos` on,
/// terminated by a newline.
pub open spec fn render_spans_text(
    c: Colors,
    line: Seq<u8>,
    spans: Seq<(usize, usize)>,
    pos: int,
) -> Seq<u8>
    decreases spans.len(),
{
    if spans.len() == 0 {
        line.subrange(pos, line.len() as int) + seq![10u8]
    } else {
        line.subrange(pos, spans.first().0 as int) + str_bytes(c.span@) + line.subrange(
            spans.first().0 as int,
            spans.first().1 as int,
        ) + str_bytes(c.reset@) + render_spans_text(c, line, spans.drop_first(), spans.first().1 as int)
    }
}

/// A matched line as printed: plain when colors are off, highlighted
/// otherwise.
pub open spec fn render_match_text(c: Colors, m: Match) -> Seq<u8> {
    if c.empty {
        m.line@ + seq![10u8]
    } else {
        render_spans_text(c, m.line@, m.spans@, 0)
    }
}

/// The before-context of a match, starting at context index `j`, given the
/// last printed line `lpl` (0 when nothing was printed): lines already
/// printed are skipped, and a separator marks a gap. Yields the bytes and
/// the new last printed line.
#[verifier::opaque]
pub open spec fn render_before(
    c: Colors,
    heading: bool,
    fname: Seq<char>,
    m: Match,
    j: int,
    lpl: int,
) -> (Seq<u8>, int)
    decreases m.before@.len() - j,
{
    if j < 0 || j >= m.before@.len() {
        (Seq::empty(), lpl)
    } else {
        let lno = m.lineno - m.before@.len() + j;
        let sep = if lpl > 0 && lno > lpl + 1 {
            render_sep(c)
        } else {
            Seq::empty()
        };
        let (this, lpl2): (Seq<u8>, int) = if lno > lpl {
            (render_prefix(c, heading, fname, lno as nat, 45u8) + m.before@[j]@ + seq![10u8], lno)
        } else {
            (Seq::empty(), lpl)
        };
        let (rest, lpl3) = render_before(c, heading, fname, m, j + 1, lpl2);
        (sep + this + rest, lpl3)
    }
}

/// The after-context of a match, starting at context index `j`, stopping
/// before the next match's line.
#[verifier::opaque]
pub open spec fn render_after(
    c: Colors,
    heading: bool,
    fname: Seq<char>,
    m: Match,
    j: int,
    lpl: int,
    next: int,
) -> (Seq<u8>, int)
    decreases m.after@.len() - j,
{
    if j < 0 || j >= m.after@.len() {
        (Seq::empty(), lpl)
    } else {
        let lno = m.lineno + 1 + j;
        if lno >= next {
            (Seq::empty(), lpl)
        } else {
            let (rest, lpl2) = render_after(c, heading, fname, m, j + 1, lno, next);
            (render_prefix(c, heading, fname, lno as nat, 45u8) + m.after@[j]@ + seq![10u8] + rest, lpl2)
        }
    }
}

/// One match with its context, given the last printed line; the line after
/// the match is bounded by the next match's line number.
#[verifier::opaque]
pub open spec fn render_one_ctx(
    c: Colors,
    heading: bool,
    fname: Seq<char>,
    ms: Seq<Match>,
    i: int,
    lpl: int,
) -> (Seq<u8>, int) {
    let m = ms[i];
    let (b1, lpl1) = render_before(c, heading, fname, m, 0, lpl);
    let sepm = if lpl1 > 0 && m.lineno > lpl1 + 1 {
        render_sep(c)
    } else {
        Seq::empty()
    };
    let next = if i + 1 < ms.len() {
        ms[i + 1].lineno as int
    } else {
        usize::MAX as int
    };
    let (b2, lpl2) = render_after(c, heading, fname, m, 0, m.lineno as int, next);
    (
        b1 + sepm + render_prefix(c, heading, fname, m.lineno as nat, 58u8) + render_match_text(
            c,
            m,
        ) + b2,
        lpl2,
    )
}

/// All matches with context, threading the last printed line through.
pub open spec fn render_matches_ctx(
    c: Colors,
    heading: bool,
    fname: Seq<char>,
    ms: Seq<Match>,
    i: int,
    lpl: int,
) -> Seq<u8>
    decreases ms.len() - i,
{
    if i < 0 || i >= ms.len() {
        Seq::empty()
    } else {
        let (b, lpl2) = render_one_ctx(c, heading, fname, ms, i, lpl);
        b + render_matches_ctx(c, heading, fname, ms, i + 1, lpl2)
    }
}

/// All matches without context: one prefixed line each.
pub open spec fn render_matches_plain(
    c: Colors,
    heading: bool,
    fname: Seq<char>,
    ms: Seq<Match>,
    i: int,
) -> Seq<u8>
    decreases ms.len() - i,
{
    if i < 0 || i >= ms.len() {
        Seq::empty()
    } else {
        render_prefix(c, heading, fname, ms[i].lineno as nat, 58u8) + render_match_text(c, ms[i])
            + render_matches_plain(c, heading, fname, ms, i + 1)
    }
}

/// The default mode's output for one file: an optional group separator, a
/// binary notice or a heading, and the matches with or without context.
#[verifier::opaque]
pub open spec fn render_default(
    c: Colors,
    grouping: bool,
    heading: bool,
    is_first: bool,
    fr: FileResult,
) -> Seq<u8> {
    if fr.matches@.len() == 0 {
        Seq::empty()
    } else {
        let group = if !is_first && grouping {
            seq![10u8] + (if fr.has_context && !heading {
                render_sep(c)
            } else {
                Seq::empty()
            })
        } else {
            Seq::empty()
        };
        let body = if fr.is_binary {
            render_binary_notice(fr.fname@)
        } else {
            let fhead = if heading {
                str_bytes(c.path@) + str_bytes(fr.fname@) + str_bytes(c.reset@) + seq![10u8]
            } else {
                Seq::empty()
            };
            fhead + (if fr.has_context {
                render_matches_ctx(c, heading, fr.fname@, fr.matches@, 0, 0)
            } else {
                render_matches_plain(c, heading, fr.fname@, fr.matches@, 0)
            })
        };
        group + body
    }
}

/// The default mode, used when printing to a terminal: groups results by
/// file, can use colors, and prints context lines.
pub struct DefaultMode {
    colors: Colors,
    grouping: bool,
    heading: bool,
    is_first: bool,
    out: Vec<u8>,
}

impl DefaultMode {
    pub fn new(colors: Colors, grouping: bool, heading: bool) -> (r: DefaultMode)
        ensures
            r.colors() == colors,
            r.grouping() == grouping,
            r.heading() == heading,
            r.is_first() == true,
            r.out() == Seq::<u8>::empty(),
    {
        DefaultMode { colors, grouping, heading, is_first: true, out: Vec::new() }
    }

    pub closed spec fn colors(self) -> Colors {
        self.colors
    }

    pub closed spec fn grouping(self) -> bool {
        self.grouping
    }

    pub closed spec fn heading(self) -> bool {
        self.heading
    }

    pub closed spec fn is_first(self) -> bool {
        self.is_first
    }

    pub closed spec fn out(self) -> Seq<u8> {
        self.out@
    }

    /// Print the `--` separator line.
    fn print_separator(&mut self)
        ensures
            final(self).out() == old(self).out() + render_sep(old(self).colors()),
            final(self).colors() == old(self).colors(),
            final(self).grouping() == old(self).grouping(),
            final(self).heading() == old(self).heading(),
            final(self).is_first() == old(self).is_first(),
    {
        let out = &mut self.out;
        extend_str(out, self.colors.punct.as_str());
        out.push(45);
        out.push(45);
        extend_str(out, self.colors.reset.as_str());
        out.push(10);
        proof {
            assert(self.out@ =~= old(self).out() + render_sep(old(self).colors()));
        }
    }

    /// Print the line-start prefix (file name and/or line number).
    fn print_prefix(&mut self, fname: &str, lineno: usize, sep: u8)
        ensures
            final(self).out() == old(self).out() + render_prefix(
                old(self).colors(),
                old(self).heading(),
                fname@,
                lineno as nat,
                sep,
            ),
            final(self).colors() == old(self).colors(),
            final(self).grouping() == old(self).grouping(),
            final(self).heading() == old(self).heading(),
            final(self).is_first() == old(self).is_first(),
    {
        let out = &mut self.out;
        if !self.heading {
            extend_str(out, self.colors.path.as_str());
            extend_str(out, fname);
            extend_str(out, self.colors.reset.as_str());
            extend_str(out, self.colors.punct.as_str());
            out.push(sep);
            extend_str(out, self.colors.reset.as_str());
        }
        extend_str(out, self.colors.lineno.as_str());
        extend_usize(out, lineno);
        extend_str(out, self.colors.reset.as_str());
        extend_str(out, self.colors.punct.as_str());
        out.push(sep);
        extend_str(out, self.colors.reset.as_str());
        proof {
            assert(self.out@ =~= old(self).out() + render_prefix(
                old(self).colors(),
                old(self).heading(),
                fname@,
                lineno as nat,
                sep,
            ));
        }
    }

    /// Print a matched line with its spans highlighted.
    fn print_match_text(&mut self, m: &Match)
        requires
            forall|j: int|
                0 <= j < m.spans@.len() ==> (#[trigger] m.spans@[j]).0 <= m.spans@[j].1
                    <= m.line@.len(),
            forall|j: int| 1 <= j < m.spans@.len() ==> (#[trigger] m.spans@[j]).0 >= m.spans@[j - 1].1,
        ensures
            final(self).out() == old(self).out() + render_match_text(old(self).colors(), *m),
            final(self).colors() == old(self).colors(),
            final(self).grouping() == old(self).grouping(),
            final(self).heading() == old(self).heading(),
            final(self).is_first() == old(self).is_first(),
    {
        if self.colors.empty {
            let out = &mut self.out;
            extend_bytes(out, m.line.as_slice());
            out.push(10);
            proof {
                assert(self.out@ =~= old(self).out() + render_match_text(old(self).colors(), *m));
            }
            return ;
        }
        let ghost c = self.colors;
        let ghost base = self.out@;
        proof {
            assert(m.spans@.skip(0) =~= m.spans@);
        }
        let mut pos: usize = 0;
        let mut j: usize = 0;
        while j < m.spans.len()
            invariant
                self.colors == c,
                !c.empty,
                self.grouping == old(self).grouping(),
                self.heading == old(self).heading(),
                self.is_first == old(self).is_first(),
                j <= m.spans@.len(),
                pos <= m.line@.len(),
                j < m.spans@.len() ==> pos <= m.spans@[j as int].0,
                j > 0 ==> pos == m.spans@[j as int - 1].1,
                j == 0 ==> pos == 0,
                forall|w: int|
                    0 <= w < m.spans@.len() ==> (#[trigger] m.spans@[w]).0 <= m.spans@[w].1
                        <= m.line@.len(),
                forall|w: int|
                    1 <= w < m.spans@.len() ==> (#[trigger] m.spans@[w]).0 >= m.spans@[w - 1].1,
                base + render_spans_text(c, m.line@, m.spans@, 0) == self.out@
                    + render_spans_text(c, m.line@, m.spans@.skip(j as int), pos as int),
            decreases m.spans@.len() - j,
        {
            let ghost o1 = self.out@;
            let (s, e) = m.spans[j];
            let out = &mut self.out;
            let sl = vstd::slice::slice_subrange(m.line.as_slice(), pos, s);
            extend_bytes(out, sl);
            extend_str(out, self.colors.span.as_str());
            let sl2 = vstd::slice::slice_subrange(m.line.as_slice(), s, e);
            extend_bytes(out, sl2);
            extend_str(out, self.colors.reset.as_str());
            proof {
                let sp = m.spans@.skip(j as int);
                assert(sp.first() == m.spans@[j as int]);
                assert(sp.drop_first() =~= m.spans@.skip(j as int + 1));
                assert(render_spans_text(c, m.line@, sp, pos as int) == m.line@.subrange(
                    pos as int,
                    s as int,
                ) + str_bytes(c.span@) + m.line@.subrange(s as int, e as int) + str_bytes(c.reset@)
                    + render_spans_text(c, m.line@, m.spans@.skip(j as int + 1), e as int));
                assert(self.out@ =~= o1 + m.line@.subrange(pos as int, s as int) + str_bytes(
                    c.span@,
                ) + m.line@.subrange(s as int, e as int) + str_bytes(c.reset@));
                assert(base + render_spans_text(c, m.line@, m.spans@, 0) =~= self.out@
                    + render_spans_text(c, m.line@, m.spans@.skip(j as int + 1), e as int));
            }
            pos = e;
            j = j + 1;
        }
        let out = &mut self.out;
        let sl = vstd::slice::slice_subrange(m.line.as_slice(), pos, m.line.len());
        extend_bytes(out, sl);
        out.push(10);
        proof {
            assert(m.spans@.skip(m.spans@.len() as int) =~= Seq::<(usize, usize)>::empty());
            assert(self.out@ =~= old(self).out() + render_match_text(old(self).colors(), *m));
        }
    }

    /// Print the before-context of a match, skipping lines already printed
    /// and marking gaps with a separator; returns the new last printed line.
    #[verifier::rlimit(100)]
    fn print_before(&mut self, fname: &str, m: &Match, lpl: usize) -> (r: usize)
        requires
            m.before@.len() < m.lineno || (m.lineno == 0 && m.before@.len() == 0),
            m.lineno + 1 <= usize::MAX,
            lpl + 1 <= usize::MAX,
        ensures
            final(self).out() == old(self).out() + render_before(
                old(self).colors(),
                old(self).heading(),
                fname@,
                *m,
                0,
                lpl as int,
            ).0,
            r as int == render_before(
                old(self).colors(),
                old(self).heading(),
                fname@,
                *m,
                0,
                lpl as int,
            ).1,
            r == lpl || r < m.lineno,
            final(self).colors() == old(self).colors(),
            final(self).grouping() == old(self).grouping(),
            final(self).heading() == old(self).heading(),
            final(self).is_first() == old(self).is_first(),
    {
        let ghost c = self.colors;
        let ghost h = self.heading;
        let ghost o1 = self.out@;
        let ghost lpl0 = lpl as int;
        let blen = m.before.len();
        let mut lpl = lpl;
        let mut j: usize = 0;
        while j < blen
            invariant
                blen == m.before@.len(),
                blen < m.lineno || (m.lineno == 0 && blen == 0),
                m.lineno + 1 <= usize::MAX,
                j <= blen,
                self.colors == c,
                self.heading == h,
                self.grouping == old(self).grouping(),
                self.is_first == old(self).is_first(),
                lpl == lpl0 || lpl < m.lineno,
                lpl + 1 <= usize::MAX,
                lpl0 + 1 <= usize::MAX,
                o1 + render_before(c, h, fname@, *m, 0, lpl0).0 == self.out@ + render_before(
                    c,
                    h,
                    fname@,
                    *m,
                    j as int,
                    lpl as int,
                ).0,
                render_before(c, h, fname@, *m, 0, lpl0).1 == render_before(
                    c,
                    h,
                    fname@,
                    *m,
                    j as int,
                    lpl as int,
                ).1,
            decreases blen - j,
        {
            let lno = m.lineno - blen + j;
            let ghost o2 = self.out@;
            let ghost lpl_in = lpl as int;
            if lpl > 0 && lno > lpl + 1 {
                self.print_separator();
            }
            if lno > lpl {
                self.print_prefix(fname, lno, 45);
                let out = &mut self.out;
                extend_bytes(out, (&m.before[j]).as_slice());
                out.push(10);
                lpl = lno;
            }
            proof {
                reveal(render_before);
                assert(o1 + render_before(c, h, fname@, *m, 0, lpl0).0 =~= self.out@
                    + render_before(c, h, fname@, *m, j as int + 1, lpl as int).0);
            }
            j = j + 1;
        }
        proof {
            reveal(render_before);
            assert(render_before(c, h, fname@, *m, blen as int, lpl as int).0 =~= Seq::<
                u8,
            >::empty());
        }
        lpl
    }

    /// Print the after-context of a match, stopping before the next match's
    /// line; returns the new last printed line.
    #[verifier::rlimit(100)]
    fn print_after(&mut self, fname: &str, m: &Match, lpl: usize, next: usize) -> (r: usize)
        requires
            m.lineno + m.after@.len() + 1 <= usize::MAX,
            lpl + 1 <= usize::MAX,
        ensures
            final(self).out() == old(self).out() + render_after(
                old(self).colors(),
                old(self).heading(),
                fname@,
                *m,
                0,
                lpl as int,
                next as int,
            ).0,
            r as int == render_after(
                old(self).colors(),
                old(self).heading(),
                fname@,
                *m,
                0,
                lpl as int,
                next as int,
            ).1,
            r == lpl || r as int <= m.lineno + m.after@.len(),
            final(self).colors() == old(self).colors(),
            final(self).grouping() == old(self).grouping(),
            final(self).heading() == old(self).heading(),
            final(self).is_first() == old(self).is_first(),
    {
        let ghost c = self.colors;
        let ghost h = self.heading;
        let ghost o1 = self.out@;
        let ghost lpl0 = lpl as int;
        let alen = m.after.len();
        let mut lpl = lpl;
        let mut j: usize = 0;
        loop
            invariant
                j <= alen,
                alen == m.after@.len(),
                m.lineno + m.after@.len() + 1 <= usize::MAX,
                j <= alen,
                self.colors == c,
                self.heading == h,
                self.grouping == old(self).grouping(),
                self.is_first == old(self).is_first(),
                lpl == lpl0 || lpl as int <= m.lineno + m.after@.len(),
                lpl + 1 <= usize::MAX,
                lpl0 + 1 <= usize::MAX,
                o1 + render_after(c, h, fname@, *m, 0, lpl0, next as int).0 == self.out@
                    + render_after(c, h, fname@, *m, j as int, lpl as int, next as int).0,
                render_after(c, h, fname@, *m, 0, lpl0, next as int).1 == render_after(
                    c,
                    h,
                    fname@,
                    *m,
                    j as int,
                    lpl as int,
                    next as int,
                ).1,
            ensures
                render_after(c, h, fname@, *m, j as int, lpl as int, next as int).0 == Seq::<
                    u8,
                >::empty(),
                render_after(c, h, fname@, *m, j as int, lpl as int, next as int).1 == lpl as int,
            decreases alen - j,
        {
            if j >= alen {
                proof {
                    reveal(render_after);
                    assert(render_after(c, h, fname@, *m, j as int, lpl as int, next as int).0
                        =~= Seq::<u8>::empty());
                }
                break ;
            }
            let lno = m.lineno + 1 + j;
            // stop when we hit the next match
            if lno >= next {
                proof {
                    reveal(render_after);
                    assert(render_after(c, h, fname@, *m, j as int, lpl as int, next as int).0
                        =~= Seq::<u8>::empty());
                }
                break ;
            }
            self.print_prefix(fname, lno, 45);
            let out = &mut self.out;
            extend_bytes(out, (&m.after[j]).as_slice());
            out.push(10);
            lpl = lno;
            proof {
                reveal(render_after);
                assert(o1 + render_after(c, h, fname@, *m, 0, lpl0, next as int).0 =~= self.out@
                    + render_after(c, h, fname@, *m, j as int + 1, lpl as int, next as int).0);
            }
            j = j + 1;
        }
        proof {
            reveal(render_after);
            assert(self.out@ =~= o1 + render_after(c, h, fname@, *m, 0, lpl0, next as int).0);
        }
        lpl
    }

    /// Print all matches without context lines.
    fn print_plain_matches(&mut self, fname: &str, ms: &Vec<Match>)
        requires
            matches_printable(ms@),
        ensures
            final(self).out() == old(self).out() + render_matches_plain(
                old(self).colors(),
                old(self).heading(),
                fname@,
                ms@,
                0,
            ),
            final(self).colors() == old(self).colors(),
            final(self).grouping() == old(self).grouping(),
            final(self).heading() == old(self).heading(),
            final(self).is_first() == old(self).is_first(),
    {
        let ghost c = self.colors;
        let ghost h = self.heading;
        let ghost base = self.out@;
        let mut i: usize = 0;
        while i < ms.len()
            invariant
                matches_printable(ms@),
                i <= ms@.len(),
                self.colors == c,
                self.heading == h,
                self.grouping == old(self).grouping(),
                self.is_first == old(self).is_first(),
                base + render_matches_plain(c, h, fname@, ms@, 0) == self.out@
                    + render_matches_plain(c, h, fname@, ms@, i as int),
            decreases ms@.len() - i,
        {
            let ghost o1 = self.out@;
            let m = &ms[i];
            self.print_prefix(fname, m.lineno, 58);
            self.print_match_text(m);
            proof {
                assert(self.out@ =~= o1 + render_prefix(c, h, fname@, m.lineno as nat, 58u8)
                    + render_match_text(c, *m));
                assert(base + render_matches_plain(c, h, fname@, ms@, 0) =~= self.out@
                    + render_matches_plain(c, h, fname@, ms@, i as int + 1));
            }
            i = i + 1;
        }
        proof {
            assert(render_matches_plain(c, h, fname@, ms@, ms@.len() as int) =~= Seq::<u8>::empty());
            assert(self.out@ =~= base + render_matches_plain(c, h, fname@, ms@, 0));
        }
    }

    /// Print all matches with their context lines, de-duplicating lines that
    /// an earlier match already printed and separating non-adjacent runs.
    #[verifier::rlimit(100)]
    fn print_ctx_matches(&mut self, fname: &str, ms: &Vec<Match>)
        requires
            matches_printable(ms@),
        ensures
            final(self).out() == old(self).out() + render_matches_ctx(
                old(self).colors(),
                old(self).heading(),
                fname@,
                ms@,
                0,
                0,
            ),
            final(self).colors() == old(self).colors(),
            final(self).grouping() == old(self).grouping(),
            final(self).heading() == old(self).heading(),
            final(self).is_first() == old(self).is_first(),
    {
        let ghost c = self.colors;
        let ghost h = self.heading;
        let ghost base = self.out@;
        let mut lpl: usize = 0;
        let mut i: usize = 0;
        while i < ms.len()
            invariant
                matches_printable(ms@),
                i <= ms@.len(),
                self.colors == c,
                self.heading == h,
                self.grouping == old(self).grouping(),
                self.is_first == old(self).is_first(),
                base + render_matches_ctx(c, h, fname@, ms@, 0, 0) == self.out@
                    + render_matches_ctx(c, h, fname@, ms@, i as int, lpl as int),
                lpl + 1 <= usize::MAX,
            decreases ms@.len() - i,
        {
            let ghost o1 = self.out@;
            let ghost lpl0 = lpl as int;
            let m = &ms[i];
            proof {
                assert(ms@[i as int].before@.len() < ms@[i as int].lineno || (ms@[i as int].lineno
                    == 0 && ms@[i as int].before@.len() == 0));
                assert(ms@[i as int].lineno + ms@[i as int].after@.len() + 1 <= usize::MAX);
            }
            let lpl1 = self.print_before(fname, m, lpl);
            if lpl1 > 0 && m.lineno > lpl1 + 1 {
                self.print_separator();
            }
            self.print_prefix(fname, m.lineno, 58);
            self.print_match_text(m);
            // print after-context, stopping before the next match
            let next: usize = if i + 1 < ms.len() {
                ms[i + 1].lineno
            } else {
                usize::MAX
            };
            lpl = self.print_after(fname, m, m.lineno, next);
            proof {
                reveal(render_one_ctx);
                let pair = render_one_ctx(c, h, fname@, ms@, i as int, lpl0);
                assert(render_matches_ctx(c, h, fname@, ms@, i as int, lpl0) == pair.0
                    + render_matches_ctx(c, h, fname@, ms@, i as int + 1, pair.1));
                assert(self.out@ =~= o1 + pair.0);
                assert(lpl as int == pair.1);
                assert(base + render_matches_ctx(c, h, fname@, ms@, 0, 0) =~= self.out@
                    + render_matches_ctx(c, h, fname@, ms@, i as int + 1, lpl as int));
            }
            i = i + 1;
        }
        proof {
            assert(render_matches_ctx(c, h, fname@, ms@, ms@.len() as int, lpl as int) =~= Seq::<
                u8,
            >::empty());
            assert(self.out@ =~= base + render_matches_ctx(c, h, fname@, ms@, 0, 0));
        }
    }
}

impl DisplayMode for DefaultMode {
    #[verifier::rlimit(100)]
    fn print_result(&mut self, res: FileResult)
        ensures
            final(self).out() == old(self).out() + render_default(
                old(self).colors(),
                old(self).grouping(),
                old(self).heading(),
                old(self).is_first(),
                res,
            ),
            final(self).is_first() == (old(self).is_first() && res.matches@.len() == 0),
            final(self).colors() == old(self).colors(),
            final(self).grouping() == old(self).grouping(),
            final(self).heading() == old(self).heading(),
    {
        // files with no matches never print anything
        if res.matches.len() == 0 {
            proof {
                reveal(render_default);
                assert(self.out@ + render_default(
                    self.colors,
                    self.grouping,
                    self.heading,
                    self.is_first,
                    res,
                ) =~= self.out@);
            }
            return ;
        }
        let ghost first0 = self.is_first;
        // grouping separator, but not on the first file
        if !self.is_first && self.grouping {
            self.out.push(10);
            if res.has_context && !self.heading {
                // in context mode, a separator is printed between files
                self.print_separator();
            }
        }
        let ghost after_group = self.out@;
        if res.is_binary {
            // special message for binary files
            emit_binary_notice(&mut self.out, res.fname.as_str());
            self.is_first = false;
            proof {
                reveal(render_default);
                assert(self.out@ =~= old(self).out() + render_default(
                    old(self).colors(),
                    old(self).grouping(),
                    old(self).heading(),
                    first0,
                    res,
                ));
            }
            return ;
        }
        if self.heading {
            // headings mode: print the file name first, then omit it from
            // the match lines
            let out = &mut self.out;
            extend_str(out, self.colors.path.as_str());
            extend_str(out, res.fname.as_str());
            extend_str(out, self.colors.reset.as_str());
            out.push(10);
        }
        let ghost base = self.out@;
        let ghost c = self.colors;
        let ghost h = self.heading;
        if !res.has_context {
            // easy case without context lines
            self.print_plain_matches(res.fname.as_str(), &res.matches);
            self.is_first = false;
            proof {
                reveal(render_default);
                assert(self.out@ =~= old(self).out() + render_default(
                    c,
                    old(self).grouping(),
                    h,
                    first0,
                    res,
                ));
            }
            return ;
        }
        self.print_ctx_matches(res.fname.as_str(), &res.matches);
        self.is_first = false;
        proof {
            reveal(render_default);
            assert(self.out@ =~= old(self).out() + render_default(
                c,
                old(self).grouping(),
                h,
                first0,
                res,
            ));
        }
    }

    fn take_output(&mut self) -> (r: Vec<u8>)
        ensures
            r@ == old(self).out(),
            final(self).out() == Seq::<u8>::empty(),
            final(self).colors() == old(self).colors(),
            final(self).grouping() == old(self).grouping(),
            final(self).heading() == old(self).heading(),
            final(self).is_first() == old(self).is_first(),
    {
        let mut r: Vec<u8> = Vec::new();
        core::mem::swap(&mut r, &mut self.out);
        r
    }
}

} // verus!
