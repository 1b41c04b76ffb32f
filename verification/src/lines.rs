//! A lazy index of line boundaries over a byte buffer.
//!
//! Lines are separated by `\n` (byte 10). The index discovers lines on
//! demand, from the front, and remembers the start offset of each line seen
//! so far. Queries for earlier lines never rescan the buffer.

use vstd::prelude::*;

verus! {

/// Position of the first newline byte at or after `p`, or `buf.len()` if
/// there is none.
pub open spec fn next_newline(buf: Seq<u8>, p: int) -> int
    decreases buf.len() - p,
{
    if p < 0 || p >= buf.len() {
        buf.len() as int
    } else if buf[p] == 10u8 {
        p
    } else {
        next_newline(buf, p + 1)
    }
}

/// Offset at which line `i` (0-based) begins. Saturates to `buf.len()` for
/// lines past the end of the buffer.
pub open spec fn line_start(buf: Seq<u8>, i: nat) -> int
    decreases i,
{
    if i == 0 {
        0
    } else {
        let p = line_start(buf, (i - 1) as nat);
        if p >= buf.len() {
            buf.len() as int
        } else {
            let nn = next_newline(buf, p);
            if nn < buf.len() {
                nn + 1
            } else {
                buf.len() as int
            }
        }
    }
}

/// Whether the buffer has a line with index `i`.
pub open spec fn line_exists(buf: Seq<u8>, i: nat) -> bool {
    line_start(buf, i) < buf.len()
}

/// The bytes of line `i`, excluding the terminating newline (if any).
pub open spec fn line_content(buf: Seq<u8>, i: nat) -> Seq<u8> {
    buf.subrange(line_start(buf, i), next_newline(buf, line_start(buf, i)))
}

pub proof fn lemma_next_newline(buf: Seq<u8>, p: int)
    requires
        0 <= p <= buf.len(),
    ensures
        p <= next_newline(buf, p) <= buf.len(),
        next_newline(buf, p) < buf.len() ==> buf[next_newline(buf, p)] == 10u8,
        forall|q: int| p <= q < next_newline(buf, p) ==> buf[q] != 10u8,
    decreases buf.len() - p,
{
    if p < buf.len() && buf[p] != 10u8 {
        lemma_next_newline(buf, p + 1);
    }
}

/// `next_newline` is the only point that is preceded by no newline and is
/// itself a newline or the end of the buffer.
pub proof fn lemma_next_newline_unique(buf: Seq<u8>, p: int, j: int)
    requires
        0 <= p <= j <= buf.len(),
        forall|q: int| p <= q < j ==> buf[q] != 10u8,
        j == buf.len() || buf[j] == 10u8,
    ensures
        j == next_newline(buf, p),
    decreases j - p,
{
    if p < j {
        lemma_next_newline_unique(buf, p + 1, j);
    } else {
        lemma_next_newline(buf, p);
    }
}

pub proof fn lemma_line_start_bounds(buf: Seq<u8>, i: nat)
    ensures
        0 <= line_start(buf, i) <= buf.len(),
    decreases i,
{
    if i > 0 {
        lemma_line_start_bounds(buf, (i - 1) as nat);
        lemma_next_newline(buf, line_start(buf, (i - 1) as nat));
    }
}

/// Consecutive line starts are strictly ordered while lines exist.
pub proof fn lemma_line_start_step(buf: Seq<u8>, i: nat)
    ensures
        line_exists(buf, i) ==> line_start(buf, i) < line_start(buf, i + 1),
        !line_exists(buf, i) ==> line_start(buf, i + 1) == buf.len(),
        line_start(buf, i + 1) <= buf.len(),
{
    lemma_line_start_bounds(buf, i);
    lemma_line_start_bounds(buf, (i + 1) as nat);
    if line_exists(buf, i) {
        lemma_next_newline(buf, line_start(buf, i));
        assert(line_start(buf, (i + 1) as nat) == if next_newline(buf, line_start(buf, i))
            < buf.len() {
            next_newline(buf, line_start(buf, i)) + 1
        } else {
            buf.len() as int
        });
    }
}

/// Line starts are monotone in the line index.
pub proof fn lemma_line_start_mono(buf: Seq<u8>, i: nat, j: nat)
    requires
        i <= j,
    ensures
        line_start(buf, i) <= line_start(buf, j),
    decreases j - i,
{
    if i < j {
        lemma_line_start_step(buf, (j - 1) as nat);
        lemma_line_start_mono(buf, i, (j - 1) as nat);
        lemma_line_start_bounds(buf, (j - 1) as nat);
    }
}

/// Once the start offset saturates at the end of the buffer, every later
/// line is missing as well.
pub proof fn lemma_line_start_saturates(buf: Seq<u8>, i: nat, j: nat)
    requires
        i <= j,
        !line_exists(buf, i),
    ensures
        line_start(buf, j) == buf.len(),
    decreases j - i,
{
    lemma_line_start_bounds(buf, i);
    if i < j {
        lemma_line_start_step(buf, i);
        lemma_line_start_saturates(buf, (i + 1) as nat, j);
    }
}

/// Index of the line containing byte `off`: it rises by one each time a new
/// line has begun at or before `off`. An offset equal to the buffer length
/// falls on the last line; on an empty buffer the index is 0.
pub open spec fn line_of(buf: Seq<u8>, off: int) -> nat
    decreases off,
{
    if off <= 0 {
        0
    } else {
        let prev = line_of(buf, off - 1);
        if line_exists(buf, prev + 1) && line_start(buf, prev + 1) <= off {
            prev + 1
        } else {
            prev
        }
    }
}

/// `line_of` designates an existing line that contains the offset (or ends
/// right at it, for the buffer length).
pub proof fn lemma_line_of_correct(buf: Seq<u8>, off: int)
    requires
        0 <= off <= buf.len(),
        buf.len() > 0,
    ensures
        line_exists(buf, line_of(buf, off)),
        line_start(buf, line_of(buf, off)) <= off,
        off < line_start(buf, line_of(buf, off) + 1) || line_start(buf, line_of(buf, off) + 1)
            == buf.len(),
    decreases off,
{
    if off == 0 {
        lemma_line_start_step(buf, 0);
    } else {
        lemma_line_of_correct(buf, off - 1);
        let prev = line_of(buf, off - 1);
        if line_exists(buf, prev + 1) && line_start(buf, prev + 1) <= off {
            // the new line begins exactly at `off`
            assert(line_start(buf, prev + 1) == off);
            lemma_line_start_step(buf, prev + 1);
        }
    }
}

/// Only one line index satisfies the containment characterization.
pub proof fn lemma_lineno_unique(buf: Seq<u8>, off: int, r1: nat, r2: nat)
    requires
        line_exists(buf, r1),
        line_start(buf, r1) <= off,
        off < line_start(buf, r1 + 1) || line_start(buf, r1 + 1) == buf.len(),
        line_exists(buf, r2),
        line_start(buf, r2) <= off,
        off < line_start(buf, r2 + 1) || line_start(buf, r2 + 1) == buf.len(),
    ensures
        r1 == r2,
{
    if r1 < r2 {
        lemma_line_start_mono(buf, r1 + 1, r2);
        assert(false);
    }
    if r2 < r1 {
        lemma_line_start_mono(buf, r2 + 1, r1);
        assert(false);
    }
}

/// Cache of the line starts discovered so far in a byte buffer.
///
/// `starts[i]` is the offset of line `i`; `offset` is the frontier, i.e. the
/// start of the first line not yet discovered (or the buffer length once the
/// whole buffer has been consumed).
pub struct Lines {
    starts: Vec<usize>,
    offset: usize,
}

impl Lines {
    /// The index is consistent with the buffer `buf`.
    pub closed spec fn wf(self, buf: Seq<u8>) -> bool {
        &&& forall|i: int|
            0 <= i < self.starts@.len() ==> #[trigger] (self.starts@[i] as int) == line_start(
                buf,
                i as nat,
            ) && line_exists(buf, i as nat)
        &&& self.offset as int == line_start(buf, self.starts@.len() as nat)
    }

    /// Create an empty index for a buffer.
    pub fn new(buf: &[u8]) -> (r: Lines)
        ensures
            r.wf(buf@),
    {
        Lines { starts: Vec::new(), offset: 0 }
    }

    /// Discover lines until line `lineno` is available; report whether the
    /// buffer has that many lines.
    fn advance_to_line(&mut self, buf: &[u8], lineno: usize) -> (r: bool)
        requires
            old(self).wf(buf@),
        ensures
            final(self).wf(buf@),
            r == line_exists(buf@, lineno as nat),
            r ==> final(self).starts@.len() > lineno as int,
            final(self).offset >= old(self).offset,
            final(self).starts@.len() >= old(self).starts@.len(),
    {
        while self.starts.len() <= lineno
            invariant
                self.wf(buf@),
                self.offset >= old(self).offset,
                self.starts@.len() >= old(self).starts@.len(),
            decreases buf@.len() - self.offset,
        {
            let ghost n = self.starts@.len() as nat;
            if self.offset == buf.len() {
                proof {
                    lemma_line_start_saturates(buf@, n, lineno as nat);
                }
                return false;
            }
            let mut j = self.offset;
            while j < buf.len() && buf[j] != 10u8
                invariant
                    self.offset <= j <= buf@.len(),
                    forall|q: int| self.offset <= q < j ==> buf@[q] != 10u8,
                decreases buf@.len() - j,
            {
                j = j + 1;
            }
            proof {
                lemma_next_newline_unique(buf@, self.offset as int, j as int);
            }
            self.starts.push(self.offset);
            if j < buf.len() {
                self.offset = j + 1;
            } else {
                self.offset = buf.len();
            }
            proof {
                lemma_line_start_step(buf@, n);
                assert(self.offset as int == line_start(buf@, n + 1));
            }
        }
        assert(self.starts@[lineno as int] as int == line_start(buf@, lineno as nat));
        true
    }

    /// Discover lines until the frontier has moved past `offset` (or the
    /// whole buffer has been consumed).
    fn advance_past_offset(&mut self, buf: &[u8], offset: usize)
        requires
            old(self).wf(buf@),
            offset <= buf@.len(),
        ensures
            final(self).wf(buf@),
            final(self).offset > offset || final(self).offset == buf@.len(),
    {
        while self.offset <= offset && self.offset < buf.len()
            invariant
                self.wf(buf@),
                offset <= buf@.len(),
            decreases buf@.len() - self.offset,
        {
            let ghost old_off = self.offset;
            let n = self.starts.len();
            assert(line_exists(buf@, n as nat));
            let ok = self.advance_to_line(buf, n);
            proof {
                lemma_line_start_step(buf@, n as nat);
                lemma_line_start_mono(buf@, n as nat + 1, self.starts@.len() as nat);
            }
            assert(self.offset > old_off);
        }
    }

    /// 0-based index of the line containing byte `offset`.
    ///
    /// An offset equal to the buffer length is attributed to the last line;
    /// on an empty buffer the result is 0.
    pub fn get_lineno(&mut self, buf: &[u8], offset: usize) -> (r: usize)
        requires
            old(self).wf(buf@),
            offset <= buf@.len(),
        ensures
            final(self).wf(buf@),
            buf@.len() == 0 ==> r == 0,
            buf@.len() > 0 ==> {
                &&& line_exists(buf@, r as nat)
                &&& line_start(buf@, r as nat) <= offset
                &&& (offset < line_start(buf@, r as nat + 1) || line_start(buf@, r as nat + 1)
                    == buf@.len())
            },
    {
        self.advance_past_offset(buf, offset);
        let mut i = self.starts.len();
        while i > 0
            invariant
                self.wf(buf@),
                i <= self.starts@.len(),
                self.offset > offset || self.offset == buf@.len(),
                forall|k: int| i <= k < self.starts@.len() ==> self.starts@[k] > offset,
            decreases i,
        {
            i = i - 1;
            if self.starts[i] <= offset {
                proof {
                    assert(self.starts@[i as int] as int == line_start(buf@, i as nat));
                    if i + 1 < self.starts@.len() {
                        assert(self.starts@[i as int + 1] as int == line_start(
                            buf@,
                            i as nat + 1,
                        ));
                        assert(self.starts@[i as int + 1] > offset);
                    } else {
                        assert(self.offset as int == line_start(buf@, i as nat + 1));
                    }
                }
                return i;
            }
        }
        proof {
            if self.starts@.len() > 0 {
                assert(self.starts@[0] as int == line_start(buf@, 0));
                assert(self.starts@[0] > offset);
            } else {
                assert(self.offset as int == line_start(buf@, 0));
                assert(self.offset == 0);
                assert(buf@.len() == 0);
            }
        }
        0
    }

    /// Byte offset at which line `lineno` starts; the buffer length if the
    /// buffer has fewer lines.
    pub fn get_offset(&mut self, buf: &[u8], lineno: usize) -> (r: usize)
        requires
            old(self).wf(buf@),
        ensures
            final(self).wf(buf@),
            r as int == line_start(buf@, lineno as nat),
    {
        if self.advance_to_line(buf, lineno) {
            self.starts[lineno]
        } else {
            proof {
                lemma_line_start_bounds(buf@, lineno as nat);
            }
            buf.len()
        }
    }

    /// The bytes of line `lineno`, without the terminating newline, or
    /// `None` if the buffer has fewer lines.
    pub fn get_line(&mut self, buf: &[u8], lineno: usize) -> (r: Option<Vec<u8>>)
        requires
            old(self).wf(buf@),
        ensures
            final(self).wf(buf@),
            r is Some <==> line_exists(buf@, lineno as nat),
            r matches Some(l) ==> l@ == line_content(buf@, lineno as nat),
    {
        if self.advance_to_line(buf, lineno) {
            let start = self.starts[lineno];
            let n = self.starts.len();
            let raw_end = if lineno < n - 1 {
                self.starts[lineno + 1]
            } else {
                self.offset
            };
            proof {
                lemma_line_start_step(buf@, lineno as nat);
                lemma_line_start_mono(buf@, lineno as nat + 1, self.starts@.len() as nat);
                lemma_next_newline(buf@, start as int);
            }
            assert(raw_end as int == line_start(buf@, lineno as nat + 1));
            let cend = if raw_end > start && buf[raw_end - 1] == 10u8 {
                raw_end - 1
            } else {
                raw_end
            };
            proof {
                let nn = next_newline(buf@, start as int);
                if nn < buf@.len() {
                    assert(raw_end == nn + 1);
                } else {
                    assert(raw_end == buf@.len());
                    assert(raw_end > start);
                    assert(buf@[raw_end - 1] != 10u8);
                }
                assert(cend as int == nn);
            }
            let sl = vstd::slice::slice_subrange(buf, start, cend);
            let v = vstd::slice::slice_to_vec(sl);
            Some(v)
        } else {
            None
        }
    }
}

} // verus!
