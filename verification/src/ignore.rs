//! Parsing gitignore-style pattern files and testing paths against a stack
//! of per-directory rule sets.
//!
//! Rule sets keep literal file names and extensions apart from real glob
//! patterns; glob matching itself is done by the glob engine, whose verdict
//! is named but not modelled.

use vstd::prelude::*;
use vstd::string::StringExecFns;

use crate::chars::chars_of;

verus! {

/// Whether the glob pattern (given by its source text) matches the path,
/// with `/` a literal separator and matching case-sensitive.
pub uninterp spec fn glob_match(pattern: Seq<char>, path: Seq<char>) -> bool;

/// Whether the glob engine accepts the pattern source; acceptance depends on
/// the text alone.
pub uninterp spec fn glob_ok(pattern: Seq<char>) -> bool;

#[verifier::external_type_specification]
#[verifier::external_body]
pub struct ExGlobPatternInner(glob::Pattern);

/// Relies on glob::Pattern::new: compiles the pattern source, or rejects it;
/// which of the two happens is a function of the text.
#[verifier::external_body]
fn glob_compile(s: &str) -> (r: Option<glob::Pattern>)
    ensures
        r is Some <==> glob_ok(s@),
{
    glob::Pattern::new(s).ok()
}

/// A compiled glob pattern together with its source text.
pub struct GlobPattern {
    source: String,
    inner: glob::Pattern,
}

impl View for GlobPattern {
    type V = Seq<char>;

    closed spec fn view(&self) -> Seq<char> {
        self.source@
    }
}

impl GlobPattern {
    /// Compile a pattern; succeeds exactly when the glob engine accepts the
    /// source.
    pub fn new(s: &str) -> (r: Option<GlobPattern>)
        ensures
            r is Some <==> glob_ok(s@),
            r matches Some(p) ==> p@ == s@,
    {
        match glob_compile(s) {
            Some(inner) => Some(GlobPattern { source: s.to_owned(), inner }),
            None => None,
        }
    }

    /// Relies on glob::Pattern::matches_with, with case-sensitive matching
    /// and `/` matched only literally; `inner` was compiled from `source`
    /// by the only constructor, so the verdict is a function of the source
    /// text and the path.
    #[verifier::external_body]
    pub(crate) fn matches(&self, path: &str) -> (r: bool)
        ensures
            r == glob_match(self@, path@),
    {
        self.inner.matches_with(
            path,
            glob::MatchOptions {
                case_sensitive: true,
                require_literal_separator: true,
                require_literal_leading_dot: false,
            },
        )
    }
}

/// Whether the character counts as whitespace when trimming a line; the
/// answer depends on the character alone.
pub uninterp spec fn whitespace_char(c: char) -> bool;

/// Relies on char::is_whitespace: a property of the character alone.
#[verifier::external_body]
fn char_is_whitespace(c: char) -> (r: bool)
    ensures
        r == whitespace_char(c),
{
    c.is_whitespace()
}

/// The sequence without leading whitespace.
pub open spec fn trim_front(s: Seq<char>) -> Seq<char>
    decreases s.len(),
{
    if s.len() > 0 && whitespace_char(s.first()) {
        trim_front(s.drop_first())
    } else {
        s
    }
}

/// The sequence without trailing whitespace.
pub open spec fn trim_back(s: Seq<char>) -> Seq<char>
    decreases s.len(),
{
    if s.len() > 0 && whitespace_char(s.last()) {
        trim_back(s.drop_last())
    } else {
        s
    }
}

/// The line with whitespace removed from both ends.
pub open spec fn trimmed(s: Seq<char>) -> Seq<char> {
    trim_back(trim_front(s))
}

/// Trim a character vector on both sides.
fn trim_chars(v: &Vec<char>) -> (r: Vec<char>)
    ensures
        r@ == trimmed(v@),
{
    proof {
        assert(v@.subrange(0, v@.len() as int) =~= v@);
    }
    let mut lo: usize = 0;
    while lo < v.len() && char_is_whitespace(v[lo])
        invariant
            lo <= v@.len(),
            trim_front(v@) == trim_front(v@.subrange(lo as int, v@.len() as int)),
        decreases v@.len() - lo,
    {
        proof {
            let tail = v@.subrange(lo as int, v@.len() as int);
            assert(tail.drop_first() =~= v@.subrange(lo as int + 1, v@.len() as int));
        }
        lo = lo + 1;
    }
    let mut hi: usize = v.len();
    while hi > lo && char_is_whitespace(v[hi - 1])
        invariant
            lo <= hi <= v@.len(),
            trim_front(v@) == trim_front(v@.subrange(lo as int, v@.len() as int)),
            lo < v@.len() ==> !whitespace_char(v@[lo as int]),
            trim_back(v@.subrange(lo as int, v@.len() as int)) == trim_back(
                v@.subrange(lo as int, hi as int),
            ),
        decreases hi,
    {
        proof {
            let part = v@.subrange(lo as int, hi as int);
            assert(part.drop_last() =~= v@.subrange(lo as int, hi as int - 1));
        }
        hi = hi - 1;
    }
    let mut r: Vec<char> = Vec::new();
    let mut i = lo;
    while i < hi
        invariant
            lo <= i <= hi <= v@.len(),
            r@ == v@.subrange(lo as int, i as int),
        decreases hi - i,
    {
        r.push(v[i]);
        proof {
            assert(v@.subrange(lo as int, i as int + 1) =~= v@.subrange(lo as int, i as int).push(
                v@[i as int],
            ));
        }
        i = i + 1;
    }
    proof {
        let part = v@.subrange(lo as int, hi as int);
        if hi > lo {
            assert(!whitespace_char(part.first()));
            assert(!whitespace_char(part.last()));
        }
        assert(trim_front(part) == part);
        assert(trim_back(part) == part);
        assert(trimmed(v@) == part);
    }
    r
}

/// A name with none of the glob metacharacters, usable as a literal
/// filename rule.
pub open spec fn literal_filename(s: Seq<char>) -> bool {
    forall|i: int|
        0 <= i < s.len() ==> !((#[trigger] s[i]) == '*' || s[i] == '?' || s[i] == '[' || s[i] == ']'
            || s[i] == '/')
}

/// An extension with no glob metacharacters and no further dot.
pub open spec fn literal_extension(s: Seq<char>) -> bool {
    forall|i: int|
        0 <= i < s.len() ==> !((#[trigger] s[i]) == '*' || s[i] == '?' || s[i] == '[' || s[i] == ']'
            || s[i] == '/' || s[i] == '.')
}

fn is_literal_filename(v: &Vec<char>) -> (r: bool)
    ensures
        r == literal_filename(v@),
{
    let mut i: usize = 0;
    while i < v.len()
        invariant
            i <= v@.len(),
            forall|j: int|
                0 <= j < i ==> !((#[trigger] v@[j]) == '*' || v@[j] == '?' || v@[j] == '[' || v@[j]
                    == ']' || v@[j] == '/'),
        decreases v@.len() - i,
    {
        let c = v[i];
        if c == '*' || c == '?' || c == '[' || c == ']' || c == '/' {
            return false;
        }
        i = i + 1;
    }
    true
}

fn is_literal_extension(v: &Vec<char>) -> (r: bool)
    ensures
        r == literal_extension(v@),
{
    let mut i: usize = 0;
    while i < v.len()
        invariant
            i <= v@.len(),
            forall|j: int|
                0 <= j < i ==> !((#[trigger] v@[j]) == '*' || v@[j] == '?' || v@[j] == '[' || v@[j]
                    == ']' || v@[j] == '/' || v@[j] == '.'),
        decreases v@.len() - i,
    {
        let c = v[i];
        if c == '*' || c == '?' || c == '[' || c == ']' || c == '/' || c == '.' {
            return false;
        }
        i = i + 1;
    }
    true
}

/// A pattern line as handed to the glob engine: patterns not anchored to
/// the rule set's root are made to match at any depth.
pub open spec fn anchored(t: Seq<char>) -> Seq<char> {
    if t.len() > 0 && t[0] == '/' {
        t
    } else {
        "**/"@ + t
    }
}

/// Represents the ignore patterns for one directory, the `root`.
pub struct Ignores {
    /// Path patterns are relative to this directory
    pub root: String,
    /// Literal filenames to exclude
    pub filenames: Vec<String>,
    /// Literal file extensions to exclude
    pub extensions: Vec<String>,
    /// Patterns to exclude (can have paths)
    pub patterns: Vec<GlobPattern>,
    /// "Negated patterns": matched after a file would be excluded;
    /// if one matches, the exclusion is canceled
    pub negated_patterns: Vec<GlobPattern>,
}

/// Line classes of a gitignore-style file, after trimming: blank lines and
/// comments are skipped; `!` introduces a negated pattern; a name without
/// metacharacters is a literal filename; `*.ext` with a literal extension
/// is an extension rule; everything else is a glob pattern.
pub open spec fn gi_skip(t: Seq<char>) -> bool {
    t.len() == 0 || t[0] == '#'
}

pub open spec fn gi_negated(t: Seq<char>) -> bool {
    !gi_skip(t) && t[0] == '!'
}

pub open spec fn gi_filename(t: Seq<char>) -> bool {
    !gi_skip(t) && !gi_negated(t) && literal_filename(t)
}

pub open spec fn gi_extension(t: Seq<char>) -> bool {
    &&& !gi_skip(t)
    &&& !gi_negated(t)
    &&& !gi_filename(t)
    &&& t.len() >= 2
    &&& t[0] == '*'
    &&& t[1] == '.'
    &&& literal_extension(t.subrange(2, t.len() as int))
}

pub open spec fn gi_pattern(t: Seq<char>) -> bool {
    !gi_skip(t) && !gi_negated(t) && !gi_filename(t) && !gi_extension(t)
}

/// The literal filename rules of a line list, in order.
pub open spec fn filenames_fold(lines: Seq<Seq<char>>) -> Seq<Seq<char>>
    decreases lines.len(),
{
    if lines.len() == 0 {
        Seq::empty()
    } else {
        let rest = filenames_fold(lines.drop_last());
        let t = trimmed(lines.last());
        if gi_filename(t) {
            rest.push(t)
        } else {
            rest
        }
    }
}

/// The literal extension rules of a line list, in order.
pub open spec fn extensions_fold(lines: Seq<Seq<char>>) -> Seq<Seq<char>>
    decreases lines.len(),
{
    if lines.len() == 0 {
        Seq::empty()
    } else {
        let rest = extensions_fold(lines.drop_last());
        let t = trimmed(lines.last());
        if gi_extension(t) {
            rest.push(t.subrange(2, t.len() as int))
        } else {
            rest
        }
    }
}

/// The sources of the glob pattern rules of a line list, in order: the
/// anchored text of every pattern line the glob engine accepts.
pub open spec fn patterns_fold(lines: Seq<Seq<char>>) -> Seq<Seq<char>>
    decreases lines.len(),
{
    if lines.len() == 0 {
        Seq::empty()
    } else {
        let rest = patterns_fold(lines.drop_last());
        let t = trimmed(lines.last());
        if gi_pattern(t) && glob_ok(anchored(t)) {
            rest.push(anchored(t))
        } else {
            rest
        }
    }
}

/// The sources of the negated pattern rules of a line list, in order.
pub open spec fn negated_fold(lines: Seq<Seq<char>>) -> Seq<Seq<char>>
    decreases lines.len(),
{
    if lines.len() == 0 {
        Seq::empty()
    } else {
        let rest = negated_fold(lines.drop_last());
        let t = trimmed(lines.last());
        if gi_negated(t) && glob_ok(anchored(t.drop_first())) {
            rest.push(anchored(t.drop_first()))
        } else {
            rest
        }
    }
}

/// How one trimmed gitignore line changes a rule set: nothing for a blank
/// or comment line; one literal name, one extension, or one compiled
/// pattern appended for the respective classes. A glob line the engine
/// rejects leaves the set unchanged.
pub open spec fn gi_line_effect(pre: Ignores, post: Ignores, t: Seq<char>) -> bool {
    if gi_skip(t) {
        &&& post.filenames@ == pre.filenames@
    &&& post.extensions@ == pre.extensions@
    &&& post.patterns@ == pre.patterns@
    &&& post.negated_patterns@ == pre.negated_patterns@
    } else if gi_negated(t) {
        &&& post.filenames@ == pre.filenames@
    &&& post.extensions@ == pre.extensions@
    &&& post.patterns@ == pre.patterns@
    &&& if glob_ok(anchored(t.drop_first())) {
        post.negated_patterns@.len() == pre.negated_patterns@.len() + 1
            && post.negated_patterns@.drop_last() == pre.negated_patterns@
            && post.negated_patterns@.last()@ == anchored(t.drop_first())
    } else {
        post.negated_patterns@ == pre.negated_patterns@
    }
    } else if gi_filename(t) {
        &&& post.filenames@.len() == pre.filenames@.len() + 1
    &&& post.filenames@.drop_last() == pre.filenames@
    &&& post.filenames@.last()@ == t
    &&& post.extensions@ == pre.extensions@
    &&& post.patterns@ == pre.patterns@
    &&& post.negated_patterns@ == pre.negated_patterns@
    } else if gi_extension(t) {
        &&& post.filenames@ == pre.filenames@
    &&& post.extensions@.len() == pre.extensions@.len() + 1
    &&& post.extensions@.drop_last() == pre.extensions@
    &&& post.extensions@.last()@ == t.subrange(2, t.len() as int)
    &&& post.patterns@ == pre.patterns@
    &&& post.negated_patterns@ == pre.negated_patterns@
    } else {
        &&& post.filenames@ == pre.filenames@
    &&& post.extensions@ == pre.extensions@
    &&& post.negated_patterns@ == pre.negated_patterns@
    &&& if glob_ok(anchored(t)) {
        post.patterns@.len() == pre.patterns@.len() + 1 && post.patterns@.drop_last()
            == pre.patterns@ && post.patterns@.last()@ == anchored(t)
    } else {
        post.patterns@ == pre.patterns@
    }
    }
}

impl Ignores {
    /// An empty rule set for a directory.
    pub fn new(root: String) -> (r: Ignores)
        ensures
            r.root == root,
            r.filenames@.len() == 0,
            r.extensions@.len() == 0,
            r.patterns@.len() == 0,
            r.negated_patterns@.len() == 0,
    {
        Ignores {
            root,
            filenames: Vec::new(),
            extensions: Vec::new(),
            patterns: Vec::new(),
            negated_patterns: Vec::new(),
        }
    }

    /// Add one line of a gitignore-style file to the rule set. A malformed
    /// glob (one the engine rejects) is silently dropped.
    pub fn add_git_line(&mut self, line: &str)
        ensures
            final(self).root == old(self).root,
            gi_line_effect(*old(self), *final(self), trimmed(line@)),
    {
        let raw = chars_of(line);
        let t = trim_chars(&raw);
        if t.len() == 0 || t[0] == '#' {
            // empty line or comment, ignore
            return ;
        }
        if t[0] == '!' {
            // negated pattern (no special casing for filenames/exts here)
            let mut rest: Vec<char> = Vec::new();
            let mut i: usize = 1;
            while i < t.len()
                invariant
                    1 <= i <= t@.len(),
                    rest@ == t@.subrange(1, i as int),
                decreases t@.len() - i,
            {
                rest.push(t[i]);
                proof {
                    assert(t@.subrange(1, i as int + 1) =~= t@.subrange(1, i as int).push(
                        t@[i as int],
                    ));
                }
                i = i + 1;
            }
            proof {
                assert(rest@ =~= t@.drop_first());
            }
            let ghost old_neg = self.negated_patterns@;
            match Self::compile_anchored(&rest) {
                Some(p) => {
                    self.negated_patterns.push(p);
                    proof {
                        assert(self.negated_patterns@.drop_last() =~= old_neg);
                    }
                },
                None => {},
            }
        } else if is_literal_filename(&t) {
            // simple filename
            let ghost old_f = self.filenames@;
            let s = crate::chars::chars_to_string(&t);
            self.filenames.push(s);
            proof {
                assert(self.filenames@.drop_last() =~= old_f);
                assert(self.filenames@.last()@ == t@);
            }
        } else {
            let mut is_ext = false;
            let mut ext: Vec<char> = Vec::new();
            if t.len() >= 2 && t[0] == '*' && t[1] == '.' {
                let mut i: usize = 2;
                while i < t.len()
                    invariant
                        2 <= i <= t@.len(),
                        t@.len() >= 2,
                        ext@ == t@.subrange(2, i as int),
                    decreases t@.len() - i,
                {
                    ext.push(t[i]);
                    proof {
                        assert(t@.subrange(2, i as int + 1) =~= t@.subrange(2, i as int).push(
                            t@[i as int],
                        ));
                    }
                    i = i + 1;
                }
                is_ext = is_literal_extension(&ext);
            }
            if is_ext {
                // simple *.ext
                let ghost old_e = self.extensions@;
                let s = crate::chars::chars_to_string(&ext);
                self.extensions.push(s);
                proof {
                    assert(self.extensions@.drop_last() =~= old_e);
                    assert(self.extensions@.last()@ == t@.subrange(2, t@.len() as int));
                }
            } else {
                // complex non-negated pattern
                let ghost old_pat = self.patterns@;
                match Self::compile_anchored(&t) {
                    Some(p) => {
                        self.patterns.push(p);
                        proof {
                            assert(self.patterns@.drop_last() =~= old_pat);
                        }
                    },
                    None => {},
                }
            }
        }
    }

    /// Compile a pattern line, anchoring unanchored ones so they match at
    /// any depth below the rule set's root.
    fn compile_anchored(t: &Vec<char>) -> (r: Option<GlobPattern>)
        ensures
            r is Some <==> glob_ok(anchored(t@)),
            r matches Some(p) ==> p@ == anchored(t@),
    {
        let s = crate::chars::chars_to_string(t);
        if t.len() > 0 && t[0] == '/' {
            GlobPattern::new(s.as_str())
        } else {
            let mut a = String::from_str("**/");
            a.append(s.as_str());
            GlobPattern::new(a.as_str())
        }
    }

    /// Build the rule set of a directory from the lines of its ignore
    /// files: the literal rules and the pattern rules (by their sources) are
    /// exactly the folds of the lines.
    pub fn from_lines(root: String, lines: &Vec<String>) -> (r: Ignores)
        ensures
            r.root == root,
            r.filenames.deep_view() == filenames_fold(lines.deep_view()),
            r.extensions.deep_view() == extensions_fold(lines.deep_view()),
            r.patterns@.len() == patterns_fold(lines.deep_view()).len(),
            forall|j: int|
                0 <= j < r.patterns@.len() ==> (#[trigger] r.patterns@[j])@ == patterns_fold(
                    lines.deep_view(),
                )[j],
            r.negated_patterns@.len() == negated_fold(lines.deep_view()).len(),
            forall|j: int|
                0 <= j < r.negated_patterns@.len() ==> (#[trigger] r.negated_patterns@[j])@
                    == negated_fold(lines.deep_view())[j],
    {
        let mut r = Ignores::new(root);
        let mut i: usize = 0;
        while i < lines.len()
            invariant
                i <= lines@.len(),
                r.root == root,
                r.filenames.deep_view() == filenames_fold(lines.deep_view().take(i as int)),
                r.extensions.deep_view() == extensions_fold(lines.deep_view().take(i as int)),
                r.patterns@.len() == patterns_fold(lines.deep_view().take(i as int)).len(),
                forall|j: int|
                    0 <= j < r.patterns@.len() ==> (#[trigger] r.patterns@[j])@ == patterns_fold(
                        lines.deep_view().take(i as int),
                    )[j],
                r.negated_patterns@.len() == negated_fold(lines.deep_view().take(i as int)).len(),
                forall|j: int|
                    0 <= j < r.negated_patterns@.len() ==> (#[trigger] r.negated_patterns@[j])@
                        == negated_fold(lines.deep_view().take(i as int))[j],
            decreases lines@.len() - i,
        {
            let ghost pre = r;
            proof {
                assert(lines.deep_view()[i as int] == lines@[i as int]@);
                assert(lines.deep_view().take(i as int + 1).drop_last() =~= lines.deep_view().take(
                    i as int,
                ));
                assert(lines.deep_view().take(i as int + 1).last() == lines.deep_view()[i as int]);
            }
            r.add_git_line(lines[i].as_str());
            proof {
                let t = trimmed(lines.deep_view()[i as int]);
                if gi_filename(t) {
                    assert(r.filenames.deep_view() =~= pre.filenames.deep_view().push(t));
                } else {
                    assert(r.filenames.deep_view() =~= pre.filenames.deep_view());
                }
                if gi_extension(t) {
                    assert(r.extensions.deep_view() =~= pre.extensions.deep_view().push(
                        t.subrange(2, t.len() as int),
                    ));
                } else {
                    assert(r.extensions.deep_view() =~= pre.extensions.deep_view());
                }
                if r.patterns@.len() > pre.patterns@.len() {
                    assert(forall|j: int|
                        0 <= j < pre.patterns@.len() ==> #[trigger] r.patterns@[j]
                            == r.patterns@.drop_last()[j]);
                    assert(r.patterns@.last()@ == anchored(t));
                }
                if r.negated_patterns@.len() > pre.negated_patterns@.len() {
                    assert(forall|j: int|
                        0 <= j < pre.negated_patterns@.len() ==> #[trigger] r.negated_patterns@[j]
                            == r.negated_patterns@.drop_last()[j]);
                    assert(r.negated_patterns@.last()@ == anchored(t.drop_first()));
                }
            }
            i = i + 1;
        }
        proof {
            assert(lines.deep_view().take(lines@.len() as int) =~= lines.deep_view());
        }
        r
    }
}

/// The file name of a path: everything after the last separator.
pub open spec fn basename(p: Seq<char>) -> Seq<char>
    decreases p.len(),
{
    if p.len() == 0 {
        p
    } else if p.last() == '/' {
        Seq::empty()
    } else {
        basename(p.drop_last()).push(p.last())
    }
}

/// The extension of a file name: everything after the last dot, provided
/// the dot is not the name's first character.
pub open spec fn ext_of_name(b: Seq<char>) -> Option<Seq<char>>
    decreases b.len(),
{
    if b.len() == 0 {
        None
    } else if b.last() == '.' {
        if b.len() >= 2 {
            Some(Seq::empty())
        } else {
            None
        }
    } else {
        match ext_of_name(b.drop_last()) {
            Some(e) => Some(e.push(b.last())),
            None => None,
        }
    }
}

/// The extension of a path: everything after the last dot of the file name
/// (provided the dot is not the name's first character); the name-less
/// paths, and the special names `.` and `..`, have none.
pub open spec fn extension(p: Seq<char>) -> Option<Seq<char>> {
    let b = basename(p);
    if b.len() == 0 || b == seq!['.'] || b == seq!['.', '.'] {
        None
    } else {
        ext_of_name(b)
    }
}

pub proof fn lemma_basename_after_slash(p: Seq<char>, j: int)
    requires
        0 <= j < p.len(),
        p[j] == '/',
        forall|q: int| j < q < p.len() ==> p[q] != '/',
    ensures
        basename(p) == p.subrange(j + 1, p.len() as int),
    decreases p.len(),
{
    if j == p.len() - 1 {
        assert(p.subrange(j + 1, p.len() as int) =~= Seq::<char>::empty());
    } else {
        lemma_basename_after_slash(p.drop_last(), j);
        assert(p.drop_last().subrange(j + 1, p.len() - 1).push(p.last()) =~= p.subrange(
            j + 1,
            p.len() as int,
        ));
    }
}

pub proof fn lemma_basename_no_slash(p: Seq<char>)
    requires
        forall|q: int| 0 <= q < p.len() ==> p[q] != '/',
    ensures
        basename(p) == p,
    decreases p.len(),
{
    if p.len() > 0 {
        lemma_basename_no_slash(p.drop_last());
        assert(p.drop_last().push(p.last()) =~= p);
    }
}

pub proof fn lemma_ext_at_dot(b: Seq<char>, d: int)
    requires
        1 <= d < b.len(),
        b[d] == '.',
        forall|q: int| d < q < b.len() ==> b[q] != '.',
    ensures
        ext_of_name(b) == Some(b.subrange(d + 1, b.len() as int)),
    decreases b.len(),
{
    if d == b.len() - 1 {
        assert(b.subrange(d + 1, b.len() as int) =~= Seq::<char>::empty());
    } else {
        lemma_ext_at_dot(b.drop_last(), d);
        assert(b.drop_last().subrange(d + 1, b.len() - 1).push(b.last()) =~= b.subrange(
            d + 1,
            b.len() as int,
        ));
    }
}

pub proof fn lemma_ext_none(b: Seq<char>)
    requires
        forall|q: int| 1 <= q < b.len() ==> b[q] != '.',
    ensures
        ext_of_name(b) is None,
    decreases b.len(),
{
    if b.len() > 1 {
        assert(b[b.len() - 1] != '.');
        assert(forall|q: int| 1 <= q < b.len() - 1 ==> b.drop_last()[q] == b[q]);
        lemma_ext_none(b.drop_last());
        assert(ext_of_name(b.drop_last()) is None);
        assert(ext_of_name(b) is None);
    } else if b.len() == 1 {
        if b.last() == '.' {
            assert(ext_of_name(b) is None);
        } else {
            assert(b.drop_last() =~= Seq::<char>::empty());
            assert(ext_of_name(b.drop_last()) is None);
            assert(ext_of_name(b) is None);
        }
    }
}

/// Position of the first separator at or after `i`, or the length.
pub open spec fn comp_end(s: Seq<char>, i: int) -> int
    decreases s.len() - i,
{
    if i < 0 || i >= s.len() {
        s.len() as int
    } else if s[i] == '/' {
        i
    } else {
        comp_end(s, i + 1)
    }
}

pub proof fn lemma_comp_end(s: Seq<char>, i: int)
    requires
        0 <= i <= s.len(),
    ensures
        i <= comp_end(s, i) <= s.len(),
        comp_end(s, i) < s.len() ==> s[comp_end(s, i)] == '/',
        forall|q: int| i <= q < comp_end(s, i) ==> s[q] != '/',
        i < s.len() && s[i] != '/' ==> comp_end(s, i) > i,
    decreases s.len() - i,
{
    if i < s.len() && s[i] != '/' {
        lemma_comp_end(s, i + 1);
    }
}

/// `comp_end` is the only point not preceded by a separator (from `i` on)
/// that is itself a separator or the end.
pub proof fn lemma_comp_end_unique(s: Seq<char>, i: int, j: int)
    requires
        0 <= i <= j <= s.len(),
        forall|q: int| i <= q < j ==> s[q] != '/',
        j == s.len() || s[j] == '/',
    ensures
        j == comp_end(s, i),
    decreases j - i,
{
    if i < j {
        lemma_comp_end_unique(s, i + 1, j);
    }
}

#[via_fn]
proof fn comps_from_decreases(s: Seq<char>, i: int, first: bool) {
    if 0 <= i < s.len() && s[i] != '/' {
        lemma_comp_end(s, i);
    }
}

/// The path components from position `i` on: separators split, empty
/// components vanish, and a `.` component is dropped unless it stands first
/// on an unrooted path.
pub open spec fn comps_from(s: Seq<char>, i: int, first: bool) -> Seq<Seq<char>>
    decreases s.len() - i,
    via comps_from_decreases
{
    if i < 0 || i >= s.len() {
        Seq::empty()
    } else if s[i] == '/' {
        comps_from(s, i + 1, false)
    } else {
        let j = comp_end(s, i);
        let c = s.subrange(i, j);
        if c == seq!['.'] && !first {
            comps_from(s, j, false)
        } else {
            seq![c] + comps_from(s, j, false)
        }
    }
}

/// The components of a path; a leading separator counts as a root component.
pub open spec fn components(s: Seq<char>) -> Seq<Seq<char>> {
    if s.len() > 0 && s[0] == '/' {
        seq![seq!['/']] + comps_from(s, 1, false)
    } else {
        comps_from(s, 0, true)
    }
}

#[via_fn]
proof fn comp_start_from_decreases(s: Seq<char>, i: int, first: bool, k: int) {
    if 0 <= i < s.len() && s[i] != '/' {
        lemma_comp_end(s, i);
    }
}

/// Where the `k`-th component (0-based, counting from the state `i`/`first`)
/// begins, or the length when there are fewer components.
pub open spec fn comp_start_from(s: Seq<char>, i: int, first: bool, k: int) -> int
    decreases s.len() - i,
    via comp_start_from_decreases
{
    if i < 0 || i >= s.len() {
        s.len() as int
    } else if s[i] == '/' {
        comp_start_from(s, i + 1, false, k)
    } else {
        let j = comp_end(s, i);
        let c = s.subrange(i, j);
        if c == seq!['.'] && !first {
            comp_start_from(s, j, false, k)
        } else if k <= 0 {
            i
        } else {
            comp_start_from(s, j, false, k - 1)
        }
    }
}

/// Where the `k`-th component of the path begins; a root component begins
/// at 0.
pub open spec fn kth_comp_start(s: Seq<char>, k: int) -> int {
    if s.len() > 0 && s[0] == '/' {
        if k <= 0 {
            0
        } else {
            comp_start_from(s, 1, false, k - 1)
        }
    } else {
        comp_start_from(s, 0, true, k)
    }
}

pub proof fn lemma_comp_start_bounds(s: Seq<char>, i: int, first: bool, k: int)
    requires
        0 <= i <= s.len(),
    ensures
        i <= comp_start_from(s, i, first, k) <= s.len(),
    decreases s.len() - i,
{
    if 0 <= i < s.len() {
        if s[i] == '/' {
            lemma_comp_start_bounds(s, i + 1, false, k);
        } else {
            lemma_comp_end(s, i);
            let j = comp_end(s, i);
            let c = s.subrange(i, j);
            if c == seq!['.'] && !first {
                lemma_comp_start_bounds(s, j, false, k);
            } else if k > 0 {
                lemma_comp_start_bounds(s, j, false, k - 1);
            }
        }
    }
}

/// The path relative to `base`: defined when base's components are a prefix
/// of path's; the remainder is the tail of the path from the first component
/// past the prefix (empty when they are the same).
pub open spec fn rel_path_spec(path: Seq<char>, base: Seq<char>) -> Option<Seq<char>> {
    let pc = components(path);
    let bc = components(base);
    if bc.len() <= pc.len() && bc == pc.take(bc.len() as int) {
        Some(path.subrange(kth_comp_start(path, bc.len() as int), path.len() as int))
    } else {
        None
    }
}

/// Components are unchanged by cutting the text before the position, as long
/// as the leading-dot flag agrees.
pub proof fn lemma_comps_shift(s: Seq<char>, i: int, first: bool)
    requires
        0 <= i <= s.len(),
    ensures
        comps_from(s, i, first) == comps_from(s.subrange(i, s.len() as int), 0, first),
        comp_start_from(s, i, first, 0) == i + comp_start_from(
            s.subrange(i, s.len() as int),
            0,
            first,
            0,
        ),
    decreases s.len() - i,
{
    let t = s.subrange(i, s.len() as int);
    if i == s.len() {
        assert(t =~= Seq::<char>::empty());
    } else if s[i] == '/' {
        lemma_comps_shift(s, i + 1, false);
        let t2 = s.subrange(i + 1, s.len() as int);
        assert(t.subrange(1, t.len() as int) =~= t2);
        lemma_comps_shift(t, 1, false);
    } else {
        lemma_comp_end(s, i);
        let j = comp_end(s, i);
        lemma_comp_end_shift(s, i);
        let c = s.subrange(i, j);
        assert(t.subrange(0, j - i) =~= c);
        lemma_comps_shift(s, j, false);
        let t2 = s.subrange(j, s.len() as int);
        assert(t.subrange(j - i, t.len() as int) =~= t2);
        lemma_comps_shift(t, j - i, false);
    }
}

/// The end of the component at `i`, seen from the cut text.
proof fn lemma_comp_end_shift(s: Seq<char>, i: int)
    requires
        0 <= i < s.len(),
        s[i] != '/',
    ensures
        comp_end(s.subrange(i, s.len() as int), 0) == comp_end(s, i) - i,
{
    lemma_comp_end(s, i);
    let t = s.subrange(i, s.len() as int);
    let j = comp_end(s, i);
    assert(forall|q: int| 0 <= q < j - i ==> t[q] == s[i + q]);
    lemma_comp_end_unique(t, 0, j - i);
}

/// The leading-dot flag matters only when the component at hand is `.`.
proof fn lemma_comps_flag(s: Seq<char>, i: int)
    requires
        0 <= i <= s.len(),
        i < s.len() && s[i] != '/' ==> s.subrange(i, comp_end(s, i)) != seq!['.'],
    ensures
        comps_from(s, i, true) == comps_from(s, i, false),
        comp_start_from(s, i, true, 0) == comp_start_from(s, i, false, 0),
{
}

/// Cutting a path at the start of its `k`-th component leaves exactly the
/// components from `k` on.
pub proof fn lemma_comps_suffix(s: Seq<char>, i: int, first: bool, k: int)
    requires
        0 <= i <= s.len(),
        0 <= k <= comps_from(s, i, first).len(),
    ensures
        comps_from(s, i, first).skip(k) == components(
            s.subrange(comp_start_from(s, i, first, k), s.len() as int),
        ),
    decreases s.len() - i,
{
    lemma_comp_start_bounds(s, i, first, k);
    if i == s.len() {
        assert(s.subrange(comp_start_from(s, i, first, k), s.len() as int) =~= Seq::<
            char,
        >::empty());
        assert(comps_from(s, i, first).len() == 0);
        assert(k == 0);
        assert(comps_from(s, i, first).skip(k) =~= Seq::<Seq<char>>::empty());
        assert(components(Seq::<char>::empty()) =~= Seq::<Seq<char>>::empty());
    } else if s[i] == '/' {
        lemma_comps_suffix(s, i + 1, false, k);
    } else {
        lemma_comp_end(s, i);
        let j = comp_end(s, i);
        let c = s.subrange(i, j);
        if c == seq!['.'] && !first {
            lemma_comps_suffix(s, j, false, k);
        } else if k == 0 {
            // the remainder begins right here
            let t = s.subrange(i, s.len() as int);
            lemma_comps_shift(s, i, first);
            lemma_comp_end_shift(s, i);
            assert(t.subrange(0, j - i) =~= c);
            assert(t[0] == s[i]);
            assert(components(t) == comps_from(t, 0, true));
            if first {
                assert(comps_from(s, i, first).skip(0) =~= comps_from(s, i, first));
            } else {
                lemma_comps_flag(t, 0);
                assert(comps_from(s, i, false) == comps_from(t, 0, false));
                assert(comps_from(s, i, first).skip(0) =~= comps_from(s, i, first));
            }
        } else {
            lemma_comps_suffix(s, j, false, k - 1);
            assert((seq![c] + comps_from(s, j, false)).skip(k) =~= comps_from(s, j, false).skip(
                k - 1,
            ));
        }
    }
}

/// Cutting a path at the start of its `k`-th component leaves exactly the
/// components from `k` on.
pub proof fn lemma_rel_components(path: Seq<char>, k: int)
    requires
        0 <= k <= components(path).len(),
    ensures
        components(path).skip(k) == components(
            path.subrange(kth_comp_start(path, k), path.len() as int),
        ),
{
    if path.len() > 0 && path[0] == '/' {
        if k == 0 {
            assert(path.subrange(0, path.len() as int) =~= path);
            assert(components(path).skip(0) =~= components(path));
        } else {
            lemma_comps_suffix(path, 1, false, k - 1);
            assert(components(path).skip(k) =~= comps_from(path, 1, false).skip(k - 1));
        }
    } else {
        lemma_comps_suffix(path, 0, true, k);
    }
}

/// The character spans of a path's components: for each component its start
/// (which is the `kth_comp_start`) and its end; every later component index
/// starts at the end of the text.
fn comp_spans(v: &Vec<char>) -> (r: Vec<(usize, usize)>)
    ensures
        r@.len() == components(v@).len(),
        forall|j: int|
            0 <= j < r@.len() ==> v@.subrange((#[trigger] r@[j]).0 as int, r@[j].1 as int)
                == components(v@)[j] && r@[j].0 <= r@[j].1 <= v@.len() && r@[j].0 as int
                == kth_comp_start(v@, j),
        forall|k: int| k >= r@.len() ==> kth_comp_start(v@, k) == v@.len(),
{
    let n = v.len();
    let mut r: Vec<(usize, usize)> = Vec::new();
    let ghost mut done: Seq<Seq<char>> = Seq::empty();
    let mut i: usize = 0;
    let mut first = true;
    if n > 0 && v[0] == '/' {
        r.push((0, 1));
        proof {
            assert(v@.subrange(0, 1) =~= seq!['/']);
            done = seq![seq!['/']];
        }
        i = 1;
        first = false;
    }
    while i < n
        invariant
            n == v@.len(),
            i <= n,
            done.len() == r@.len(),
            done + comps_from(v@, i as int, first) == components(v@),
            forall|j: int|
                0 <= j < r@.len() ==> v@.subrange((#[trigger] r@[j]).0 as int, r@[j].1 as int)
                    == done[j] && r@[j].0 <= r@[j].1 <= v@.len() && r@[j].0 as int
                    == kth_comp_start(v@, j),
            forall|m: int|
                m >= 0 ==> #[trigger] comp_start_from(v@, i as int, first, m) == kth_comp_start(
                    v@,
                    r@.len() + m,
                ),
        decreases n - i,
    {
        if v[i] == '/' {
            proof {
                assert(comps_from(v@, i as int, first) == comps_from(v@, i as int + 1, false));
                assert forall|m: int| m >= 0 implies #[trigger] comp_start_from(
                    v@,
                    i as int + 1,
                    false,
                    m,
                ) == kth_comp_start(v@, r@.len() + m) by {
                    assert(comp_start_from(v@, i as int, first, m) == comp_start_from(
                        v@,
                        i as int + 1,
                        false,
                        m,
                    ));
                }
            }
            i = i + 1;
            first = false;
        } else {
            let mut j = i;
            while j < n && v[j] != '/'
                invariant
                    n == v@.len(),
                    i <= j <= n,
                    forall|q: int| i <= q < j ==> v@[q] != '/',
                decreases n - j,
            {
                j = j + 1;
            }
            proof {
                lemma_comp_end_unique(v@, i as int, j as int);
            }
            let dropped = j == i + 1 && v[i] == '.' && !first;
            proof {
                if dropped {
                    assert(v@.subrange(i as int, j as int) =~= seq!['.']);
                } else {
                    if j == i + 1 && v@[i as int] == '.' {
                        assert(first);
                    } else {
                        assert(v@.subrange(i as int, j as int) != seq!['.']) by {
                            if v@.subrange(i as int, j as int) == seq!['.'] {
                                assert(v@.subrange(i as int, j as int).len() == 1);
                                assert(v@.subrange(i as int, j as int)[0] == '.');
                                assert(v@[i as int] == '.');
                                assert(false);
                            }
                        }
                    }
                }
            }
            if !dropped {
                let ghost c = v@.subrange(i as int, j as int);
                r.push((i, j));
                proof {
                    assert(comps_from(v@, i as int, first) == seq![c] + comps_from(
                        v@,
                        j as int,
                        false,
                    ));
                    assert(comp_start_from(v@, i as int, first, 0) == i as int);
                    let ghost old_done = done;
                    done = done.push(c);
                    assert(done + comps_from(v@, j as int, false) =~= old_done + comps_from(
                        v@,
                        i as int,
                        first,
                    ));
                    assert forall|m: int| m >= 0 implies #[trigger] comp_start_from(
                        v@,
                        j as int,
                        false,
                        m,
                    ) == kth_comp_start(v@, r@.len() + m) by {
                        assert(comp_start_from(v@, i as int, first, m + 1) == comp_start_from(
                            v@,
                            j as int,
                            false,
                            m,
                        ));
                        assert(comp_start_from(v@, i as int, first, m + 1) == kth_comp_start(
                            v@,
                            r@.len() - 1 + (m + 1),
                        ));
                    }
                }
            } else {
                proof {
                    assert(comps_from(v@, i as int, first) == comps_from(v@, j as int, false));
                    assert forall|m: int| m >= 0 implies #[trigger] comp_start_from(
                        v@,
                        j as int,
                        false,
                        m,
                    ) == kth_comp_start(v@, r@.len() + m) by {
                        assert(comp_start_from(v@, i as int, first, m) == comp_start_from(
                            v@,
                            j as int,
                            false,
                            m,
                        ));
                    }
                }
            }
            i = j;
            first = false;
        }
    }
    proof {
        assert(comps_from(v@, n as int, first) =~= Seq::<Seq<char>>::empty());
        assert(done =~= components(v@));
        assert forall|k: int| k >= r@.len() implies kth_comp_start(v@, k) == v@.len() by {
            assert(comp_start_from(v@, n as int, first, k - r@.len()) == kth_comp_start(v@, k));
        }
    }
    r
}

/// Return the path relative to `base`, or `None` if `path` does not lie
/// under `base`: defined when base's components are a prefix of path's,
/// and then base's components followed by the result's are exactly path's.
pub fn relative_path_from<'a>(path: &'a str, base: &str) -> (r: Option<&'a str>)
    ensures
        r is Some <==> rel_path_spec(path@, base@) is Some,
        r matches Some(t) ==> Some(t@) == rel_path_spec(path@, base@),
        r matches Some(t) ==> components(base@) + components(t@) == components(path@),
{
    let pv = chars_of(path);
    let bv = chars_of(base);
    let ps = comp_spans(&pv);
    let bs = comp_spans(&bv);
    let ghost pc = components(path@);
    let ghost bc = components(base@);
    if bs.len() > ps.len() {
        return None;
    }
    let mut k: usize = 0;
    while k < bs.len()
        invariant
            pv@ == path@,
            bv@ == base@,
            ps@.len() == pc.len(),
            bs@.len() == bc.len(),
            bs@.len() <= ps@.len(),
            pc == components(path@),
            bc == components(base@),
            k <= bs@.len(),
            forall|w: int|
                0 <= w < ps@.len() ==> path@.subrange(
                    (#[trigger] ps@[w]).0 as int,
                    ps@[w].1 as int,
                ) == pc[w] && ps@[w].0 <= ps@[w].1 <= path@.len() && ps@[w].0 as int
                    == kth_comp_start(path@, w),
            forall|w: int|
                0 <= w < bs@.len() ==> base@.subrange(
                    (#[trigger] bs@[w]).0 as int,
                    bs@[w].1 as int,
                ) == bc[w] && bs@[w].0 <= bs@[w].1 <= base@.len(),
            forall|kk: int| kk >= ps@.len() ==> kth_comp_start(path@, kk) == path@.len(),
            forall|w: int| 0 <= w < k ==> bc[w] == pc[w],
        decreases bs@.len() - k,
    {
        let (ps0, ps1) = ps[k];
        let (bs0, bs1) = bs[k];
        if ps1 - ps0 != bs1 - bs0 {
            proof {
                assert(pc[k as int].len() == ps1 - ps0);
                assert(bc[k as int].len() == bs1 - bs0);
                assert(bc != pc.take(bc.len() as int)) by {
                    assert(pc.take(bc.len() as int)[k as int] == pc[k as int]);
                }
            }
            return None;
        }
        proof {
            assert(path@.subrange(ps@[k as int].0 as int, ps@[k as int].1 as int) == pc[k as int]);
            assert(base@.subrange(bs@[k as int].0 as int, bs@[k as int].1 as int) == bc[k as int]);
        }
        let mut q: usize = 0;
        while q < ps1 - ps0
            invariant
                pv@ == path@,
                bv@ == base@,
                pc == components(path@),
                bc == components(base@),
                ps@.len() == pc.len(),
                bs@.len() == bc.len(),
                k < bs@.len() <= ps@.len(),
                ps0 == ps@[k as int].0 && ps1 == ps@[k as int].1,
                bs0 == bs@[k as int].0 && bs1 == bs@[k as int].1,
                ps0 <= ps1 <= pv@.len(),
                bs0 <= bs1 <= bv@.len(),
                ps1 - ps0 == bs1 - bs0,
                path@.subrange(ps0 as int, ps1 as int) == pc[k as int],
                base@.subrange(bs0 as int, bs1 as int) == bc[k as int],
                q <= ps1 - ps0,
                forall|w: int| 0 <= w < q ==> #[trigger] path@[ps0 + w] == base@[bs0 + w],
            decreases ps1 - ps0 - q,
        {
            if pv[ps0 + q] != bv[bs0 + q] {
                proof {
                    assert(pc[k as int][q as int] == path@.subrange(ps0 as int, ps1 as int)[
                        q as int
                    ]);
                    assert(bc[k as int][q as int] == base@.subrange(bs0 as int, bs1 as int)[
                        q as int
                    ]);
                    assert(bc[k as int] != pc[k as int]);
                    assert(bc != pc.take(bc.len() as int)) by {
                        assert(pc.take(bc.len() as int)[k as int] == pc[k as int]);
                    }
                }
                return None;
            }
            q = q + 1;
        }
        proof {
            assert(bc[k as int] =~= pc[k as int]) by {
                assert(path@.subrange(ps@[k as int].0 as int, ps@[k as int].1 as int)
                    == pc[k as int]);
                assert(base@.subrange(bs@[k as int].0 as int, bs@[k as int].1 as int)
                    == bc[k as int]);
                assert(forall|w: int|
                    0 <= w < pc[k as int].len() ==> #[trigger] pc[k as int][w] == path@[ps0 + w]
                        && bc[k as int][w] == base@[bs0 + w]);
            }
        }
        k = k + 1;
    }
    proof {
        assert(bc =~= pc.take(bc.len() as int));
    }
    let start: usize = if bs.len() < ps.len() {
        let (s0, _s1) = ps[bs.len()];
        s0
    } else {
        pv.len()
    };
    proof {
        assert(start as int == kth_comp_start(path@, bc.len() as int));
        lemma_comp_start_bounds(path@, 0, true, 0);
    }
    let n = path.unicode_len();
    let t = path.substring_char(start, n);
    proof {
        assert(Some(t@) == rel_path_spec(path@, base@));
        lemma_rel_components(path@, bc.len() as int);
        assert(components(t@) == pc.skip(bc.len() as int));
        assert(bc + components(t@) =~= pc);
    }
    Some(t)
}

/// Whether the list of names holds the given text.
pub open spec fn name_in(list: Seq<String>, x: Seq<char>) -> bool {
    exists|i: int| 0 <= i < list.len() && (#[trigger] list[i])@ == x
}

fn contains_name(list: &Vec<String>, x: &String) -> (r: bool)
    ensures
        r == name_in(list@, x@),
{
    let mut i: usize = 0;
    while i < list.len()
        invariant
            i <= list@.len(),
            forall|j: int| 0 <= j < i ==> (#[trigger] list@[j])@ != x@,
        decreases list@.len() - i,
    {
        if list[i].eq(x) {
            return true;
        }
        i = i + 1;
    }
    false
}

/// Whether some pattern in the list matches the relative path.
pub open spec fn any_glob(pats: Seq<GlobPattern>, rel: Seq<char>) -> bool {
    exists|j: int| 0 <= j < pats.len() && glob_match((#[trigger] pats[j])@, rel)
}

fn any_glob_matches(pats: &Vec<GlobPattern>, rel: &str) -> (r: bool)
    ensures
        r == any_glob(pats@, rel@),
{
    let mut j: usize = 0;
    while j < pats.len()
        invariant
            j <= pats@.len(),
            forall|q: int| 0 <= q < j ==> !glob_match((#[trigger] pats@[q])@, rel@),
        decreases pats@.len() - j,
    {
        if pats[j].matches(rel) {
            return true;
        }
        j = j + 1;
    }
    false
}

/// Whether one rule set ignores the path: its basename is a literal
/// filename rule, or its extension a literal extension rule, or a pattern
/// matches the path relative to the set's root — unless a negated pattern
/// rescues it.
pub open spec fn set_ignores(ig: Ignores, path: Seq<char>) -> bool {
    let rel = rel_path_spec(path, ig.root@)->0;
    let pos = name_in(ig.filenames@, basename(path)) || (extension(path) matches Some(e) && name_in(
        ig.extensions@,
        e,
    )) || any_glob(ig.patterns@, rel);
    pos && !any_glob(ig.negated_patterns@, rel)
}

/// Whether the stack of rule sets ignores the path: some set does.
pub open spec fn is_ignored(stack: Seq<Ignores>, path: Seq<char>) -> bool {
    exists|i: int| 0 <= i < stack.len() && set_ignores(#[trigger] stack[i], path)
}

/// Match `path` against the ignore stack `ignores`, return true if a match
/// was found.
pub fn match_patterns(path: &str, ignores: &Vec<Ignores>) -> (r: bool)
    requires
        forall|i: int|
            0 <= i < ignores@.len() ==> ((#[trigger] ignores@[i]).patterns@.len() > 0
                || ignores@[i].negated_patterns@.len() > 0) ==> rel_path_spec(
                path@,
                ignores@[i].root@,
            ) is Some,
    ensures
        r == is_ignored(ignores@, path@),
{
    let pchars = chars_of(path);
    let pn = pchars.len();
    // find the basename: everything after the last separator
    let mut bstart: usize = 0;
    let mut q: usize = 0;
    while q < pn
        invariant
            pn == pchars@.len(),
            pchars@ == path@,
            bstart <= q <= pn,
            bstart > 0 ==> path@[bstart - 1] == '/',
            forall|w: int| bstart <= w < q ==> path@[w] != '/',
        decreases pn - q,
    {
        if pchars[q] == '/' {
            bstart = q + 1;
        }
        q = q + 1;
    }
    proof {
        if bstart > 0 {
            lemma_basename_after_slash(path@, bstart - 1);
        } else {
            lemma_basename_no_slash(path@);
        }
        assert(basename(path@) =~= path@.subrange(bstart as int, pn as int));
    }
    let mut bname_vec: Vec<char> = Vec::new();
    let mut w = bstart;
    while w < pn
        invariant
            bstart <= w <= pn,
            pn == pchars@.len(),
            pchars@ == path@,
            bname_vec@ == path@.subrange(bstart as int, w as int),
        decreases pn - w,
    {
        bname_vec.push(pchars[w]);
        proof {
            assert(path@.subrange(bstart as int, w as int + 1) =~= path@.subrange(
                bstart as int,
                w as int,
            ).push(path@[w as int]));
        }
        w = w + 1;
    }
    let bname = crate::chars::chars_to_string(&bname_vec);
    // find the extension: everything after the last dot, if the dot is not
    // the basename's first character
    let mut dot: usize = 0;
    let mut has_dot = false;
    let mut q2 = bstart;
    while q2 < pn
        invariant
            bstart <= q2 <= pn,
            pn == pchars@.len(),
            pchars@ == path@,
            has_dot ==> bstart + 1 <= dot < q2 && path@[dot as int] == '.',
            forall|w2: int|
                (if has_dot {
                    dot + 1
                } else {
                    bstart + 1
                }) <= w2 < q2 ==> path@[w2] != '.',
        decreases pn - q2,
    {
        if q2 > bstart && pchars[q2] == '.' {
            dot = q2;
            has_dot = true;
        }
        q2 = q2 + 1;
    }
    let blen = pn - bstart;
    let special = blen == 0 || (blen == 1 && pchars[bstart] == '.') || (blen == 2
        && pchars[bstart] == '.' && pchars[bstart + 1] == '.');
    if special {
        has_dot = false;
    }
    let ghost bn_seq = basename(path@);
    proof {
        assert(bn_seq.len() == pn - bstart);
        if blen > 0 {
            assert(bn_seq[0] == path@[bstart as int]);
        }
        if blen > 1 {
            assert(bn_seq[1] == path@[bstart as int + 1]);
        }
        if special {
            assert(bn_seq.len() == 0 || bn_seq =~= seq!['.'] || bn_seq =~= seq!['.', '.']);
            assert(extension(path@) is None);
        } else {
            assert(bn_seq != seq!['.'] && bn_seq != seq!['.', '.']) by {
                if blen == 1 {
                    assert(bn_seq[0] != '.');
                } else if blen == 2 {
                    assert(bn_seq[0] != '.' || bn_seq[1] != '.');
                }
            }
            if has_dot {
                assert(bn_seq[dot - bstart] == path@[dot as int]);
                assert forall|q3: int| dot - bstart < q3 < bn_seq.len() implies bn_seq[q3]
                    != '.' by {
                    assert(bn_seq[q3] == path@[bstart + q3]);
                }
                lemma_ext_at_dot(bn_seq, dot - bstart);
                assert(bn_seq.subrange(dot - bstart + 1, bn_seq.len() as int) =~= path@.subrange(
                    dot as int + 1,
                    pn as int,
                ));
            } else {
                assert forall|q3: int| 1 <= q3 < bn_seq.len() implies bn_seq[q3] != '.' by {
                    assert(bn_seq[q3] == path@[bstart + q3]);
                }
                lemma_ext_none(bn_seq);
            }
        }
    }
    let mut ext_vec: Vec<char> = Vec::new();
    if has_dot {
        let mut w = dot + 1;
        while w < pn
            invariant
                dot + 1 <= w <= pn,
                pn == pchars@.len(),
                pchars@ == path@,
                ext_vec@ == path@.subrange(dot as int + 1, w as int),
            decreases pn - w,
        {
            ext_vec.push(pchars[w]);
            proof {
                assert(path@.subrange(dot as int + 1, w as int + 1) =~= path@.subrange(
                    dot as int + 1,
                    w as int,
                ).push(path@[w as int]));
            }
            w = w + 1;
        }
    }
    let ext = crate::chars::chars_to_string(&ext_vec);
    let mut i: usize = 0;
    while i < ignores.len()
        invariant
            i <= ignores@.len(),
            bname@ == basename(path@),
            has_dot ==> extension(path@) == Some(ext@),
            !has_dot ==> extension(path@) is None,
            forall|w: int|
                0 <= w < ignores@.len() ==> ((#[trigger] ignores@[w]).patterns@.len() > 0
                    || ignores@[w].negated_patterns@.len() > 0) ==> rel_path_spec(
                    path@,
                    ignores@[w].root@,
                ) is Some,
            forall|w: int| 0 <= w < i ==> !set_ignores(#[trigger] ignores@[w], path@),
        decreases ignores@.len() - i,
    {
        let ig = &ignores[i];
        let mut ignored = false;
        if contains_name(&ig.filenames, &bname) {
            ignored = true;
        } else if has_dot && contains_name(&ig.extensions, &ext) {
            ignored = true;
        } else if ig.patterns.len() > 0 {
            let rel = relative_path_from(path, ig.root.as_str()).unwrap();
            if any_glob_matches(&ig.patterns, rel) {
                ignored = true;
            }
        }
        // apply negated patterns if necessary
        if ignored && ig.negated_patterns.len() > 0 {
            let rel = relative_path_from(path, ig.root.as_str()).unwrap();
            if any_glob_matches(&ig.negated_patterns, rel) {
                ignored = false;
            }
        }
        if ignored {
            proof {
                assert(set_ignores(ignores@[i as int], path@));
            }
            return true;
        }
        proof {
            assert(!set_ignores(ignores@[i as int], path@));
        }
        i = i + 1;
    }
    false
}

/// The views a rule set's verdict can depend on: root, literal rules, and
/// the source texts of its patterns.
pub open spec fn ignores_view_eq(a: Ignores, b: Ignores) -> bool {
    &&& a.root@ == b.root@
    &&& a.filenames.deep_view() == b.filenames.deep_view()
    &&& a.extensions.deep_view() == b.extensions.deep_view()
    &&& a.patterns@.len() == b.patterns@.len()
    &&& forall|j: int| 0 <= j < a.patterns@.len() ==> (#[trigger] a.patterns@[j])@ == b.patterns@[j]@
    &&& a.negated_patterns@.len() == b.negated_patterns@.len()
    &&& forall|j: int|
        0 <= j < a.negated_patterns@.len() ==> (#[trigger] a.negated_patterns@[j])@
            == b.negated_patterns@[j]@
}

/// Name lists with the same texts hold the same names.
pub proof fn lemma_name_in_eq(a: Seq<String>, b: Seq<String>, x: Seq<char>)
    requires
        a.len() == b.len(),
        forall|i: int| 0 <= i < a.len() ==> (#[trigger] a[i])@ == b[i]@,
    ensures
        name_in(a, x) == name_in(b, x),
{
    if name_in(a, x) {
        let i = choose|i: int| 0 <= i < a.len() && (#[trigger] a[i])@ == x;
        assert(b[i]@ == x);
    }
    if name_in(b, x) {
        let i = choose|i: int| 0 <= i < b.len() && (#[trigger] b[i])@ == x;
        assert(a[i]@ == x);
    }
}

/// Pattern lists with the same sources match the same paths.
pub proof fn lemma_any_glob_eq(a: Seq<GlobPattern>, b: Seq<GlobPattern>, rel: Seq<char>)
    requires
        a.len() == b.len(),
        forall|i: int| 0 <= i < a.len() ==> (#[trigger] a[i])@ == b[i]@,
    ensures
        any_glob(a, rel) == any_glob(b, rel),
{
    if any_glob(a, rel) {
        let i = choose|i: int| 0 <= i < a.len() && glob_match((#[trigger] a[i])@, rel);
        assert(glob_match(b[i]@, rel));
    }
    if any_glob(b, rel) {
        let i = choose|i: int| 0 <= i < b.len() && glob_match((#[trigger] b[i])@, rel);
        assert(glob_match(a[i]@, rel));
    }
}

/// Ignore determinism: the verdict of one rule set depends only on the path
/// and the set's visible content.
pub proof fn lemma_set_ignores_deterministic(a: Ignores, b: Ignores, path: Seq<char>)
    requires
        ignores_view_eq(a, b),
    ensures
        set_ignores(a, path) == set_ignores(b, path),
{
    let rel = rel_path_spec(path, a.root@)->0;
    assert(rel_path_spec(path, b.root@) == rel_path_spec(path, a.root@));
    assert(a.filenames@.len() == b.filenames@.len()) by {
        assert(a.filenames.deep_view().len() == a.filenames@.len());
        assert(b.filenames.deep_view().len() == b.filenames@.len());
    }
    assert forall|i: int| 0 <= i < a.filenames@.len() implies (#[trigger] a.filenames@[i])@
        == b.filenames@[i]@ by {
        assert(a.filenames.deep_view()[i] == a.filenames@[i]@);
        assert(b.filenames.deep_view()[i] == b.filenames@[i]@);
    }
    lemma_name_in_eq(a.filenames@, b.filenames@, basename(path));
    assert(a.extensions@.len() == b.extensions@.len()) by {
        assert(a.extensions.deep_view().len() == a.extensions@.len());
        assert(b.extensions.deep_view().len() == b.extensions@.len());
    }
    assert forall|i: int| 0 <= i < a.extensions@.len() implies (#[trigger] a.extensions@[i])@
        == b.extensions@[i]@ by {
        assert(a.extensions.deep_view()[i] == a.extensions@[i]@);
        assert(b.extensions.deep_view()[i] == b.extensions@[i]@);
    }
    if extension(path) is Some {
        lemma_name_in_eq(a.extensions@, b.extensions@, extension(path)->0);
    }
    lemma_any_glob_eq(a.patterns@, b.patterns@, rel);
    lemma_any_glob_eq(a.negated_patterns@, b.negated_patterns@, rel);
}

/// Ignore determinism: the verdict of a whole stack depends only on the
/// path and the stack's visible content, so two walks over the same tree
/// with the same rules skip the same paths.
pub proof fn lemma_is_ignored_deterministic(s1: Seq<Ignores>, s2: Seq<Ignores>, path: Seq<char>)
    requires
        s1.len() == s2.len(),
        forall|i: int| 0 <= i < s1.len() ==> ignores_view_eq(#[trigger] s1[i], #[trigger] s2[i]),
    ensures
        is_ignored(s1, path) == is_ignored(s2, path),
{
    assert forall|i: int| 0 <= i < s1.len() implies set_ignores(#[trigger] s1[i], path)
        == set_ignores(#[trigger] s2[i], path) by {
        lemma_set_ignores_deterministic(s1[i], s2[i], path);
    }
    if is_ignored(s1, path) {
        let i = choose|i: int| 0 <= i < s1.len() && set_ignores(#[trigger] s1[i], path);
        assert(set_ignores(s2[i], path));
    }
    if is_ignored(s2, path) {
        let i = choose|i: int| 0 <= i < s2.len() && set_ignores(#[trigger] s2[i], path);
        assert(set_ignores(s1[i], path));
    }
}

} // verus!
