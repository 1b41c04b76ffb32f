//! Building the executable regex from the raw pattern and the casing and
//! literal-match options.
//!
//! The transformation of the pattern text — escaping metacharacters for a
//! literal search, prepending the case-insensitivity flag — is verified;
//! only the final compilation is handed to the regex engine.

use vstd::prelude::*;
use std::fmt::Write;

use crate::chars::{chars_of, chars_to_string};
use crate::options::{Casing, Opts};

verus! {

/// Raised when the pattern does not compile.
#[derive(Debug)]
pub struct PatternError {
    pub message: String,
}

#[verifier::external_type_specification]
#[verifier::external_body]
pub struct ExRegex(regex::bytes::Regex);

#[verifier::external_type_specification]
#[verifier::external_body]
pub struct ExRegexError(regex::Error);

/// Whether the regex engine accepts the pattern text; compilation success
/// depends on the text alone.
pub uninterp spec fn rx_compiles(pattern: Seq<char>) -> bool;

/// Where in the haystack, relative to position `from`, the engine's
/// leftmost-first match starting at or after `from` lies; the answer depends
/// on the pattern text, the haystack bytes, and the start position alone.
pub uninterp spec fn rx_find_of(pattern: Seq<char>, hay: Seq<u8>, from: int) -> Option<(int, int)>;

/// Whether the pattern matches anywhere in the haystack; a function of the
/// pattern text and the haystack bytes alone.
pub uninterp spec fn rx_match_of(pattern: Seq<char>, hay: Seq<u8>) -> bool;

/// Relies on regex::bytes::Regex::new: compiles the pattern, or rejects it;
/// which of the two happens is a function of the pattern text.
#[verifier::external_body]
fn rx_compile(pattern: &str) -> (r: Result<regex::bytes::Regex, regex::Error>)
    ensures
        r is Ok <==> rx_compiles(pattern@),
{
    regex::bytes::Regex::new(pattern)
}

/// A compiled regular expression together with the pattern text it was
/// compiled from.
pub struct CompiledRegex {
    source: String,
    inner: regex::bytes::Regex,
}

impl View for CompiledRegex {
    type V = Seq<char>;

    closed spec fn view(&self) -> Seq<char> {
        self.source@
    }
}

impl CompiledRegex {
    /// Compile a pattern; succeeds exactly when the engine accepts the text.
    fn new(pattern: &str) -> (r: Result<CompiledRegex, regex::Error>)
        ensures
            r is Ok <==> rx_compiles(pattern@),
            r matches Ok(rx) ==> rx@ == pattern@,
    {
        match rx_compile(pattern) {
            Ok(inner) => Ok(CompiledRegex { source: pattern.to_owned(), inner }),
            Err(e) => Err(e),
        }
    }

    /// Relies on regex::bytes::Regex::find on the tail of `buf` that starts
    /// at `from`: the engine reports its leftmost-first match there, a
    /// deterministic function of the pattern text (from which `inner` was
    /// compiled by the only constructor), the bytes, and the position; a
    /// reported match has start <= end and lies within the tail (offsets are
    /// relative to the tail).
    #[verifier::external_body]
    pub(crate) fn find_from(&self, buf: &[u8], from: usize) -> (r: Option<(usize, usize)>)
        requires
            from <= buf@.len(),
        ensures
            r is Some <==> rx_find_of(self@, buf@, from as int) is Some,
            r matches Some(p) ==> rx_find_of(self@, buf@, from as int) == Some(
                (p.0 as int, p.1 as int),
            ) && p.0 <= p.1 && from + p.1 <= buf@.len(),
    {
        self.inner.find(&buf[from..]).map(|m| (m.start(), m.end()))
    }

    /// Relies on regex::bytes::Regex::is_match: whether the buffer holds a
    /// match anywhere, a deterministic function of the pattern text and the
    /// bytes.
    #[verifier::external_body]
    pub(crate) fn is_match(&self, buf: &[u8]) -> (r: bool)
        ensures
            r == rx_match_of(self@, buf@),
    {
        self.inner.is_match(buf)
    }
}

/// Relies on the Display impl of regex::Error to render the error text.
#[verifier::external_body]
fn rx_error_message(e: &regex::Error) -> (r: String) {
    let mut s = String::new();
    let _ = write!(s, "{}", e);
    s
}

/// Whether the character has the Unicode uppercase property; the answer
/// depends on the character alone.
pub uninterp spec fn uppercase_char(c: char) -> bool;

/// Relies on char::is_uppercase: a property of the character alone.
#[verifier::external_body]
fn char_is_uppercase(c: char) -> (r: bool)
    ensures
        r == uppercase_char(c),
{
    c.is_uppercase()
}

/// The regex metacharacters that a literal search must escape.
pub open spec fn is_meta(c: char) -> bool {
    ||| c == '.'
    ||| c == '?'
    ||| c == '*'
    ||| c == '+'
    ||| c == '|'
    ||| c == '^'
    ||| c == '$'
    ||| c == '('
    ||| c == ')'
    ||| c == '{'
    ||| c == '}'
    ||| c == '['
    ||| c == ']'
    ||| c == '\\'
}

/// A character as it appears in the escaped pattern.
pub open spec fn escape_char(c: char) -> Seq<char> {
    if is_meta(c) {
        seq!['\\', c]
    } else {
        seq![c]
    }
}

/// The pattern with every metacharacter prefixed by a backslash.
pub open spec fn escaped(s: Seq<char>) -> Seq<char>
    decreases s.len(),
{
    if s.len() == 0 {
        Seq::empty()
    } else {
        escaped(s.drop_last()) + escape_char(s.last())
    }
}

/// Whether the sequence holds an uppercase character.
pub open spec fn has_upper(s: Seq<char>) -> bool {
    exists|i: int| 0 <= i < s.len() && uppercase_char(s[i])
}

/// The final pattern text handed to the regex engine: escaped when literal,
/// and prefixed with the inline case-insensitivity flag when the casing
/// options ask for it.
pub open spec fn rx_pattern(p: Seq<char>, literal: bool, casing: Casing) -> Seq<char> {
    let base = if literal {
        escaped(p)
    } else {
        p
    };
    if casing is Insensitive || (casing is Smart && !has_upper(base)) {
        "(?i)"@ + base
    } else {
        base
    }
}

fn is_meta_exec(c: char) -> (r: bool)
    ensures
        r == is_meta(c),
{
    c == '.' || c == '?' || c == '*' || c == '+' || c == '|' || c == '^' || c == '$' || c == '('
        || c == ')' || c == '{' || c == '}' || c == '[' || c == ']' || c == '\\'
}

fn contains_upper(v: &Vec<char>) -> (r: bool)
    ensures
        r == has_upper(v@),
{
    let mut i: usize = 0;
    while i < v.len()
        invariant
            i <= v@.len(),
            forall|j: int| 0 <= j < i ==> !uppercase_char(v@[j]),
        decreases v@.len() - i,
    {
        if char_is_uppercase(v[i]) {
            return true;
        }
        i = i + 1;
    }
    false
}

/// The characters of the pattern that will be handed to the regex engine.
pub fn build_pattern(pattern: &str, literal: bool, casing: &Casing) -> (r: Vec<char>)
    ensures
        r@ == rx_pattern(pattern@, literal, *casing),
{
    let chars = chars_of(pattern);
    let base: Vec<char> = if literal {
        let mut b: Vec<char> = Vec::new();
        let mut i: usize = 0;
        while i < chars.len()
            invariant
                i <= chars@.len(),
                b@ == escaped(chars@.take(i as int)),
            decreases chars@.len() - i,
        {
            let ghost prev = chars@.take(i as int);
            let c = chars[i];
            if is_meta_exec(c) {
                b.push('\\');
                b.push(c);
            } else {
                b.push(c);
            }
            i = i + 1;
            proof {
                assert(chars@.take(i as int).drop_last() =~= prev);
                assert(chars@.take(i as int).last() == c);
            }
        }
        proof {
            assert(chars@.take(chars@.len() as int) =~= chars@);
        }
        b
    } else {
        chars
    };
    let insens = match casing {
        Casing::Insensitive => true,
        Casing::Smart => !contains_upper(&base),
        Casing::Default => false,
    };
    if insens {
        let mut out: Vec<char> = Vec::new();
        out.push('(');
        out.push('?');
        out.push('i');
        out.push(')');
        proof {
            reveal_strlit("(?i)");
            assert(out@ =~= "(?i)"@);
        }
        let mut i: usize = 0;
        while i < base.len()
            invariant
                i <= base@.len(),
                out@ == "(?i)"@ + base@.take(i as int),
            decreases base@.len() - i,
        {
            out.push(base[i]);
            i = i + 1;
            proof {
                assert("(?i)"@ + base@.take(i as int) =~= ("(?i)"@ + base@.take(i as int - 1)).push(
                    base@[i as int - 1],
                ));
            }
        }
        proof {
            assert(base@.take(base@.len() as int) =~= base@);
        }
        out
    } else {
        base
    }
}

/// Create a regular expression to search for matches from the given options.
///
/// The final regex is determined by several options, such as casing options
/// and options to take the search string literally. The call succeeds
/// exactly when the engine accepts the transformed pattern text; a rejected
/// pattern is reported as a `PatternError` carrying the engine's message.
pub fn create_rx(opts: &Opts) -> (r: Result<CompiledRegex, PatternError>)
    ensures
        r is Ok <==> rx_compiles(rx_pattern(opts.pattern@, opts.literal, opts.casing)),
        r matches Ok(rx) ==> rx@ == rx_pattern(opts.pattern@, opts.literal, opts.casing),
{
    let chars = build_pattern(opts.pattern.as_str(), opts.literal, &opts.casing);
    let pat = chars_to_string(&chars);
    match CompiledRegex::new(pat.as_str()) {
        Ok(rx) => Ok(rx),
        Err(e) => Err(PatternError { message: rx_error_message(&e) }),
    }
}

} // verus!
