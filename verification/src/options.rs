//! The option bundle that steers a search, and the terminal color set used
//! by the renderers.

use vstd::prelude::*;
use vstd::string::StringExecFns;

verus! {

/// ANSI escape sequences used to color output; all fields empty when colors
/// are disabled.
#[derive(Clone)]
pub struct Colors {
    pub reset: String,
    pub path: String,
    pub lineno: String,
    pub span: String,
    pub punct: String,
    pub empty: bool,
}

impl Colors {
    /// A color set where nothing is colored.
    pub fn empty() -> (r: Colors)
        ensures
            r.reset@ == Seq::<char>::empty(),
            r.path@ == Seq::<char>::empty(),
            r.lineno@ == Seq::<char>::empty(),
            r.span@ == Seq::<char>::empty(),
            r.punct@ == Seq::<char>::empty(),
            r.empty == true,
    {
        Colors {
            reset: String::new(),
            path: String::new(),
            lineno: String::new(),
            span: String::new(),
            punct: String::new(),
            empty: true,
        }
    }

    /// A color set built from SGR payloads (e.g. "01;31"): each field is the
    /// full escape sequence for its payload.
    pub fn from(path: &str, lineno: &str, span: &str, punct: &str) -> (r: Colors)
        ensures
            r.reset@ == "\u{1b}[0m"@,
            r.path@ == "\u{1b}["@ + path@ + "m"@,
            r.lineno@ == "\u{1b}["@ + lineno@ + "m"@,
            r.span@ == "\u{1b}["@ + span@ + "m"@,
            r.punct@ == "\u{1b}["@ + punct@ + "m"@,
            r.empty == false,
    {
        Colors {
            reset: String::from_str("\u{1b}[0m"),
            path: Self::sgr(path),
            lineno: Self::sgr(lineno),
            span: Self::sgr(span),
            punct: Self::sgr(punct),
            empty: false,
        }
    }

    /// Wrap an SGR payload in the escape-sequence introducer and terminator.
    fn sgr(spec_str: &str) -> (r: String)
        ensures
            r@ == "\u{1b}["@ + spec_str@ + "m"@,
    {
        let mut s = String::from_str("\u{1b}[");
        s.append(spec_str);
        s.append("m");
        s
    }
}

/// Case-sensitivity handling for the pattern.
///
/// Smart casing means insensitive as long as the pattern contains no
/// uppercase letters.
#[derive(Clone)]
pub enum Casing {
    Default,
    Smart,
    Insensitive,
}

/// Holds all options for the search.
#[derive(Clone)]
pub struct Opts {
    // file related options
    pub path: String,
    pub depth: usize,
    pub follow_links: bool,
    pub do_binaries: bool,
    pub do_hidden: bool,
    // ignore file related options
    pub check_ignores: bool,
    // pattern related options
    pub pattern: String,
    pub casing: Casing,
    pub literal: bool,
    pub invert: bool,
    // display related options
    pub colors: Option<Colors>,
    pub only_files: Option<bool>,
    pub only_count: bool,
    pub show_break: bool,
    pub show_heading: bool,
    pub ackmate_format: bool,
    pub vimgrep_format: bool,
    pub max_count: usize,
    pub before: usize,
    pub after: usize,
    // others
    pub workers: u32,
}

} // verus!
