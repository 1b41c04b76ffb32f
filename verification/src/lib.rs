//! A recursive source-code searcher in the tradition of `ack`: given a
//! regular-expression pattern and a root path, it walks a directory tree,
//! filters entries by hidden/ignore rules, scans files for matching lines
//! (with optional context), and renders the results in one of several
//! display formats.
//!
//! The crate holds the search engine itself: the line index, the file
//! scanner, the gitignore-style matcher, the walker's bookkeeping, and the
//! renderers. Directory traversal, memory mapping, and thread fan-out are
//! left to the embedding program, which feeds plain byte buffers and path
//! strings into this library.
//!
//! Regular-expression matching is done by the regex crate and glob matching
//! by the glob crate; their verdicts enter the contracts only as named,
//! uninterpreted functions of the pattern text and the input, so everything
//! done with an answer is verified for every answer the engines can give.

pub mod chars;
pub mod display;
pub mod ignore;
pub mod lines;
pub mod options;
pub mod pattern;
pub mod search;
pub mod walk;
