//! The regular-expression engine (the `regex` crate) as seen by the verified code.
use vstd::prelude::*;

use regex::Regex;

use crate::text::is_boundary;

verus! {

/// The compiled regular expression of the `regex` crate.
#[verifier::external_type_specification]
#[verifier::external_body]
pub struct ExRegex(regex::Regex);

/// The error that `regex::Regex::new` returns for a pattern it rejects.
#[verifier::external_type_specification]
#[verifier::external_body]
pub struct ExRegexError(regex::Error);

/// Whether `regex::Regex::new` accepts `pattern` (it rejects invalid syntax and
/// patterns over its default size limit).
pub uninterp spec fn regex_compiles(pattern: Seq<char>) -> bool;

/// The byte spans `(start, end)` of the successive non-overlapping leftmost-first
/// matches that `regex::Regex::find_iter` yields on `text` for the regex that
/// `regex::Regex::new` compiles from `pattern`.
pub uninterp spec fn regex_find_spans(pattern: Seq<char>, text: Seq<char>) -> Seq<(usize, usize)>;

/// A byte span of `t` whose ends are character boundaries, start not after end.
pub open spec fn valid_byte_span(t: Seq<char>, sp: (usize, usize)) -> bool {
    &&& sp.0 <= sp.1
    &&& is_boundary(t, sp.0 as int)
    &&& is_boundary(t, sp.1 as int)
}

/// Spans in text order that do not overlap: each ends no later than any later
/// one starts.
pub open spec fn successive(spans: Seq<(usize, usize)>) -> bool {
    forall|i: int, j: int| 0 <= i < j < spans.len() ==> (#[trigger] spans[i]).1 <= (#[trigger] spans[j]).0
}

/// A regex compiled by `regex::Regex::new`, kept with the pattern it was compiled
/// from. Only `compile_regex` builds one.
pub struct CompiledPattern {
    source: String,
    regex: Regex,
}

impl CompiledPattern {
    /// The pattern this regex was compiled from.
    pub closed spec fn source(&self) -> Seq<char> {
        self.source@
    }

    /// The pattern this regex was compiled from.
    pub fn as_str(&self) -> (s: &str)
        ensures
            s@ == self.source(),
    {
        self.source.as_str()
    }
}

/// Calls `regex::Regex::new` and keeps the pattern beside the compiled regex.
/// Whether the pattern is accepted is named `regex_compiles`.
#[verifier::external_body]
pub fn compile_regex(pattern: &str) -> (r: Result<CompiledPattern, regex::Error>)
    ensures
        r is Ok <==> regex_compiles(pattern@),
        r matches Ok(c) ==> c.source() == pattern@,
{
    Regex::new(pattern).map(|regex| CompiledPattern { source: pattern.to_owned(), regex })
}

/// Calls `regex::Regex::find_iter` and keeps each match's `start()` and `end()`.
/// The spans are named `regex_find_spans` of the pattern the regex was compiled
/// from (only `compile_regex` builds a `CompiledPattern`, with `Regex::new`); as
/// the crate documents, each has `start <= end`, both fall on UTF-8 character
/// boundaries of `text`, and the matches are successive and non-overlapping.
/// Which spans the engine finds is not restated here.
#[verifier::external_body]
pub fn find_spans(pattern: &CompiledPattern, text: &str) -> (spans: Vec<(usize, usize)>)
    ensures
        spans@ == regex_find_spans(pattern.source(), text@),
        forall|k: int| 0 <= k < spans@.len() ==> valid_byte_span(text@, #[trigger] spans@[k]),
        successive(spans@),
{
    pattern.regex.find_iter(text).map(|m| (m.start(), m.end())).collect()
}

/// Calls `Display` of `regex::Error` for the message shown to users; nothing is
/// promised of the text.
#[verifier::external_body]
pub fn regex_error_message(e: &regex::Error) -> String {
    e.to_string()
}

} // verus!
