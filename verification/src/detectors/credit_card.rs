//! The payment card number detector.
use vstd::prelude::*;

use crate::detectors::{
    law_ordered_spans_give_chained_matches, char_after, char_before, char_span_from_byte_span, lemma_char_index_bounds, lemma_spans_step,
    next_char, pii_match_from_byte_span, previous_char, spans_to_matches,
};
use crate::detectors::overlaps::chained;
use crate::matcher::{find_spans, regex_find_spans, successive, valid_byte_span, CompiledPattern};
use crate::text::{
    ascii_digit, ascii_digit_chars, ascii_digits, char_index, is_ascii_digit, is_boundary,
    string_from_chars, substring, to_chars,
};
use crate::types::{all_made_by, faithful, views, within, DetectorConfig, PiiMatch, RedactionSettings};
use crate::validators::luhn::{self, luhn_valid};

verus! {

/// The pattern of the card detector.
pub const CREDIT_CARD_PATTERN: &'static str = r"(?:\d[ -]?){12,18}\d";

/// No ASCII digit touches the byte span `start..end` of `t` on either side.
pub open spec fn digit_boundary(t: Seq<char>, start: int, end: int) -> bool {
    &&& match char_before(t, start) {
        None => true,
        Some(c) => !is_ascii_digit(c),
    }
    &&& match char_after(t, end) {
        None => true,
        Some(c) => !is_ascii_digit(c),
    }
}

/// A card match may stand at `start..end` exactly when the character before it,
/// if any, and the character after it, if any, are not among `0` to `9`;
/// letters, spaces and punctuation around the number do not block it.
pub proof fn law_digit_boundary(t: Seq<char>, start: int, end: int)
    ensures
        digit_boundary(t, start, end) <==> (match char_before(t, start) {
            None => true,
            Some(c) => !('0' <= c <= '9'),
        } && match char_after(t, end) {
            None => true,
            Some(c) => !('0' <= c <= '9'),
        }),
{
}

/// The spans of `t` that the card detector reports.
pub open spec fn card_filter(t: Seq<char>) -> spec_fn((usize, usize)) -> bool {
    |sp: (usize, usize)|
        {
            &&& digit_boundary(t, sp.0 as int, sp.1 as int)
            &&& luhn_valid(
                ascii_digits(t.subrange(char_index(t, sp.0 as int), char_index(t, sp.1 as int))),
            )
        }
}

/// Whether no ASCII digit touches the span on either side.
pub fn is_digit_boundary(text: &str, start: usize, end: usize) -> (r: bool)
    requires
        is_boundary(text@, start as int),
        is_boundary(text@, end as int),
    ensures
        r == digit_boundary(text@, start as int, end as int),
{
    let before = match previous_char(text, start) {
        None => true,
        Some(character) => !ascii_digit(character),
    };
    let after = match next_char(text, end) {
        None => true,
        Some(character) => !ascii_digit(character),
    };
    before && after
}

/// The card numbers that `regex` finds in `text`, standing apart from other digits
/// and passing the Luhn checksum.
pub fn detect(
    text: &str,
    regex: &CompiledPattern,
    config: &DetectorConfig,
    settings: &RedactionSettings,
) -> (r: Vec<PiiMatch>)
    requires
        regex.source() == CREDIT_CARD_PATTERN@,
    ensures
        views(r@) == spans_to_matches(
            text@,
            regex_find_spans(regex.source(), text@),
            card_filter(text@),
            config@,
            settings@,
        ),
        within(views(r@), text@.len() as int),
        faithful(views(r@), text@, settings@),
        chained(views(r@)),
        all_made_by(views(r@), config@, text@, settings@),
{
    let spans = find_spans(regex, text);
    let chars = to_chars(text);
    let mut out: Vec<PiiMatch> = Vec::new();
    let mut i: usize = 0;
    while i < spans.len()
        invariant
            i <= spans@.len(),
            chars@ == text@,
            spans@ == regex_find_spans(regex.source(), text@),
            successive(spans@),
            forall|k: int| 0 <= k < spans@.len() ==> valid_byte_span(text@, #[trigger] spans@[k]),
            views(out@) == spans_to_matches(
                text@,
                spans@.take(i as int),
                card_filter(text@),
                config@,
                settings@,
            ),
            within(views(out@), text@.len() as int),
            faithful(views(out@), text@, settings@),
            all_made_by(views(out@), config@, text@, settings@),
        decreases spans.len() - i,
    {
        let (start, end) = spans[i];
        proof {
            lemma_spans_step(text@, spans@, i as int, card_filter(text@), config@, settings@);
            lemma_char_index_bounds(text@, start as int, end as int);
        }
        if is_digit_boundary(text, start, end) {
            let (start_char, end_char) = char_span_from_byte_span(text, start, end);
            let candidate = substring(&chars, start_char, end_char);
            let candidate_chars = to_chars(candidate.as_str());
            let digit_chars = ascii_digit_chars(&candidate_chars);
            let digits = string_from_chars(digit_chars.as_slice());
            if luhn::is_valid(digits.as_str()) {
                let m = pii_match_from_byte_span(config, text, start, end, settings);
                let ghost before = out@;
                out.push(m);
                assert(views(out@) =~= views(before).push(m@));
            }
        }
        i = i + 1;
    }
    assert(spans@.take(spans@.len() as int) =~= spans@);
    proof {
        law_ordered_spans_give_chained_matches(text@, spans@, card_filter(text@), config@, settings@);
    }
    out
}

} // verus!
