//! The phone number detector.
use vstd::prelude::*;

use crate::detectors::{
    law_ordered_spans_give_chained_matches, char_after, char_before, lemma_spans_step, next_char, pii_match_from_byte_span,
    previous_char, spans_to_matches,
};
use crate::detectors::overlaps::chained;
use crate::matcher::{find_spans, regex_find_spans, successive, valid_byte_span, CompiledPattern};
use crate::text::{
    ascii_digit_chars, ascii_digits, char_index, is_alphanumeric, is_boundary, substring,
    to_chars, unicode_alphanumeric,
};
use crate::types::{all_made_by, faithful, views, within, DetectorConfig, PiiMatch, RedactionSettings};

verus! {

/// The pattern of the phone detector.
pub const PHONE_PATTERN: &'static str = r"(?:\+?\d{1,3}[\s.-]+)?(?:\(?\d{3}\)?[\s.-]+)\d{3}[\s.-]+\d{4}";

/// `c` counts as part of a word: `_` or alphanumeric.
pub open spec fn word_char(c: char) -> bool {
    c == '_' || unicode_alphanumeric(c)
}

/// No word character and no `+` ends just before byte offset `b` of `t`.
pub open spec fn left_phone_boundary(t: Seq<char>, b: int) -> bool {
    match char_before(t, b) {
        None => true,
        Some(c) => !word_char(c) && c != '+',
    }
}

/// No word character starts at byte offset `b` of `t`.
pub open spec fn right_phone_boundary(t: Seq<char>, b: int) -> bool {
    match char_after(t, b) {
        None => true,
        Some(c) => !word_char(c),
    }
}

/// A phone match may end at byte offset `b` exactly when no character follows
/// it, or the character that follows is neither `_` nor alphanumeric: a full
/// stop, comma, parenthesis or space after the number does not block it.
pub proof fn law_right_phone_boundary(t: Seq<char>, b: int)
    ensures
        right_phone_boundary(t, b) <==> match char_after(t, b) {
            None => true,
            Some(c) => c != '_' && !unicode_alphanumeric(c),
        },
{
}

/// A phone match may start at byte offset `b` exactly when no character comes
/// before it, or the character before it is neither `_`, alphanumeric nor `+`.
pub proof fn law_left_phone_boundary(t: Seq<char>, b: int)
    ensures
        left_phone_boundary(t, b) <==> match char_before(t, b) {
            None => true,
            Some(c) => c != '_' && !unicode_alphanumeric(c) && c != '+',
        },
{
}

/// `value` holds 10 to 15 ASCII digits, not all the same digit.
pub open spec fn plausible_phone(value: Seq<char>) -> bool {
    let d = ascii_digits(value);
    &&& 10 <= d.len() <= 15
    &&& !(forall|i: int| 0 <= i < d.len() ==> #[trigger] d[i] == d[0])
}

/// A value is a plausible phone number exactly when it holds 10 to 15 ASCII
/// digits, whatever else it holds, and two of those digits differ.
pub proof fn law_plausible_phone(value: Seq<char>)
    ensures
        plausible_phone(value) <==> {
            let d = ascii_digits(value);
            &&& 10 <= d.len() <= 15
            &&& exists|i: int, j: int| 0 <= i < d.len() && 0 <= j < d.len() && d[i] != d[j]
        },
{
    let d = ascii_digits(value);
    if exists|i: int, j: int| 0 <= i < d.len() && 0 <= j < d.len() && d[i] != d[j] {
        let (i, j) = choose|i: int, j: int| 0 <= i < d.len() && 0 <= j < d.len() && d[i] != d[j];
        assert(d[i] != d[0] || d[j] != d[0]);
    }
    if d.len() > 0 && !(forall|i: int| 0 <= i < d.len() ==> #[trigger] d[i] == d[0]) {
        let i = choose|i: int| 0 <= i < d.len() && #[trigger] d[i] != d[0];
        assert(d[i] != d[0]);
    }
}

/// The spans of `t` that the phone detector reports.
pub open spec fn phone_filter(t: Seq<char>) -> spec_fn((usize, usize)) -> bool {
    |sp: (usize, usize)|
        {
            &&& left_phone_boundary(t, sp.0 as int)
            &&& right_phone_boundary(t, sp.1 as int)
            &&& plausible_phone(t.subrange(char_index(t, sp.0 as int), char_index(t, sp.1 as int)))
        }
}

/// Whether `character` is `_` or alphanumeric.
pub fn is_word_character(character: char) -> (r: bool)
    ensures
        r == word_char(character),
{
    character == '_' || is_alphanumeric(character)
}

/// Whether the match may start at byte offset `start`.
pub fn is_left_phone_boundary(text: &str, start: usize) -> (r: bool)
    requires
        is_boundary(text@, start as int),
    ensures
        r == left_phone_boundary(text@, start as int),
{
    match previous_char(text, start) {
        None => true,
        Some(character) => !is_word_character(character) && character != '+',
    }
}

/// Whether the match may end at byte offset `end`.
pub fn is_right_phone_boundary(text: &str, end: usize) -> (r: bool)
    requires
        is_boundary(text@, end as int),
    ensures
        r == right_phone_boundary(text@, end as int),
{
    match next_char(text, end) {
        None => true,
        Some(character) => !is_word_character(character),
    }
}

/// Whether `value` has 10 to 15 digits that are not all the same.
pub fn is_plausible_phone(value: &str) -> (r: bool)
    ensures
        r == plausible_phone(value@),
{
    let chars = to_chars(value);
    let digits = ascii_digit_chars(&chars);
    if digits.len() < 10 || digits.len() > 15 {
        return false;
    }
    let first = digits[0];
    let mut i: usize = 0;
    while i < digits.len()
        invariant
            digits@ == ascii_digits(value@),
            first == digits@[0],
            10 <= digits@.len() <= 15,
            i <= digits@.len(),
            forall|k: int| 0 <= k < i ==> #[trigger] digits@[k] == digits@[0],
        decreases digits.len() - i,
    {
        if digits[i] != first {
            assert(digits@[i as int] != digits@[0]);
            return true;
        }
        i = i + 1;
    }
    false
}

/// The phone numbers that `regex` finds in `text` and that pass the boundary and
/// plausibility checks.
pub fn detect(
    text: &str,
    regex: &CompiledPattern,
    config: &DetectorConfig,
    settings: &RedactionSettings,
) -> (r: Vec<PiiMatch>)
    requires
        regex.source() == PHONE_PATTERN@,
    ensures
        views(r@) == spans_to_matches(
            text@,
            regex_find_spans(regex.source(), text@),
            phone_filter(text@),
            config@,
            settings@,
        ),
        within(views(r@), text@.len() as int),
        faithful(views(r@), text@, settings@),
        chained(views(r@)),
        all_made_by(views(r@), config@, text@, settings@),
{
    let spans = find_spans(regex, text);
    let chars = to_chars(text);
    let mut out: Vec<PiiMatch> = Vec::new();
    let mut i: usize = 0;
    while i < spans.len()
        invariant
            i <= spans@.len(),
            chars@ == text@,
            spans@ == regex_find_spans(regex.source(), text@),
            successive(spans@),
            forall|k: int| 0 <= k < spans@.len() ==> valid_byte_span(text@, #[trigger] spans@[k]),
            views(out@) == spans_to_matches(
                text@,
                spans@.take(i as int),
                phone_filter(text@),
                config@,
                settings@,
            ),
            within(views(out@), text@.len() as int),
            faithful(views(out@), text@, settings@),
            all_made_by(views(out@), config@, text@, settings@),
        decreases spans.len() - i,
    {
        let (start, end) = spans[i];
        proof {
            lemma_spans_step(text@, spans@, i as int, phone_filter(text@), config@, settings@);
            crate::detectors::lemma_char_index_bounds(text@, start as int, end as int);
        }
        if is_left_phone_boundary(text, start) && is_right_phone_boundary(text, end) {
            let (start_char, end_char) = crate::detectors::char_span_from_byte_span(
                text,
                start,
                end,
            );
            let value = substring(&chars, start_char, end_char);
            if is_plausible_phone(value.as_str()) {
                let m = pii_match_from_byte_span(config, text, start, end, settings);
                let ghost before = out@;
                out.push(m);
                assert(views(out@) =~= views(before).push(m@));
            }
        }
        i = i + 1;
    }
    assert(spans@.take(spans@.len() as int) =~= spans@);
    proof {
        law_ordered_spans_give_chained_matches(text@, spans@, phone_filter(text@), config@, settings@);
    }
    out
}

} // verus!
