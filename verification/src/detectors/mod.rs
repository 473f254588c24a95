//! Detectors: turning regex matches into `PiiMatch` values, and resolving overlaps.
pub mod credit_card;
pub mod email;
pub mod overlaps;
pub mod phone;

pub use overlaps::{resolve_overlaps, sort_and_remove_overlaps};

use vstd::prelude::*;

use crate::detectors::overlaps::chained;
use crate::matcher::{find_spans, regex_find_spans, successive, valid_byte_span, CompiledPattern};
use crate::redactor::BuiltinDetector;
use crate::text::{
    byte_offset, char_index, char_index_of_byte, is_boundary, lemma_ascii_offsets,
    lemma_byte_offset_strict, substring, to_chars,
};
use crate::types::{
    all_made_by, faithful, mask_of, replacement_spec, views, within, ConfigView, DetectorConfig, MaskStrategy,
    MatchView, PiiMatch, RedactionSettings, SettingsView,
};

verus! {

/// The match that the byte span `sp` of `t` yields for detector `c` under settings `s`.
pub open spec fn match_from_span(
    t: Seq<char>,
    sp: (usize, usize),
    c: ConfigView,
    s: SettingsView,
) -> MatchView {
    let cs = char_index(t, sp.0 as int);
    let ce = char_index(t, sp.1 as int);
    let value = t.subrange(cs, ce);
    MatchView {
        start: cs as usize,
        end: ce as usize,
        value,
        entity_type: c.entity_type,
        detector_name: c.name,
        replacement: replacement_spec(s, c, value),
        priority: c.priority,
        order: c.order,
    }
}

/// The matches that the spans kept by `keep` yield, in the order of the spans.
pub open spec fn spans_to_matches(
    t: Seq<char>,
    spans: Seq<(usize, usize)>,
    keep: spec_fn((usize, usize)) -> bool,
    c: ConfigView,
    s: SettingsView,
) -> Seq<MatchView> {
    spans.filter(keep).map_values(|sp: (usize, usize)| match_from_span(t, sp, c, s))
}

/// Keeps the spans that are not empty.
pub open spec fn nonempty_span() -> spec_fn((usize, usize)) -> bool {
    |sp: (usize, usize)| sp.0 != sp.1
}

/// The match for a character span `(start, end, matched text)` reported by
/// another regex engine.
pub open spec fn match_from_char_span(
    sp: (usize, usize, String),
    c: ConfigView,
    s: SettingsView,
) -> MatchView {
    MatchView {
        start: sp.0,
        end: sp.1,
        value: sp.2@,
        entity_type: c.entity_type,
        detector_name: c.name,
        replacement: replacement_spec(s, c, sp.2@),
        priority: c.priority,
        order: c.order,
    }
}

/// The matches for the non-empty character spans of `spans`, in order.
pub open spec fn char_spans_to_matches(
    spans: Seq<(usize, usize, String)>,
    c: ConfigView,
    s: SettingsView,
) -> Seq<MatchView> {
    spans.filter(|sp: (usize, usize, String)| sp.0 != sp.1).map_values(
        |sp: (usize, usize, String)| match_from_char_span(sp, c, s),
    )
}

/// The character before byte offset `b` of `t`, if any.
pub open spec fn char_before(t: Seq<char>, b: int) -> Option<char> {
    let i = char_index(t, b);
    if i == 0 {
        None
    } else {
        Some(t[i - 1])
    }
}

/// The character at byte offset `b` of `t`, if any.
pub open spec fn char_after(t: Seq<char>, b: int) -> Option<char> {
    let i = char_index(t, b);
    if i == t.len() {
        None
    } else {
        Some(t[i])
    }
}

/// Character indices of a boundary lie within the text and grow with the byte offset.
pub proof fn lemma_char_index_bounds(t: Seq<char>, a: int, b: int)
    requires
        is_boundary(t, a),
        is_boundary(t, b),
        a <= b,
    ensures
        0 <= char_index(t, a) <= char_index(t, b) <= t.len(),
        byte_offset(t, char_index(t, a)) == a,
        byte_offset(t, char_index(t, b)) == b,
{
    let i = char_index(t, a);
    let j = char_index(t, b);
    if j < i {
        lemma_byte_offset_strict(t, j, i);
    }
}

/// One more span extends the matches by the match of that span, if it is kept.
pub proof fn lemma_spans_step(
    t: Seq<char>,
    spans: Seq<(usize, usize)>,
    i: int,
    keep: spec_fn((usize, usize)) -> bool,
    c: ConfigView,
    s: SettingsView,
)
    requires
        0 <= i < spans.len(),
    ensures
        spans_to_matches(t, spans.take(i + 1), keep, c, s) == if keep(spans[i]) {
            spans_to_matches(t, spans.take(i), keep, c, s).push(match_from_span(t, spans[i], c, s))
        } else {
            spans_to_matches(t, spans.take(i), keep, c, s)
        },
{
    broadcast use vstd::seq_lib::group_filter_ensures;

    assert(spans.take(i + 1) =~= spans.take(i).push(spans[i]));
    spans.take(i).lemma_filter_push(spans[i], keep);
    let f = |sp: (usize, usize)| match_from_span(t, sp, c, s);
    let before = spans.take(i).filter(keep);
    if keep(spans[i]) {
        assert(before.push(spans[i]).map_values(f) =~= before.map_values(f).push(f(spans[i])));
    }
}

proof fn lemma_ordered_prefix(
    t: Seq<char>,
    spans: Seq<(usize, usize)>,
    n: int,
    keep: spec_fn((usize, usize)) -> bool,
    c: ConfigView,
    s: SettingsView,
) -> (last: int)
    requires
        0 <= n <= spans.len(),
        forall|k: int| 0 <= k < spans.len() ==> valid_byte_span(t, #[trigger] spans[k]),
        successive(spans),
    ensures
        chained(spans_to_matches(t, spans.take(n), keep, c, s)),
        spans_to_matches(t, spans.take(n), keep, c, s).len() > 0 ==> 0 <= last < n
            && spans_to_matches(t, spans.take(n), keep, c, s).last().end == char_index(
            t,
            spans[last].1 as int,
        ),
    decreases n,
{
    if n == 0 {
        assert(spans.take(0).filter(keep) =~= Seq::<(usize, usize)>::empty());
        0
    } else {
        let prev = lemma_ordered_prefix(t, spans, n - 1, keep, c, s);
        lemma_spans_step(t, spans, n - 1, keep, c, s);
        let before = spans_to_matches(t, spans.take(n - 1), keep, c, s);
        if keep(spans[n - 1]) {
            let m = match_from_span(t, spans[n - 1], c, s);
            let after = before.push(m);
            let sp = spans[n - 1];
            assert(valid_byte_span(t, sp));
            lemma_char_index_bounds(t, sp.0 as int, sp.1 as int);
            lemma_byte_offset_strict(t, 0, char_index(t, sp.0 as int));
            lemma_byte_offset_strict(t, 0, char_index(t, sp.1 as int));
            assert(m.start == char_index(t, sp.0 as int));
            assert(m.end == char_index(t, sp.1 as int));
            if before.len() > 0 {
                let q = spans[prev];
                assert(valid_byte_span(t, q));
                assert(q.1 <= sp.0);
                lemma_char_index_bounds(t, q.1 as int, sp.0 as int);
                assert(before.last().end <= m.start);
            }
            assert(after.last() == m);
            assert forall|i: int| 0 < i < after.len() implies after[i - 1].end
                <= #[trigger] after[i].start by {
                if i < before.len() {
                    assert(after[i - 1] == before[i - 1] && after[i] == before[i]);
                }
            }
            n - 1
        } else {
            prev
        }
    }
}

/// Spans in text order give matches in text order: each match starts no earlier
/// than the previous one ends.
pub proof fn law_ordered_spans_give_chained_matches(
    t: Seq<char>,
    spans: Seq<(usize, usize)>,
    keep: spec_fn((usize, usize)) -> bool,
    c: ConfigView,
    s: SettingsView,
)
    requires
        forall|k: int| 0 <= k < spans.len() ==> valid_byte_span(t, #[trigger] spans[k]),
        successive(spans),
    ensures
        chained(spans_to_matches(t, spans, keep, c, s)),
{
    lemma_ordered_prefix(t, spans, spans.len() as int, keep, c, s);
    assert(spans.take(spans.len() as int) =~= spans);
}

/// The spans that the built-in detector `d` keeps.
pub open spec fn builtin_filter(d: BuiltinDetector, t: Seq<char>) -> spec_fn((usize, usize)) -> bool {
    match d {
        BuiltinDetector::Email => nonempty_span(),
        BuiltinDetector::Phone => phone::phone_filter(t),
        BuiltinDetector::CreditCard => credit_card::card_filter(t),
    }
}

/// The matches that the built-in detector `d` reports, given its compiled regex.
pub open spec fn builtin_matches(
    d: BuiltinDetector,
    t: Seq<char>,
    re: CompiledPattern,
    c: ConfigView,
    s: SettingsView,
) -> Seq<MatchView> {
    spans_to_matches(t, regex_find_spans(re.source(), t), builtin_filter(d, t), c, s)
}

/// Runs the built-in detector `detector` with its compiled `regex`.
pub fn detect_builtin_detector(
    text: &str,
    detector: BuiltinDetector,
    regex: &CompiledPattern,
    config: &DetectorConfig,
    settings: &RedactionSettings,
) -> (r: Vec<PiiMatch>)
    requires
        regex.source() == crate::redactor::builtin_pattern(detector),
    ensures
        views(r@) == builtin_matches(detector, text@, *regex, config@, settings@),
        within(views(r@), text@.len() as int),
        faithful(views(r@), text@, settings@),
        chained(views(r@)),
        all_made_by(views(r@), config@, text@, settings@),
{
    match detector {
        BuiltinDetector::Email => email::detect(text, regex, config, settings),
        BuiltinDetector::Phone => phone::detect(text, regex, config, settings),
        BuiltinDetector::CreditCard => credit_card::detect(text, regex, config, settings),
    }
}

/// Character indices of a byte span; ASCII text is indexed directly.
pub fn char_span_from_byte_span(text: &str, start: usize, end: usize) -> (r: (usize, usize))
    requires
        text.is_ascii() || (is_boundary(text@, start as int) && is_boundary(text@, end as int)),
    ensures
        text.is_ascii() ==> r == (start, end),
        is_boundary(text@, start as int) ==> r.0 == char_index(text@, start as int),
        is_boundary(text@, end as int) ==> r.1 == char_index(text@, end as int),
        valid_byte_span(text@, (start, end)) ==> r.0 <= r.1 <= text@.len(),
{
    proof {
        if valid_byte_span(text@, (start, end)) {
            lemma_char_index_bounds(text@, start as int, end as int);
        }
    }
    if text.is_ascii() {
        proof {
            assert forall|k: int| 0 <= k < text@.len() implies (text@[k] as u32) < 0x80 by {
                assert('\0' <= text@[k] <= '\u{7f}');
            }
            if is_boundary(text@, start as int) {
                let i = char_index(text@, start as int);
                lemma_ascii_offsets(text@, i);
            }
            if is_boundary(text@, end as int) {
                let j = char_index(text@, end as int);
                lemma_ascii_offsets(text@, j);
            }
        }
        return (start, end);
    }
    let chars = to_chars(text);
    (char_index_of_byte(&chars, start), char_index_of_byte(&chars, end))
}

/// The match for the byte span `start..end` of `text`.
pub fn pii_match_from_byte_span(
    config: &DetectorConfig,
    text: &str,
    start: usize,
    end: usize,
    settings: &RedactionSettings,
) -> (m: PiiMatch)
    requires
        valid_byte_span(text@, (start, end)),
    ensures
        m@ == match_from_span(text@, (start, end), config@, settings@),
        m.start <= m.end <= text@.len(),
        m.value@ == text@.subrange(m.start as int, m.end as int),
        settings.mask_strategy == MaskStrategy::LengthPreserving ==> m.replacement@ == mask_of(
            settings.mask_char,
            m.value@.len(),
        ),
{
    let (start_char, end_char) = char_span_from_byte_span(text, start, end);
    let chars = to_chars(text);
    let value = substring(&chars, start_char, end_char);
    let replacement = settings.replacement_for(config, value.as_str());
    PiiMatch::new(
        start_char,
        end_char,
        value,
        config.entity_type.clone(),
        config.name.clone(),
        replacement,
        config.priority,
        config.order,
    )
}

/// The character that ends just before byte offset `byte_index`.
pub fn previous_char(text: &str, byte_index: usize) -> (r: Option<char>)
    requires
        is_boundary(text@, byte_index as int),
    ensures
        r == char_before(text@, byte_index as int),
{
    let chars = to_chars(text);
    let i = char_index_of_byte(&chars, byte_index);
    if i == 0 {
        None
    } else {
        Some(chars[i - 1])
    }
}

/// The character that starts at byte offset `byte_index`.
pub fn next_char(text: &str, byte_index: usize) -> (r: Option<char>)
    requires
        is_boundary(text@, byte_index as int),
    ensures
        r == char_after(text@, byte_index as int),
{
    let chars = to_chars(text);
    let i = char_index_of_byte(&chars, byte_index);
    if i == chars.len() {
        None
    } else {
        Some(chars[i])
    }
}

/// The matches for character spans `(start, end, matched text)` that another
/// regex engine reported, empty spans left out.
pub fn matches_from_char_spans(
    config: &DetectorConfig,
    spans: &Vec<(usize, usize, String)>,
    settings: &RedactionSettings,
) -> (r: Vec<PiiMatch>)
    ensures
        views(r@) == char_spans_to_matches(spans@, config@, settings@),
{
    let mut out: Vec<PiiMatch> = Vec::new();
    let mut i: usize = 0;
    let ghost keep = |sp: (usize, usize, String)| sp.0 != sp.1;
    let ghost f = |sp: (usize, usize, String)| match_from_char_span(sp, config@, settings@);
    while i < spans.len()
        invariant
            i <= spans@.len(),
            keep == (|sp: (usize, usize, String)| sp.0 != sp.1),
            f == (|sp: (usize, usize, String)| match_from_char_span(sp, config@, settings@)),
            views(out@) == spans@.take(i as int).filter(keep).map_values(f),
        decreases spans.len() - i,
    {
        proof {
            assert(spans@.take(i + 1) =~= spans@.take(i as int).push(spans@[i as int]));
            spans@.take(i as int).lemma_filter_push(spans@[i as int], keep);
        }
        let (start, end, value) = &spans[i];
        if *start != *end {
            let replacement = settings.replacement_for(config, value.as_str());
            let m = PiiMatch::new(
                *start,
                *end,
                value.clone(),
                config.entity_type.clone(),
                config.name.clone(),
                replacement,
                config.priority,
                config.order,
            );
            let ghost before = out@;
            let ghost filtered = spans@.take(i as int).filter(keep);
            out.push(m);
            assert(views(out@) =~= views(before).push(m@));
            assert(filtered.push(spans@[i as int]).map_values(f) =~= filtered.map_values(f).push(
                f(spans@[i as int]),
            ));
        }
        i = i + 1;
    }
    assert(spans@.take(spans@.len() as int) =~= spans@);
    out
}

/// The matches of `regex` in `text`, empty matches left out.
pub fn detect_with_rust_regex(
    config: &DetectorConfig,
    regex: &CompiledPattern,
    text: &str,
    settings: &RedactionSettings,
) -> (r: Vec<PiiMatch>)
    ensures
        views(r@) == spans_to_matches(
            text@,
            regex_find_spans(regex.source(), text@),
            nonempty_span(),
            config@,
            settings@,
        ),
        within(views(r@), text@.len() as int),
        faithful(views(r@), text@, settings@),
        chained(views(r@)),
        all_made_by(views(r@), config@, text@, settings@),
{
    let spans = find_spans(regex, text);
    let mut out: Vec<PiiMatch> = Vec::new();
    let mut i: usize = 0;
    while i < spans.len()
        invariant
            i <= spans@.len(),
            spans@ == regex_find_spans(regex.source(), text@),
            successive(spans@),
            forall|k: int| 0 <= k < spans@.len() ==> valid_byte_span(text@, #[trigger] spans@[k]),
            views(out@) == spans_to_matches(
                text@,
                spans@.take(i as int),
                nonempty_span(),
                config@,
                settings@,
            ),
            within(views(out@), text@.len() as int),
            faithful(views(out@), text@, settings@),
            all_made_by(views(out@), config@, text@, settings@),
        decreases spans.len() - i,
    {
        let (start, end) = spans[i];
        proof {
            lemma_spans_step(text@, spans@, i as int, nonempty_span(), config@, settings@);
        }
        if start != end {
            let m = pii_match_from_byte_span(config, text, start, end, settings);
            let ghost before = out@;
            out.push(m);
            assert(views(out@) =~= views(before).push(m@));
        }
        i = i + 1;
    }
    assert(spans@.take(spans@.len() as int) =~= spans@);
    proof {
        law_ordered_spans_give_chained_matches(text@, spans@, nonempty_span(), config@, settings@);
    }
    out
}

} // verus!
