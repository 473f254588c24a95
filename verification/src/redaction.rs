//! Splicing replacements into text.
use vstd::prelude::*;

use crate::error::{ErrorView, RedactixError};
use crate::text::{push_range, string_from_chars, to_chars};
use crate::detectors::overlaps::{chained, overlaps, position_le, sorted_disjoint};
use crate::types::{faithful, mask_of, views, within, MaskStrategy, MatchView, PiiMatch, SettingsView};

verus! {

/// `prefix` put in front of a successful result.
pub open spec fn prefixed(prefix: Seq<char>, o: Option<Seq<char>>) -> Option<Seq<char>> {
    match o {
        Some(r) => Some(prefix + r),
        None => None,
    }
}

/// The text from character `cursor` on with each match of `ms` replaced, or
/// `None` when a match starts before `cursor` or the previous match, ends past
/// the text, or ends before it starts.
pub open spec fn redacted(t: Seq<char>, ms: Seq<MatchView>, cursor: int) -> Option<Seq<char>>
    decreases ms.len(),
{
    if ms.len() == 0 {
        Some(t.subrange(cursor, t.len() as int))
    } else {
        let m = ms[0];
        if m.start < cursor || m.end > t.len() || m.start > m.end {
            None
        } else {
            prefixed(
                t.subrange(cursor, m.start as int) + m.replacement,
                redacted(t, ms.drop_first(), m.end as int),
            )
        }
    }
}

proof fn lemma_chain_redacts(t: Seq<char>, ms: Seq<MatchView>, cursor: int)
    requires
        0 <= cursor <= t.len(),
        within(ms, t.len() as int),
        forall|i: int| 0 < i < ms.len() ==> ms[i - 1].end <= #[trigger] ms[i].start,
        ms.len() > 0 ==> cursor <= ms[0].start,
    ensures
        redacted(t, ms, cursor) is Some,
    decreases ms.len(),
{
    if ms.len() > 0 {
        let rest = ms.drop_first();
        assert(ms[0].start <= ms[0].end <= t.len());
        assert forall|i: int| 0 < i < rest.len() implies rest[i - 1].end <= #[trigger] rest[i].start by {
            assert(ms[i].end <= ms[i + 1].start);
        }
        assert forall|k: int| 0 <= k < rest.len() implies #[trigger] rest[k].start <= rest[k].end
            <= t.len() by {
            assert(ms[k + 1].start <= ms[k + 1].end <= t.len());
        }
        if rest.len() > 0 {
            assert(ms[0].end <= ms[1].start);
        }
        lemma_chain_redacts(t, rest, ms[0].end as int);
    }
}

/// Matches that are sorted, free of overlaps and inside the text can always be
/// spliced into it: redaction succeeds.
pub proof fn law_disjoint_matches_redact(t: Seq<char>, ms: Seq<MatchView>)
    requires
        sorted_disjoint(ms),
        within(ms, t.len() as int),
    ensures
        redacted(t, ms, 0) is Some,
{
    assert forall|i: int| 0 < i < ms.len() implies ms[i - 1].end <= #[trigger] ms[i].start by {
        assert(position_le(ms[i - 1], ms[i]) && !overlaps(ms[i - 1], ms[i]));
        assert(ms[i - 1].start <= ms[i - 1].end <= t.len());
        assert(ms[i].start <= ms[i].end <= t.len());
    }
    if ms.len() > 0 {
        assert(ms[0].start <= ms[0].end <= t.len());
    }
    lemma_chain_redacts(t, ms, 0);
}

/// Matches in which each starts no earlier than the previous one ends (what
/// `sort_and_remove_overlaps` returns), inside the text, can always be spliced in.
pub proof fn law_chained_matches_redact(t: Seq<char>, ms: Seq<MatchView>)
    requires
        chained(ms),
        within(ms, t.len() as int),
    ensures
        redacted(t, ms, 0) is Some,
{
    lemma_chain_redacts(t, ms, 0);
}

/// Without matches, redaction gives back the text unchanged.
pub proof fn law_no_matches_keeps_text(t: Seq<char>)
    ensures
        redacted(t, Seq::empty(), 0) == Some(t),
{
    assert(t.subrange(0, t.len() as int) =~= t);
}

/// Some match of `ms` covers character `i`.
pub open spec fn covers(ms: Seq<MatchView>, i: int) -> bool {
    exists|k: int| 0 <= k < ms.len() && #[trigger] ms[k].start <= i < ms[k].end
}

/// `t` with each character that a match of `ms` covers replaced by `c`.
pub open spec fn masked_text(t: Seq<char>, ms: Seq<MatchView>, c: char) -> Seq<char> {
    Seq::new(t.len(), |i: int| if covers(ms, i) { c } else { t[i] })
}

/// Every match ends no later than any later match starts.
pub open spec fn separated(ms: Seq<MatchView>) -> bool {
    forall|i: int, j: int| 0 <= i < j < ms.len() ==> #[trigger] ms[i].end <= #[trigger] ms[j].start
}

/// Sorted, overlap-free matches inside a text are separated.
proof fn lemma_sorted_disjoint_separated(ms: Seq<MatchView>, n: int)
    requires
        sorted_disjoint(ms),
        within(ms, n),
    ensures
        separated(ms),
{
    assert forall|i: int, j: int| 0 <= i < j < ms.len() implies #[trigger] ms[i].end
        <= #[trigger] ms[j].start by {
        assert(position_le(ms[i], ms[j]) && !overlaps(ms[i], ms[j]));
        assert(ms[i].start <= ms[i].end);
        assert(ms[j].start <= ms[j].end);
    }
}

proof fn lemma_chain_masks(t: Seq<char>, ms: Seq<MatchView>, cursor: int, s: SettingsView)
    requires
        0 <= cursor <= t.len(),
        within(ms, t.len() as int),
        faithful(ms, t, s),
        s.mask_strategy == MaskStrategy::LengthPreserving,
        separated(ms),
        forall|k: int| 0 <= k < ms.len() ==> cursor <= #[trigger] ms[k].start,
    ensures
        redacted(t, ms, cursor) == Some(masked_text(t, ms, s.mask_char).subrange(cursor, t.len() as int)),
    decreases ms.len(),
{
    let c = s.mask_char;
    if ms.len() == 0 {
        assert(masked_text(t, ms, c).subrange(cursor, t.len() as int) =~= t.subrange(cursor, t.len() as int));
    } else {
        let m = ms[0];
        let rest = ms.drop_first();
        assert(m.start <= m.end <= t.len());
        assert(m.value == t.subrange(m.start as int, m.end as int));
        assert(m.replacement == mask_of(c, m.value.len()));
        assert forall|k: int| 0 <= k < rest.len() implies #[trigger] rest[k].start <= rest[k].end
            <= t.len() by {
            assert(rest[k] == ms[k + 1]);
        }
        assert forall|k: int|
            #![trigger rest[k]]
            0 <= k < rest.len() implies rest[k].value == t.subrange(
                rest[k].start as int,
                rest[k].end as int,
            ) && (s.mask_strategy == MaskStrategy::LengthPreserving ==> rest[k].replacement
                == mask_of(c, rest[k].value.len())) by {
            assert(rest[k] == ms[k + 1]);
        }
        assert forall|i: int, j: int| 0 <= i < j < rest.len() implies #[trigger] rest[i].end
            <= #[trigger] rest[j].start by {
            assert(ms[i + 1].end <= ms[j + 1].start);
        }
        assert forall|k: int| 0 <= k < rest.len() implies m.end <= #[trigger] rest[k].start by {
            assert(ms[0].end <= ms[k + 1].start);
        }
        lemma_chain_masks(t, rest, m.end as int, s);
        let whole = masked_text(t, ms, c);
        let tail = masked_text(t, rest, c);
        let out = t.subrange(cursor, m.start as int) + m.replacement + tail.subrange(
            m.end as int,
            t.len() as int,
        );
        assert forall|x: int| 0 <= x < out.len() implies out[x] == whole.subrange(
            cursor,
            t.len() as int,
        )[x] by {
            let i = cursor + x;
            if i < m.start {
                assert forall|k: int| 0 <= k < ms.len() implies !(#[trigger] ms[k].start <= i
                    < ms[k].end) by {
                    if k > 0 {
                        assert(ms[0].end <= ms[k].start);
                    }
                }
                assert(!covers(ms, i));
            } else if i < m.end {
                assert(ms[0].start <= i < ms[0].end);
                assert(covers(ms, i));
            } else {
                if covers(ms, i) {
                    let k = choose|k: int| 0 <= k < ms.len() && #[trigger] ms[k].start <= i < ms[k].end;
                    assert(k != 0);
                    assert(rest[k - 1] == ms[k]);
                    assert(rest[k - 1].start <= i < rest[k - 1].end);
                    assert(covers(rest, i));
                }
                if covers(rest, i) {
                    let k = choose|k: int| 0 <= k < rest.len() && #[trigger] rest[k].start <= i < rest[k].end;
                    assert(rest[k] == ms[k + 1]);
                    assert(ms[k + 1].start <= i < ms[k + 1].end);
                    assert(covers(ms, i));
                }
            }
        }
        assert(out =~= whole.subrange(cursor, t.len() as int));
    }
}

/// Under length-preserving masking, redacting sorted, overlap-free matches that
/// hold the text they cover keeps the length of the text and replaces exactly the
/// covered characters by the mask character, leaving every other one as it was.
pub proof fn law_length_preserving_redaction(t: Seq<char>, ms: Seq<MatchView>, s: SettingsView)
    requires
        sorted_disjoint(ms),
        within(ms, t.len() as int),
        faithful(ms, t, s),
        s.mask_strategy == MaskStrategy::LengthPreserving,
    ensures
        redacted(t, ms, 0) == Some(masked_text(t, ms, s.mask_char)),
        redacted(t, ms, 0) matches Some(out) && out.len() == t.len() && forall|i: int|
            0 <= i < t.len() ==> #[trigger] out[i] == if covers(ms, i) {
                s.mask_char
            } else {
                t[i]
            },
{
    lemma_sorted_disjoint_separated(ms, t.len() as int);
    assert forall|k: int| 0 <= k < ms.len() implies 0 <= #[trigger] ms[k].start by {}
    lemma_chain_masks(t, ms, 0, s);
    assert(masked_text(t, ms, s.mask_char).subrange(0, t.len() as int) =~= masked_text(t, ms, s.mask_char));
}

/// Masking depends only on which matches are present, not on their order or
/// repetition.
pub proof fn law_masking_depends_on_matches_only(
    t: Seq<char>,
    ms1: Seq<MatchView>,
    ms2: Seq<MatchView>,
    c: char,
)
    requires
        forall|x: MatchView| ms1.contains(x) <==> ms2.contains(x),
    ensures
        masked_text(t, ms1, c) == masked_text(t, ms2, c),
{
    assert forall|i: int| 0 <= i < t.len() implies covers(ms1, i) == covers(ms2, i) by {
        if covers(ms1, i) {
            let k = choose|k: int| 0 <= k < ms1.len() && #[trigger] ms1[k].start <= i < ms1[k].end;
            assert(ms1.contains(ms1[k]));
            let j = choose|j: int| 0 <= j < ms2.len() && ms2[j] == ms1[k];
            assert(ms2[j].start <= i < ms2[j].end);
        }
        if covers(ms2, i) {
            let k = choose|k: int| 0 <= k < ms2.len() && #[trigger] ms2[k].start <= i < ms2[k].end;
            assert(ms2.contains(ms2[k]));
            let j = choose|j: int| 0 <= j < ms1.len() && ms1[j] == ms2[k];
            assert(ms1[j].start <= i < ms1[j].end);
        }
    }
    assert(masked_text(t, ms1, c) =~= masked_text(t, ms2, c));
}

/// Replaces each match of `matches`, in order, by its replacement.
pub fn apply_redaction(text: &str, matches: &[PiiMatch]) -> (r: Result<String, RedactixError>)
    ensures
        match redacted(text@, views(matches@), 0) {
            Some(s) => r matches Ok(out) && out@ == s,
            None => r matches Err(e) && e@ == ErrorView::InvalidMatchSpan,
        },
{
    let chars = to_chars(text);
    let ghost ms = views(matches@);
    let mut output: Vec<char> = Vec::new();
    let mut cursor: usize = 0;
    let mut i: usize = 0;
    assert(ms.skip(0) =~= ms);
    assert(output@ + Seq::<char>::empty() =~= Seq::<char>::empty());
    while i < matches.len()
        invariant
            chars@ == text@,
            ms == views(matches@),
            i <= matches@.len(),
            cursor <= chars@.len(),
            redacted(text@, ms, 0) == prefixed(output@, redacted(text@, ms.skip(i as int), cursor as int)),
        decreases matches.len() - i,
    {
        let m = &matches[i];
        assert(ms.skip(i as int)[0] == m@);
        assert(ms.skip(i as int).drop_first() =~= ms.skip(i + 1));
        if m.start < cursor || m.end > chars.len() || m.start > m.end {
            return Err(RedactixError::InvalidMatchSpan);
        }
        let ghost before = output@;
        let ghost old_cursor = cursor;
        push_range(&mut output, &chars, cursor, m.start);
        let replacement = to_chars(m.replacement.as_str());
        let n = replacement.len();
        push_range(&mut output, &replacement, 0, n);
        assert(replacement@.subrange(0, n as int) =~= replacement@);
        let ghost seg = chars@.subrange(old_cursor as int, m.start as int) + m.replacement@;
        assert(output@ =~= before + seg);
        cursor = m.end;
        i = i + 1;
        proof {
            match redacted(text@, ms.skip(i as int), cursor as int) {
                Some(x) => {
                    assert((before + seg) + x =~= before + (seg + x));
                },
                None => {},
            }
        }
    }
    assert(ms.skip(i as int).len() == 0);
    let n = chars.len();
    push_range(&mut output, &chars, cursor, n);
    Ok(string_from_chars(output.as_slice()))
}

} // verus!
