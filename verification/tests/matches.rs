use redactix::detectors::{resolve_overlaps, sort_and_remove_overlaps};
use redactix::redaction::apply_redaction;
use redactix::{DetectorConfig, MaskStrategy, PiiMatch, RedactionSettings, RedactixError};

fn m(start: usize, end: usize, replacement: &str, priority: i32, order: usize) -> PiiMatch {
    PiiMatch::new(
        start,
        end,
        String::new(),
        "T".to_string(),
        "t".to_string(),
        replacement.to_string(),
        priority,
        order,
    )
}

fn spans(ms: &[PiiMatch]) -> Vec<(usize, usize)> {
    ms.iter().map(|x| (x.start, x.end)).collect()
}

#[test]
fn apply_redaction_splices_replacements() {
    let ms = vec![m(0, 5, "[A]", 0, 0), m(6, 11, "[B]", 0, 0)];
    assert_eq!(apply_redaction("hello world!", &ms).unwrap(), "[A] [B]!");
}

#[test]
fn apply_redaction_without_matches_keeps_text() {
    assert_eq!(apply_redaction("héllo", &[]).unwrap(), "héllo");
}

#[test]
fn apply_redaction_counts_characters() {
    let ms = vec![m(1, 3, "_", 0, 0)];
    assert_eq!(apply_redaction("aéüz", &ms).unwrap(), "a_z");
}

#[test]
fn apply_redaction_rejects_bad_spans() {
    let overlapping = vec![m(0, 5, "x", 0, 0), m(3, 6, "y", 0, 0)];
    let err = apply_redaction("hello world", &overlapping).err().unwrap();
    assert!(matches!(err, RedactixError::InvalidMatchSpan));
    assert_eq!(err.message(), "invalid match span while redacting");
    assert!(apply_redaction("abc", &[m(1, 4, "x", 0, 0)]).is_err());
    assert!(apply_redaction("abc", &[m(2, 1, "x", 0, 0)]).is_err());
}

#[test]
fn sort_and_remove_overlaps_keeps_first_longest() {
    let ms = vec![m(4, 6, "", 0, 0), m(0, 3, "", 0, 1), m(0, 5, "", 0, 2), m(5, 9, "", 0, 3)];
    let kept = sort_and_remove_overlaps(ms);
    assert_eq!(spans(&kept), vec![(0, 5), (5, 9)]);
}

#[test]
fn scan_result_can_be_redacted() {
    let ms = vec![m(2, 4, "<b>", 0, 0), m(0, 3, "<a>", 0, 1), m(6, 8, "<c>", 0, 2)];
    let kept = sort_and_remove_overlaps(ms);
    assert_eq!(apply_redaction("abcdefghij", &kept).unwrap(), "<a>def<c>ij");
}

#[test]
fn resolve_overlaps_prefers_priority_then_length() {
    let ms = vec![m(0, 10, "", 1, 0), m(2, 4, "", 5, 1), m(5, 9, "", 1, 2), m(8, 12, "", 1, 3)];
    let kept = resolve_overlaps(ms);
    assert_eq!(spans(&kept), vec![(2, 4), (5, 9)]);
}

#[test]
fn resolve_overlaps_ties_go_to_earlier_position_then_order() {
    let ms = vec![m(3, 6, "", 1, 0), m(1, 4, "", 1, 1)];
    assert_eq!(spans(&resolve_overlaps(ms)), vec![(1, 4)]);
    let ms = vec![m(1, 4, "b", 1, 7), m(1, 4, "a", 1, 2)];
    let kept = resolve_overlaps(ms);
    assert_eq!(kept.len(), 1);
    assert_eq!(kept[0].replacement, "a");
}

#[test]
fn resolve_overlaps_sorts_disjoint_matches() {
    let ms = vec![m(7, 9, "", 0, 0), m(0, 2, "", 0, 1), m(3, 5, "", 9, 2)];
    assert_eq!(spans(&resolve_overlaps(ms)), vec![(0, 2), (3, 5), (7, 9)]);
    assert!(resolve_overlaps(vec![]).is_empty());
}

#[test]
fn pii_match_len_saturates() {
    assert_eq!(m(2, 7, "", 0, 0).len(), 5);
    assert_eq!(m(7, 2, "", 0, 0).len(), 0);
}

fn config(placeholder: Option<&str>) -> DetectorConfig {
    DetectorConfig {
        name: "email".to_string(),
        entity_type: "EMAIL".to_string(),
        placeholder: placeholder.map(|p| p.to_string()),
        enabled: true,
        priority: 100,
        order: 0,
    }
}

fn settings(strategy: MaskStrategy) -> RedactionSettings {
    RedactionSettings {
        mask_strategy: strategy,
        placeholder_format: "{{{entity_type}}}/{detector_name}/{entity_type}".to_string(),
        mask_char: '•',
        fixed_mask: "[X]".to_string(),
    }
}

#[test]
fn replacement_for_each_strategy() {
    let s = settings(MaskStrategy::Placeholder);
    assert_eq!(s.replacement_for(&config(None), "a@b.co"), "{{EMAIL}}/email/EMAIL");
    assert_eq!(s.replacement_for(&config(Some("<mail>")), "a@b.co"), "<mail>");
    assert_eq!(settings(MaskStrategy::Fixed).replacement_for(&config(None), "a@b.co"), "[X]");
    assert_eq!(
        settings(MaskStrategy::LengthPreserving).replacement_for(&config(None), "añb"),
        "•••"
    );
}

#[test]
fn sort_and_remove_overlaps_keeps_earlier_of_equal_spans() {
    let ms = vec![
        m(7, 9, "[late]", 0, 0),
        m(2, 5, "[first]", 0, 1),
        m(2, 5, "[second]", 0, 2),
        m(7, 9, "[later]", 0, 3),
    ];
    let kept = sort_and_remove_overlaps(ms);
    assert_eq!(spans(&kept), vec![(2, 5), (7, 9)]);
    assert_eq!(kept[0].replacement, "[first]");
    assert_eq!(kept[0].order, 1);
    assert_eq!(kept[1].replacement, "[late]");
    assert_eq!(kept[1].order, 0);
}
