use redactix::detectors::credit_card::{is_digit_boundary, CREDIT_CARD_PATTERN};
use redactix::detectors::email::EMAIL_PATTERN;
use redactix::detectors::phone::{
    is_left_phone_boundary, is_plausible_phone, is_right_phone_boundary, is_word_character,
    PHONE_PATTERN,
};
use redactix::detectors::{
    char_span_from_byte_span, detect_with_rust_regex, matches_from_char_spans, next_char,
    pii_match_from_byte_span, previous_char,
};
use redactix::matcher::compile_regex;
use redactix::{DetectorConfig, MaskStrategy, RedactionSettings};

fn config() -> DetectorConfig {
    DetectorConfig {
        name: "token".to_string(),
        entity_type: "TOKEN".to_string(),
        placeholder: None,
        enabled: true,
        priority: 7,
        order: 3,
    }
}

fn settings() -> RedactionSettings {
    RedactionSettings {
        mask_strategy: MaskStrategy::Placeholder,
        placeholder_format: "[{entity_type}]".to_string(),
        mask_char: '*',
        fixed_mask: String::new(),
    }
}

#[test]
fn plausible_phone_digit_counts() {
    assert!(is_plausible_phone("555-123-4567"));
    assert!(is_plausible_phone("+44 20 7946 0958"));
    assert!(!is_plausible_phone("123-4567"));
    assert!(!is_plausible_phone("1234567890123456"));
    assert!(!is_plausible_phone("777-777-7777"));
}

#[test]
fn word_characters() {
    assert!(is_word_character('_'));
    assert!(is_word_character('a'));
    assert!(is_word_character('7'));
    assert!(is_word_character('é'));
    assert!(!is_word_character('-'));
    assert!(!is_word_character(' '));
}

#[test]
fn phone_boundaries() {
    let text = "+1 555 x";
    assert!(is_left_phone_boundary(text, 0));
    assert!(!is_left_phone_boundary(text, 1));
    assert!(is_left_phone_boundary(text, 3));
    assert!(!is_left_phone_boundary(text, 4));
    assert!(is_right_phone_boundary(text, 6));
    assert!(!is_right_phone_boundary(text, 3));
    assert!(is_right_phone_boundary(text, 8));
}

#[test]
fn digit_boundaries() {
    let text = "a1234 5678";
    assert!(is_digit_boundary(text, 1, 5));
    assert!(!is_digit_boundary(text, 2, 5));
    assert!(!is_digit_boundary(text, 1, 4));
    assert!(is_digit_boundary(text, 6, 10));
}

#[test]
fn characters_around_byte_offsets() {
    let text = "aé€b";
    assert_eq!(previous_char(text, 0), None);
    assert_eq!(previous_char(text, 3), Some('é'));
    assert_eq!(next_char(text, 3), Some('€'));
    assert_eq!(next_char(text, 7), None);
    assert_eq!(previous_char(text, 7), Some('b'));
}

#[test]
fn byte_spans_become_character_spans() {
    assert_eq!(char_span_from_byte_span("hello", 1, 4), (1, 4));
    assert_eq!(char_span_from_byte_span("hello", 9, 2), (9, 2));
    assert_eq!(char_span_from_byte_span("aé€b", 1, 6), (1, 3));
    assert_eq!(char_span_from_byte_span("aé€b", 0, 7), (0, 4));
}

#[test]
fn match_from_byte_span() {
    let m = pii_match_from_byte_span(&config(), "né token here", 4, 9, &settings());
    assert_eq!(m.start, 3);
    assert_eq!(m.end, 8);
    assert_eq!(m.value, "token");
    assert_eq!(m.replacement, "[TOKEN]");
    assert_eq!(m.detector_name, "token");
    assert_eq!(m.priority, 7);
    assert_eq!(m.order, 3);
}

#[test]
fn rust_regex_detection_skips_empty_matches() {
    let re = compile_regex(r"x*").unwrap();
    assert_eq!(re.as_str(), "x*");
    let found = detect_with_rust_regex(&config(), &re, "axxb", &settings());
    assert_eq!(found.len(), 1);
    assert_eq!((found[0].start, found[0].end), (1, 3));
    assert_eq!(found[0].value, "xx");
}

#[test]
fn char_span_matches_skip_empty_spans() {
    let spans = vec![(0, 0, String::new()), (2, 5, "abc".to_string())];
    let found = matches_from_char_spans(&config(), &spans, &settings());
    assert_eq!(found.len(), 1);
    assert_eq!((found[0].start, found[0].end), (2, 5));
    assert_eq!(found[0].value, "abc");
    assert_eq!(found[0].replacement, "[TOKEN]");
}

#[test]
fn invalid_pattern_is_rejected() {
    assert!(compile_regex("(unclosed").is_err());
    assert!(compile_regex(r"\d+").is_ok());
}

#[test]
fn regex_matches_come_in_text_order() {
    let re = compile_regex(r"\d+").unwrap();
    let found = detect_with_rust_regex(&config(), &re, "é1 b22 ç333 4444", &settings());
    let spans: Vec<(usize, usize)> = found.iter().map(|m| (m.start, m.end)).collect();
    assert_eq!(spans, vec![(1, 2), (4, 6), (8, 11), (12, 16)]);
    for pair in found.windows(2) {
        assert!(pair[0].end <= pair[1].start);
    }
}

#[test]
fn builtin_detectors_run_their_own_patterns() {
    let text = "mail a.b@example.org, call 555-123-4567, card 4111 1111 1111 1111.";
    let email_re = compile_regex(EMAIL_PATTERN).unwrap();
    let found = redactix::detectors::email::detect(text, &email_re, &config(), &settings());
    assert_eq!(found.len(), 1);
    assert_eq!(found[0].value, "a.b@example.org");
    let phone_re = compile_regex(PHONE_PATTERN).unwrap();
    let found = redactix::detectors::phone::detect(text, &phone_re, &config(), &settings());
    assert_eq!(found.len(), 1);
    assert_eq!(found[0].value, "555-123-4567");
    let card_re = compile_regex(CREDIT_CARD_PATTERN).unwrap();
    let found = redactix::detectors::credit_card::detect(text, &card_re, &config(), &settings());
    assert_eq!(found.len(), 1);
    assert_eq!(found[0].value, "4111 1111 1111 1111");
    assert_eq!((found[0].start, found[0].end), (46, 65));
    assert_eq!(found[0].order, 3);
    assert_eq!(found[0].replacement, "[TOKEN]");
}
