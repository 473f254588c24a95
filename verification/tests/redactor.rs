use redactix::redactor::{
    entity_type_for_name, normalize_detector_name, settings_from_parts,
    validate_builtin_detectors, BuiltinDetector, Redactor,
};
use redactix::{MaskStrategy, RedactionSettings, RedactixError};

fn settings(strategy: &str) -> RedactionSettings {
    settings_from_parts(strategy, "{{{entity_type}}}", "*", "***").unwrap()
}

fn default_redactor() -> Redactor {
    Redactor::new(None, settings("placeholder")).unwrap()
}

#[test]
fn redact_replaces_email_with_placeholder() {
    let r = default_redactor();
    assert_eq!(r.redact("Email alex@example.com"), "Email {{EMAIL}}");
}

#[test]
fn redact_with_fixed_mask() {
    let r = Redactor::new(None, settings("fixed")).unwrap();
    assert_eq!(r.redact("Email alex@example.com"), "Email ***");
}

#[test]
fn redact_with_length_preserving_mask() {
    let r = Redactor::new(None, settings("length_preserving")).unwrap();
    assert_eq!(r.redact("Email alex@example.com"), "Email ****************");
}

#[test]
fn length_preserving_keeps_length_with_non_ascii_text() {
    let r = Redactor::new(None, settings_from_parts("length_preserving", "", "#", "").unwrap())
        .unwrap();
    let text = "Grüße an joerg@example.com, ça va?";
    let out = r.redact(text);
    assert_eq!(out.chars().count(), text.chars().count());
    assert_eq!(out, "Grüße an #################, ça va?");
}

#[test]
fn detect_reports_email_match() {
    let r = default_redactor();
    let found = r.detect("Email alex@example.com");
    assert_eq!(found.len(), 1);
    let m = &found[0];
    assert_eq!(m.start, 6);
    assert_eq!(m.end, 22);
    assert_eq!(m.value, "alex@example.com");
    assert_eq!(m.entity_type, "EMAIL");
    assert_eq!(m.detector_name, "email");
    assert_eq!(m.replacement, "{{EMAIL}}");
    assert_eq!(m.priority, 100);
    assert_eq!(m.order, 0);
}

#[test]
fn detect_uses_character_offsets() {
    let r = default_redactor();
    let found = r.detect("Ünïcödé alex@example.com");
    assert_eq!(found.len(), 1);
    assert_eq!(found[0].start, 8);
    assert_eq!(found[0].end, 24);
}

#[test]
fn detect_phone_number() {
    let r = default_redactor();
    let found = r.detect("Call me at 555-123-4567 today");
    assert_eq!(found.len(), 1);
    assert_eq!(found[0].value, "555-123-4567");
    assert_eq!(found[0].entity_type, "PHONE");
    assert_eq!(r.redact("Call me at 555-123-4567 today"), "Call me at {{PHONE}} today");
}

#[test]
fn phone_with_repeated_digit_is_ignored() {
    let r = default_redactor();
    assert!(r.detect("Call 111-111-1111 now").is_empty());
}

#[test]
fn phone_glued_to_a_word_is_ignored() {
    let r = default_redactor();
    assert!(r.detect("id x555-123-4567").is_empty());
    assert!(r.detect("id 555-123-4567x").is_empty());
}

#[test]
fn detect_credit_card() {
    let r = default_redactor();
    let found = r.detect("Card 4111 1111 1111 1111 end");
    assert_eq!(found.len(), 1);
    assert_eq!(found[0].value, "4111 1111 1111 1111");
    assert_eq!(found[0].entity_type, "CREDIT_CARD");
    assert_eq!(r.redact("Card 4111-1111-1111-1111."), "Card {{CREDIT_CARD}}.");
}

#[test]
fn credit_card_failing_luhn_is_ignored() {
    let r = default_redactor();
    assert!(r.detect("Card 4111 1111 1111 1112 end").is_empty());
}

#[test]
fn text_without_personal_data_is_unchanged() {
    let r = default_redactor();
    assert_eq!(r.redact("nothing to see here"), "nothing to see here");
    assert_eq!(r.redact(""), "");
}

#[test]
fn only_selected_builtins_run() {
    let r = Redactor::new(Some(vec!["email".to_string()]), settings("placeholder")).unwrap();
    assert_eq!(
        r.redact("alex@example.com 555-123-4567"),
        "{{EMAIL}} 555-123-4567"
    );
    let none = Redactor::new(Some(vec![]), settings("placeholder")).unwrap();
    assert_eq!(none.redact("alex@example.com"), "alex@example.com");
}

#[test]
fn builtin_selection_errors() {
    let err = Redactor::new(Some(vec!["ssn".to_string()]), settings("placeholder")).err().unwrap();
    assert!(matches!(err, RedactixError::UnknownBuiltinDetector { ref name } if name == "ssn"));
    assert_eq!(
        err.message(),
        "invalid built-in detector 'ssn'; expected one of: email, phone, credit_card"
    );
    let err = Redactor::new(
        Some(vec!["email".to_string(), " EMAIL ".to_string()]),
        settings("placeholder"),
    )
    .err()
    .unwrap();
    assert_eq!(err.message(), "detector 'email' already exists");
}

#[test]
fn custom_detector_from_readme() {
    let mut r = Redactor::new(Some(vec![]), settings("placeholder")).unwrap();
    r.register_detector(
        "employee_id".to_string(),
        r"\bEMP\d{6}\b".to_string(),
        Some("{{EMPLOYEE_ID}}".to_string()),
        true,
        100,
    )
    .unwrap();
    assert!(r.contains_detector("employee_id"));
    assert_eq!(r.redact("badge EMP123456 issued"), "badge {{EMPLOYEE_ID}} issued");
    let found = r.detect("badge EMP123456 issued");
    assert_eq!(found[0].detector_name, "employee_id");
    assert_eq!(found[0].entity_type, "EMPLOYEE_ID");
    assert_eq!(found[0].order, 0);
}

#[test]
fn custom_detector_uses_placeholder_format() {
    let mut r = Redactor::new(
        Some(vec![]),
        settings_from_parts("placeholder", "<{detector_name}:{entity_type}>", "*", "").unwrap(),
    )
    .unwrap();
    r.register_detector(" Ticket_No ".to_string(), r"T-\d+".to_string(), None, true, 5)
        .unwrap();
    assert_eq!(r.redact("see T-42 and T-7"), "see <ticket_no:TICKET_NO> and <ticket_no:TICKET_NO>");
}

#[test]
fn disabled_custom_detector_finds_nothing() {
    let mut r = Redactor::new(Some(vec![]), settings("placeholder")).unwrap();
    r.register_detector("word".to_string(), "secret".to_string(), None, false, 100)
        .unwrap();
    assert_eq!(r.redact("a secret"), "a secret");
}

#[test]
fn registering_a_taken_name_fails() {
    let mut r = default_redactor();
    let err = r
        .register_detector("Email".to_string(), "x".to_string(), None, true, 1)
        .err()
        .unwrap();
    assert!(matches!(err, RedactixError::DetectorExists { ref name } if name == "email"));
    r.register_detector("custom".to_string(), "x".to_string(), None, true, 1).unwrap();
    let err = r
        .register_detector("CUSTOM".to_string(), "y".to_string(), None, true, 1)
        .err()
        .unwrap();
    assert_eq!(err.message(), "detector 'custom' already exists");
}

#[test]
fn builtin_names_are_reserved_even_when_not_enabled() {
    let mut r = Redactor::new(Some(vec![]), settings("placeholder")).unwrap();
    let err = r.register_detector("phone".to_string(), "x".to_string(), None, true, 1).err().unwrap();
    assert!(matches!(err, RedactixError::DetectorExists { .. }));
}

#[test]
fn register_rejects_bad_names_and_patterns() {
    let mut r = default_redactor();
    let err = r.register_detector("   ".to_string(), "x".to_string(), None, true, 1).err().unwrap();
    assert!(matches!(err, RedactixError::EmptyDetectorName));
    let err = r.register_detector("9lives".to_string(), "x".to_string(), None, true, 1).err().unwrap();
    assert!(matches!(err, RedactixError::InvalidDetectorName));
    let err = r.register_detector("has-dash".to_string(), "x".to_string(), None, true, 1).err().unwrap();
    assert!(matches!(err, RedactixError::InvalidDetectorName));
    let err = r.register_detector("broken".to_string(), "(".to_string(), None, true, 1).err().unwrap();
    match err {
        RedactixError::InvalidRegex { ref name, .. } => assert_eq!(name, "broken"),
        _ => panic!("expected an invalid regex error"),
    }
    assert!(err.message().starts_with("invalid regex for detector 'broken': "));
    assert!(!r.contains_detector("broken"));
}

#[test]
fn higher_priority_wins_overlaps() {
    let mut r = default_redactor();
    r.register_detector("internal".to_string(), "alex@example".to_string(), None, true, 200)
        .unwrap();
    assert_eq!(r.redact("Email alex@example.com"), "Email {{INTERNAL}}.com");
}

#[test]
fn longer_match_wins_on_equal_priority() {
    let mut r = default_redactor();
    r.register_detector("host".to_string(), "example".to_string(), None, true, 100)
        .unwrap();
    assert_eq!(r.redact("Email alex@example.com"), "Email {{EMAIL}}");
}

#[test]
fn normalize_detector_name_rules() {
    assert_eq!(normalize_detector_name("  Employee_ID\t").unwrap(), "employee_id");
    assert_eq!(normalize_detector_name("_x1").unwrap(), "_x1");
    assert!(matches!(normalize_detector_name(""), Err(RedactixError::EmptyDetectorName)));
    assert!(matches!(normalize_detector_name("1x"), Err(RedactixError::InvalidDetectorName)));
    assert!(matches!(normalize_detector_name("é"), Err(RedactixError::InvalidDetectorName)));
}

#[test]
fn normalized_name_is_stable() {
    let once = normalize_detector_name(" Mixed_Case9 ").unwrap();
    let twice = normalize_detector_name(&once).unwrap();
    assert_eq!(once, twice);
}

#[test]
fn entity_type_is_upper_case_name() {
    assert_eq!(entity_type_for_name("employee_id"), "EMPLOYEE_ID");
}

#[test]
fn builtin_detector_names() {
    for d in BuiltinDetector::all() {
        assert_eq!(BuiltinDetector::from_name(d.name()).unwrap(), d);
    }
    assert_eq!(BuiltinDetector::Email.entity_type(), "EMAIL");
    assert_eq!(BuiltinDetector::CreditCard.name(), "credit_card");
    assert!(BuiltinDetector::from_name("Email").is_err());
}

#[test]
fn validate_builtin_detectors_cases() {
    let v = validate_builtin_detectors(vec![" Phone ".to_string(), "credit_card".to_string()]).unwrap();
    assert_eq!(v, vec![BuiltinDetector::Phone, BuiltinDetector::CreditCard]);
    let err = validate_builtin_detectors(vec!["phone".to_string(), "PHONE".to_string()]).err().unwrap();
    assert!(matches!(err, RedactixError::DetectorExists { ref name } if name == "phone"));
}

#[test]
fn settings_from_parts_cases() {
    let s = settings_from_parts("length_preserving", "x", "#", "***").unwrap();
    assert_eq!(s.mask_strategy, MaskStrategy::LengthPreserving);
    assert_eq!(s.mask_char, '#');
    let s = settings_from_parts("fixed", "x", "", "[gone]").unwrap();
    assert_eq!(s.mask_char, '*');
    assert_eq!(s.fixed_mask, "[gone]");
    let s = settings_from_parts("placeholder", "x", "ab", "").unwrap();
    assert_eq!(s.mask_char, 'a');
    let err = settings_from_parts("blur", "x", "*", "").err().unwrap();
    assert_eq!(
        err.message(),
        "invalid mask_strategy 'blur'; expected one of: placeholder, fixed, length_preserving"
    );
    assert!(matches!(
        settings_from_parts("length_preserving", "x", "", ""),
        Err(RedactixError::EmptyMaskChar)
    ));
    assert!(matches!(
        settings_from_parts("length_preserving", "x", "ab", ""),
        Err(RedactixError::MaskCharNotSingle)
    ));
}

#[test]
fn registering_keeps_existing_detections() {
    let mut r = default_redactor();
    let text = "mail alex@example.com ref ZX-991";
    assert_eq!(r.detect(text).len(), 1);
    r.register_detector("reference".to_string(), r"ZX-\d+".to_string(), None, true, 50)
        .unwrap();
    let found = r.detect(text);
    assert_eq!(found.len(), 2);
    assert_eq!(found[0].detector_name, "email");
    assert_eq!(found[1].detector_name, "reference");
    assert_eq!(found[1].order, 3);
    assert_eq!(r.redact(text), "mail {{EMAIL}} ref {{REFERENCE}}");
}

#[test]
fn length_preserving_masks_exactly_the_covered_characters() {
    let mut r = Redactor::new(
        Some(vec![]),
        settings_from_parts("length_preserving", "", "#", "").unwrap(),
    )
    .unwrap();
    r.register_detector("pair".to_string(), "ab".to_string(), None, true, 10).unwrap();
    let text = "xabyé abz";
    let out = r.redact(text);
    assert_eq!(out, "x##yé ##z");
    let covered: Vec<(usize, usize)> = r.detect(text).iter().map(|m| (m.start, m.end)).collect();
    assert_eq!(covered, vec![(1, 3), (6, 8)]);
    let original: Vec<char> = text.chars().collect();
    let masked: Vec<char> = out.chars().collect();
    assert_eq!(masked.len(), original.len());
    for (i, c) in masked.iter().enumerate() {
        let is_covered = covered.iter().any(|&(s, e)| s <= i && i < e);
        assert_eq!(*c, if is_covered { '#' } else { original[i] });
    }
}

#[test]
fn registered_names_stay_distinct_normalized_and_ordered() {
    let mut r = default_redactor();
    r.register_detector(" Ref_Code ".to_string(), r"RC-\d+".to_string(), None, true, 50)
        .unwrap();
    assert!(r.contains_detector("ref_code"));
    assert!(!r.contains_detector("Ref_Code"));
    let err = r
        .register_detector("REF_CODE".to_string(), "z".to_string(), None, true, 1)
        .err()
        .unwrap();
    assert!(matches!(err, RedactixError::DetectorExists { ref name } if name == "ref_code"));
    assert!(r.register_detector("bad name".to_string(), "z".to_string(), None, true, 1).is_err());
    r.register_detector("Ticket".to_string(), r"TK-\d+".to_string(), None, true, 50).unwrap();
    assert_eq!(r.detector_count(), 5);
    let found = r.detect("TK-1 then RC-2");
    assert_eq!(found.len(), 2);
    assert_eq!((found[0].detector_name.as_str(), found[0].order), ("ticket", 4));
    assert_eq!((found[1].detector_name.as_str(), found[1].order), ("ref_code", 3));
}

#[test]
fn length_preserving_redact_masks_what_detect_reports() {
    let mut r = Redactor::new(
        None,
        settings_from_parts("length_preserving", "", "x", "").unwrap(),
    )
    .unwrap();
    r.register_detector("code".to_string(), r"K\d\d".to_string(), None, true, 100).unwrap();
    let text = "K12 to ann@example.com or K345, 555-123-4567";
    let found = r.detect(text);
    let out: Vec<char> = r.redact(text).chars().collect();
    let original: Vec<char> = text.chars().collect();
    assert_eq!(out.len(), original.len());
    for i in 0..original.len() {
        let covered = found.iter().any(|m| m.start <= i && i < m.end);
        assert_eq!(out[i], if covered { 'x' } else { original[i] });
    }
    assert_eq!(r.redact(text), "xxx to xxxxxxxxxxxxxxx or xxx5, xxxxxxxxxxxx");
}
