use redactix::validators::luhn::is_valid;

#[test]
fn luhn_accepts_a_valid_card_number() {
    assert!(is_valid("4111111111111111"));
    assert!(is_valid("4012888888881881"));
}

#[test]
fn luhn_rejects_a_wrong_check_digit() {
    assert!(!is_valid("4111111111111112"));
}

#[test]
fn luhn_rejects_bad_lengths_and_characters() {
    assert!(!is_valid("411111111111"));
    assert!(!is_valid("41111111111111111111"));
    assert!(!is_valid("4111-1111-1111-1111"));
    assert!(!is_valid(""));
}
