use sema_engine::record::{RecordIdentifier, RecordKey};

fn expected_digest_input(tag: u8, canonical: &str) -> Vec<u8> {
    let mut input = vec![tag];
    input.extend_from_slice(&(canonical.len() as u64).to_le_bytes());
    input.extend_from_slice(canonical.as_bytes());
    input
}

fn digest_of(key: &RecordKey) -> [u8; 32] {
    let mut input = Vec::new();
    key.update_digest(&mut input);
    *blake3::hash(&input).as_bytes()
}

fn digest_of_input(input: &[u8]) -> [u8; 32] {
    *blake3::hash(input).as_bytes()
}

#[test]
fn domain_key_digest_matches_tag_one_and_string_bytes() {
    let key = RecordKey::domain("alpha");
    let expected = expected_digest_input(1, "alpha");
    assert_eq!(digest_of(&key), digest_of_input(&expected));
}

#[test]
fn identifier_key_digest_matches_tag_two_and_decimal_string_bytes() {
    let key = RecordKey::identifier(RecordIdentifier::new(42));
    // Decimal string "42", NOT the u64 little-endian bytes.
    let expected = expected_digest_input(2, "42");
    assert_eq!(digest_of(&key), digest_of_input(&expected));
}

#[test]
fn identifier_value_is_infallible_projection_of_the_arm() {
    assert_eq!(
        RecordKey::identifier(RecordIdentifier::new(7)).identifier_value(),
        Some(RecordIdentifier::new(7)),
    );
    assert_eq!(RecordKey::domain("alpha").identifier_value(), None);
}

#[test]
fn canonical_string_form_is_stable_for_both_arms() {
    assert_eq!(RecordKey::domain("beta").to_owned_string(), "beta");
    assert_eq!(
        RecordKey::identifier(RecordIdentifier::new(1)).to_owned_string(),
        "1",
    );
}
