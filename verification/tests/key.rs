use blaze::key::{construct_key, to_hex_lower, verify_payload};

#[test]
fn key_of_hello_is_its_sha256_hex() {
    assert_eq!(
        construct_key("hello"),
        "2cf24dba5fb0a30e26e83b2ac5b9e29e1b161e5c1fa7425e73043362938b9824"
    );
}

#[test]
fn key_of_empty_payload() {
    assert_eq!(
        construct_key(""),
        "e3b0c44298fc1c149afbf4c8996fb92427ae41e4649b934ca495991b7852b855"
    );
}

#[test]
fn key_hashes_the_utf8_bytes() {
    assert_eq!(
        construct_key("grüße"),
        "8285d1ad84c6b6e475d3b50dbf90389c8c7a07a278d9ae46d5698cbe872e3834"
    );
}

#[test]
fn key_is_64_lower_case_hex_digits() {
    let key = construct_key("some payload");
    assert_eq!(key.len(), 64);
    assert!(key.chars().all(|c| c.is_ascii_digit() || ('a'..='f').contains(&c)));
}

#[test]
fn key_verifies_its_payload() {
    let key = construct_key("payload");
    assert!(verify_payload(&key, "payload"));
    assert!(!verify_payload(&key, "payloae"));
    assert!(!verify_payload("", "payload"));
    assert!(!verify_payload(&key.to_uppercase(), "payload"));
}

#[test]
fn hex_is_two_digits_per_byte_high_first() {
    assert_eq!(to_hex_lower(&vec![0x00, 0x0f, 0xa5, 0xff]), "000fa5ff");
    assert_eq!(to_hex_lower(&vec![]), "");
}
