use catalog_core::hashing::xxh3_128_hex;

#[test]
fn hash_is_32_lower_case_hex_digits() {
    let h = xxh3_128_hex(b"hello world");
    assert_eq!(h.len(), 32);
    assert!(h.chars().all(|c| c.is_ascii_hexdigit() && !c.is_ascii_uppercase()));
}

#[test]
fn hash_is_deterministic_and_content_sensitive() {
    let a1 = xxh3_128_hex(b"some file content");
    let a2 = xxh3_128_hex(b"some file content");
    let b = xxh3_128_hex(b"some file content!");
    assert_eq!(a1, a2);
    assert_ne!(a1, b);
    assert_ne!(xxh3_128_hex(b""), xxh3_128_hex(b"\0"));
}

#[test]
fn hash_of_empty_input_matches_reference_value() {
    assert_eq!(xxh3_128_hex(b""), "99aa06d3014798d86001c324468d497f");
}
