use catalog_core::text::normalize;

#[test]
fn normalize_trims_and_lowercases() {
    assert_eq!(normalize("  Hello World  "), "hello world");
    assert_eq!(normalize("ABC"), "abc");
    assert_eq!(normalize(""), "");
    assert_eq!(normalize("   "), "");
}

#[test]
fn normalize_full_width_round_trip() {
    // full-width A, 1 and ! fold to their half-width forms
    assert_eq!(normalize("\u{FF21}\u{FF11}\u{FF01}"), normalize("a1!"));
    assert_eq!(normalize("\u{FF21}\u{FF11}\u{FF01}"), "a1!");
}

#[test]
fn normalize_folds_katakana_to_hiragana() {
    let key = normalize("\u{30AB}\u{30BF}\u{30AB}\u{30CA}");
    assert!(key.chars().all(|c| !(0x30A1..=0x30F6).contains(&(c as u32))));
    assert_eq!(key, "\u{304B}\u{305F}\u{304B}\u{306A}");
}

#[test]
fn normalize_maps_ideographic_space() {
    assert_eq!(normalize("a\u{3000}b"), "a b");
    // an ideographic space at the edges is trimmed away
    assert_eq!(normalize("\u{3000}abc\u{3000}"), "abc");
}

#[test]
fn normalize_is_idempotent_on_samples() {
    let samples = [
        "  Hello World  ",
        "\u{FF21}\u{FF11}\u{FF01}",
        "\u{30AB}\u{30BF}\u{30AB}\u{30CA}",
        "Mixed \u{3000} CASE \u{FF34}ext",
        "",
        "\u{3000}\u{3000}",
        "plain",
    ];
    for s in samples {
        let once = normalize(s);
        assert_eq!(normalize(&once), once);
    }
}

#[test]
fn normalize_lowercases_beyond_ascii() {
    // Cyrillic, Greek and accented Latin capitals fold to their lowercase
    // forms
    assert_eq!(normalize("\u{424}"), "\u{444}");
    assert_eq!(normalize("\u{C9}clair"), "\u{E9}clair");
    assert_eq!(normalize("\u{3A6}\u{3A9}"), "\u{3C6}\u{3C9}");
    let once = normalize("\u{424}\u{3A9}\u{C9} Mixed");
    assert_eq!(normalize(&once), once);
}

#[test]
fn normalize_keeps_other_characters() {
    assert_eq!(normalize("a_b-c.d"), "a_b-c.d");
    assert_eq!(normalize("\u{3042}"), "\u{3042}");
}
