use catalog_core::dates::parse_release_date_ms;

#[test]
fn parses_plain_dates_to_utc_midnight_ms() {
    assert_eq!(parse_release_date_ms("2024-01-01"), Some(1704067200000));
    assert_eq!(parse_release_date_ms("2024-06-01"), Some(1717200000000));
    assert_eq!(parse_release_date_ms("1970-01-01"), Some(0));
    assert_eq!(parse_release_date_ms("1969-12-31"), Some(-86400000));
}

#[test]
fn accepts_slashes_for_hyphens() {
    assert_eq!(parse_release_date_ms("2024/06/01"), Some(1717200000000));
    assert_eq!(parse_release_date_ms("2024/06-01"), Some(1717200000000));
}

#[test]
fn rejects_invalid_calendar_dates() {
    assert_eq!(parse_release_date_ms("2024-02-30"), None);
    assert_eq!(parse_release_date_ms("2024-13-01"), None);
    assert_eq!(parse_release_date_ms("2024-00-10"), None);
    assert_eq!(parse_release_date_ms("2023-02-29"), None);
    assert_eq!(parse_release_date_ms("2024-02-29"), Some(1709164800000));
}

#[test]
fn rejects_malformed_strings() {
    assert_eq!(parse_release_date_ms(""), None);
    assert_eq!(parse_release_date_ms("2024-01"), None);
    assert_eq!(parse_release_date_ms("abc"), None);
    assert_eq!(parse_release_date_ms("2024-xx-01"), None);
    assert_eq!(parse_release_date_ms("20 24-01-01"), None);
}

#[test]
fn parsed_timestamps_are_utc_midnights() {
    for s in ["2024-06-01", "1969-12-31", "0001-01-01", "9999-12-31"] {
        let v = parse_release_date_ms(s).unwrap();
        assert_eq!(v.rem_euclid(86400000), 0);
    }
}

#[test]
fn extra_fields_beyond_the_third_are_ignored() {
    assert_eq!(parse_release_date_ms("2024-01-01-extra"), Some(1704067200000));
}
