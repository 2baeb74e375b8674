use psysonic_library::time::{civil_from_days, format_iso_ms_z, parse_iso_ms, parse_iso_ms_str};

#[test]
fn parses_utc_and_offset_shapes() {
    assert_eq!(parse_iso_ms_str("2024-06-01T12:00:00Z"), Some(1_717_243_200_000));
    assert_eq!(parse_iso_ms_str("2024-06-01T12:00:00.123+02:00"), Some(1_717_243_200_000));
    assert_eq!(parse_iso_ms_str("  2024-06-01T12:00:00  "), Some(1_717_243_200_000));
    assert_eq!(parse_iso_ms_str("2024-06-01"), Some(1_717_200_000_000));
    assert_eq!(parse_iso_ms_str("1970-01-01T00:00:00Z"), Some(0));
    assert_eq!(parse_iso_ms_str("2000-02-29T23:59:60Z"), Some(951_868_800_000));
}

#[test]
fn rejects_bad_timestamps() {
    assert_eq!(parse_iso_ms_str(""), None);
    assert_eq!(parse_iso_ms_str("   "), None);
    assert_eq!(parse_iso_ms_str("2024"), None);
    assert_eq!(parse_iso_ms_str("1969-12-31T23:59:59Z"), None);
    assert_eq!(parse_iso_ms_str("2101-01-01T00:00:00Z"), None);
    assert_eq!(parse_iso_ms_str("2024-13-01"), None);
    assert_eq!(parse_iso_ms_str("2024-06-01T24:00:00Z"), None);
    assert_eq!(parse_iso_ms_str("2024-06-xxT00:00:00Z"), None);
    // A negative offset after the `T` cuts the text at the first `-` of the date.
    assert_eq!(parse_iso_ms_str("2024-06-01T12:00:00-05:00"), None);
}

#[test]
fn optional_text_parses_only_when_present() {
    assert_eq!(parse_iso_ms(None), None);
    assert_eq!(parse_iso_ms(Some("2024-06-01T00:00:00Z")), Some(1_717_200_000_000));
}

#[test]
fn formats_with_and_without_millis() {
    assert_eq!(format_iso_ms_z(1_717_243_200_123).as_deref(), Some("2024-06-01T12:00:00.123Z"));
    assert_eq!(format_iso_ms_z(1_717_243_200_000).as_deref(), Some("2024-06-01T12:00:00Z"));
    assert_eq!(format_iso_ms_z(0).as_deref(), Some("1970-01-01T00:00:00Z"));
    assert_eq!(format_iso_ms_z(-1).as_deref(), Some("1969-12-31T23:59:59.999Z"));
    assert_eq!(format_iso_ms_z(5).as_deref(), Some("1970-01-01T00:00:00.005Z"));
}

#[test]
fn civil_dates_of_days() {
    assert_eq!(civil_from_days(0), (1970, 1, 1));
    assert_eq!(civil_from_days(-1), (1969, 12, 31));
    assert_eq!(civil_from_days(11_016), (2000, 2, 29));
    assert_eq!(civil_from_days(19_875), (2024, 6, 1));
}

#[test]
fn format_then_parse_gives_whole_seconds() {
    for ms in [0_i64, 999, 1_717_243_200_123, 4_102_444_799_999, 951_868_799_500] {
        let text = format_iso_ms_z(ms).unwrap();
        assert_eq!(parse_iso_ms_str(&text), Some(ms - ms % 1000));
    }
}

#[test]
fn parse_then_format_gives_the_text_back() {
    for text in [
        "1970-01-01T00:00:00Z",
        "2024-02-29T23:59:59Z",
        "2000-02-29T12:34:56Z",
        "2100-12-31T23:59:59Z",
        "2023-06-15T07:08:09Z",
    ] {
        let ms = parse_iso_ms_str(text).unwrap();
        assert_eq!(format_iso_ms_z(ms), Some(text.to_string()));
    }
}

#[test]
fn the_day_after_follows_the_calendar() {
    assert_eq!(civil_from_days(19781), (2024, 2, 28));
    assert_eq!(civil_from_days(19782), (2024, 2, 29));
    assert_eq!(civil_from_days(19783), (2024, 3, 1));
    assert_eq!(civil_from_days(19416), (2023, 2, 28));
    assert_eq!(civil_from_days(19417), (2023, 3, 1));
    assert_eq!(civil_from_days(19722), (2023, 12, 31));
    assert_eq!(civil_from_days(19723), (2024, 1, 1));
    assert_eq!(civil_from_days(11016), (2000, 2, 29));
    assert_eq!(civil_from_days(-25509), (1900, 2, 28));
    assert_eq!(civil_from_days(-25508), (1900, 3, 1));
    assert_eq!(civil_from_days(47540), (2100, 2, 28));
    assert_eq!(civil_from_days(47541), (2100, 3, 1));
}
