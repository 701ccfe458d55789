use media_library::error::MediaError;
use media_library::timestamp::Timestamp;

#[test]
fn formats_the_epoch() {
    let t = Timestamp::from_unix_millis(0).unwrap();
    assert_eq!(t.format_rfc3339(), "1970-01-01T00:00:00.000Z");
}

#[test]
fn formats_a_modern_instant() {
    let t = Timestamp::from_unix_millis(1_700_000_000_000).unwrap();
    assert_eq!(t.format_rfc3339(), "2023-11-14T22:13:20.000Z");
}

#[test]
fn formats_a_leap_day_with_millis() {
    let t = Timestamp::from_unix_millis(1_709_164_800_000 + 123).unwrap();
    assert_eq!(t.format_rfc3339(), "2024-02-29T00:00:00.123Z");
}

#[test]
fn parse_inverts_format() {
    for ms in [
        0i64,
        1i64,
        999i64,
        86_399_999i64,
        86_400_000i64,
        951_827_696_789i64,
        1_700_000_000_001i64,
        4_102_444_800_000i64,
    ] {
        let t = Timestamp::from_unix_millis(ms).unwrap();
        let text = t.format_rfc3339();
        let back = Timestamp::parse_rfc3339(&text).unwrap();
        assert_eq!(back.millis, ms);
    }
}

#[test]
fn parse_accepts_only_the_canonical_form() {
    let good = Timestamp::parse_rfc3339("2023-11-14T22:13:20.000Z").unwrap();
    assert_eq!(good.millis, 1_700_000_000_000);
    for bad in [
        "",
        "not a timestamp",
        "2023-11-14 22:13:20.000Z",
        "2023-13-01T00:00:00.000Z",
        "2023-00-01T00:00:00.000Z",
        "2023-02-29T00:00:00.000Z",
        "2023-11-14T24:00:00.000Z",
        "2023-11-14T22:60:00.000Z",
        "2023-11-14T22:13:60.000Z",
        "1969-12-31T23:59:59.999Z",
        "2023-11-14T22:13:20.000",
        "2023-11-14T22:13:20Z",
    ] {
        assert_eq!(
            Timestamp::parse_rfc3339(bad),
            Err(MediaError::CorruptMetadata),
            "{}",
            bad
        );
    }
}

#[test]
fn leap_day_parses_only_in_leap_years() {
    assert!(Timestamp::parse_rfc3339("2024-02-29T12:00:00.000Z").is_ok());
    assert!(Timestamp::parse_rfc3339("2000-02-29T12:00:00.000Z").is_ok());
    assert!(Timestamp::parse_rfc3339("2100-02-29T12:00:00.000Z").is_err());
}

#[test]
fn range_limits_are_enforced() {
    assert!(Timestamp::from_unix_millis(-1).is_none());
    assert!(Timestamp::from_unix_millis(i64::MAX).is_none());
    assert_eq!(Timestamp::clamped_from_unix_millis(-5).millis, 0);
    let kept = Timestamp::clamped_from_unix_millis(1_700_000_000_000);
    assert_eq!(kept.millis, 1_700_000_000_000);
}

#[test]
fn now_round_trips_through_text() {
    let t = Timestamp::now();
    let text = t.format_rfc3339();
    let back = Timestamp::parse_rfc3339(&text).unwrap();
    assert_eq!(back.millis, t.millis);
}
