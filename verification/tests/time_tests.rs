use asuka_core::records::{account_from_row, channel_from_row, message_from_row};
use asuka_core::time_fmt::{format_timestamp, parse_timestamp, timestamp_round_trip, TS_MAX};

#[test]
fn format_renders_the_canonical_utc_form() {
    assert_eq!(format_timestamp(0), "1970-01-01 00:00:00");
    assert_eq!(format_timestamp(1_700_000_000), "2023-11-14 22:13:20");
    assert_eq!(format_timestamp(TS_MAX - 1), "9999-12-31 23:59:59");
}

#[test]
fn parse_reads_the_canonical_form_back() {
    assert_eq!(parse_timestamp("1970-01-01 00:00:00"), Some(0));
    assert_eq!(parse_timestamp("2023-11-14 22:13:20"), Some(1_700_000_000));
    assert_eq!(parse_timestamp("not a timestamp"), None);
    assert_eq!(parse_timestamp("2023-11-14T22:13:20Z"), None);
    assert_eq!(parse_timestamp(""), None);
}

#[test]
fn round_trip_is_the_identity_on_the_canonical_range() {
    for t in [0i64, 1, 59, 86_400, 1_700_000_000, TS_MAX - 1] {
        assert_eq!(timestamp_round_trip(t), Some(t));
    }
}

#[test]
fn row_decoders_parse_timestamps_or_refuse_the_row() {
    let a = account_from_row(
        3,
        "ada".to_string(),
        "irc".to_string(),
        "u-1".to_string(),
        "2023-11-14 22:13:20",
        "2023-11-14 22:13:21",
    )
    .unwrap();
    assert_eq!(a.id, 3);
    assert_eq!(a.created_at, 1_700_000_000);
    assert_eq!(a.updated_at, 1_700_000_001);
    assert!(account_from_row(
        3,
        "ada".to_string(),
        "irc".to_string(),
        "u-1".to_string(),
        "bad",
        "2023-11-14 22:13:21",
    )
    .is_none());

    let c = channel_from_row(
        9,
        "c-1".to_string(),
        "discord".to_string(),
        None,
        "1970-01-01 00:00:00",
        "1970-01-01 00:00:01",
    )
    .unwrap();
    assert_eq!(c.id, 9);
    assert_eq!(c.created_at, 0);
    assert_eq!(c.updated_at, 1);

    let m = message_from_row(
        4,
        9,
        3,
        "user".to_string(),
        "hi".to_string(),
        None,
        "1970-01-01 00:01:00",
    )
    .unwrap();
    assert_eq!(m.created_at, 60);
    assert!(message_from_row(
        4,
        9,
        3,
        "user".to_string(),
        "hi".to_string(),
        None,
        "nonsense",
    )
    .is_none());
}
