use riolog::date_time::{parse_date_time_cli_option, parse_timestamp, Timestamp};
use riolog::error::Error;

#[test]
fn parse_date_time_cli_option_ymdhmsm() {
    assert_eq!(
        parse_date_time_cli_option("2020-01-10 18:33:19.244", "arg").unwrap(),
        Timestamp::from_ymd_hms_milli(2020, 1, 10, 18, 33, 19, 244)
    );
}

#[test]
fn parse_date_time_cli_option_ymdhms() {
    assert_eq!(
        parse_date_time_cli_option("2020-01-10 18:33:19", "arg").unwrap(),
        Timestamp::from_ymd_hms_milli(2020, 1, 10, 18, 33, 19, 0)
    );
}

#[test]
fn parse_date_time_cli_option_ymdhm() {
    assert_eq!(
        parse_date_time_cli_option("2020-01-10 18:33", "arg").unwrap(),
        Timestamp::from_ymd_hms_milli(2020, 1, 10, 18, 33, 0, 0)
    );
}

#[test]
fn parse_date_time_cli_option_ymd() {
    assert_eq!(
        parse_date_time_cli_option("2020-01-10", "arg").unwrap(),
        Timestamp::from_ymd_hms_milli(2020, 1, 10, 0, 0, 0, 0)
    );
}

#[test]
fn date_time_parse_timestamp_simple_test() {
    assert_eq!(
        parse_timestamp(b"2020-01-10 18:33:19.244").unwrap(),
        Timestamp::from_ymd_hms_milli(2020, 1, 10, 18, 33, 19, 244)
    );
}

#[test]
fn parse_date_time_cli_option_rejects_garbage() {
    match parse_date_time_cli_option("not a date", "since") {
        Err(Error::InvalidCliOptionValue(a)) => assert_eq!(a, "since"),
        _ => panic!("expected an invalid option value error"),
    }
}

#[test]
fn parse_timestamp_rejects_garbage() {
    assert!(matches!(
        parse_timestamp(b"2020-13-40 18:33:19.244"),
        Err(Error::CannotParseTimestamp)
    ));
    assert!(matches!(parse_timestamp(b"nonsense"), Err(Error::CannotParseTimestamp)));
}
