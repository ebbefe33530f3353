use riolog::cli::{parse_bool_arg, parse_date_time_arg, parse_level_arg};
use riolog::date_time::Timestamp;
use riolog::log_entry::LogLevel;

#[test]
fn parse_date_time_arg_ymdhmsm() {
    assert_eq!(
        parse_date_time_arg("2020-01-10 18:33:19.244").unwrap(),
        Timestamp::from_ymd_hms_milli(2020, 1, 10, 18, 33, 19, 244)
    );
}

#[test]
fn parse_date_time_arg_ymdhms() {
    assert_eq!(
        parse_date_time_arg("2020-01-10 18:33:19").unwrap(),
        Timestamp::from_ymd_hms_milli(2020, 1, 10, 18, 33, 19, 0)
    );
}

#[test]
fn parse_date_time_arg_ymdhm() {
    assert_eq!(
        parse_date_time_arg("2020-01-10 18:33").unwrap(),
        Timestamp::from_ymd_hms_milli(2020, 1, 10, 18, 33, 0, 0)
    );
}

#[test]
fn parse_date_time_arg_ymd() {
    assert_eq!(
        parse_date_time_arg("2020-01-10").unwrap(),
        Timestamp::from_ymd_hms_milli(2020, 1, 10, 0, 0, 0, 0)
    );
}

#[test]
fn parse_level_arg_accepts_names() {
    assert_eq!(parse_level_arg("debug"), Some(LogLevel::Debug));
    assert_eq!(parse_level_arg("Info"), Some(LogLevel::Info));
    assert_eq!(parse_level_arg("WARNING"), Some(LogLevel::Warning));
    assert_eq!(parse_level_arg("criTical"), Some(LogLevel::Critical));
    assert_eq!(parse_level_arg("fatal"), Some(LogLevel::Fatal));
    assert_eq!(parse_level_arg("verbose"), None);
    assert_eq!(parse_level_arg(""), None);
}

#[test]
fn parse_bool_arg_accepts_names() {
    assert_eq!(parse_bool_arg("yes"), Some(true));
    assert_eq!(parse_bool_arg("True"), Some(true));
    assert_eq!(parse_bool_arg("ON"), Some(true));
    assert_eq!(parse_bool_arg("no"), Some(false));
    assert_eq!(parse_bool_arg("False"), Some(false));
    assert_eq!(parse_bool_arg("off"), Some(false));
    assert_eq!(parse_bool_arg("maybe"), None);
    assert_eq!(parse_bool_arg(""), None);
}
