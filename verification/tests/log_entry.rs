use riolog::date_time::{parse_timestamp, Timestamp};
use riolog::log_entry::{LogEntry, LogLevel};

#[test]
fn log_entry_parse_timestamp_simple_test() {
    assert_eq!(
        parse_timestamp(b"2020-01-10 18:33:19.244").unwrap(),
        Timestamp::from_ymd_hms_milli(2020, 1, 10, 18, 33, 19, 244)
    );
}

#[test]
fn log_entry_level() {
    let mut entry = LogEntry::new(b"-info:<16866> 2020-01-01 20:00:00.000 UTC [A]: B".to_vec());
    assert_eq!(entry.level(), Some(LogLevel::Info));
}

#[test]
fn log_entry_timestamp() {
    let mut entry = LogEntry::new(b"-info:<16866> 2020-01-01 20:00:00.000 UTC [A]: B".to_vec());
    assert_eq!(
        entry.timestamp(),
        Some(Timestamp::from_ymd_hms_milli(2020, 1, 1, 20, 0, 0, 0))
    );
}

#[test]
fn log_entry_extraction_idempotent() {
    // Extraction is computed at most once and repeats unchanged on an
    // unmodified record.
    let mut entry = LogEntry::new(b"-warning:<1> 2020-01-01 20:00:00.000 UTC [A]: B".to_vec());
    let first_level = entry.level();
    let first_ts = entry.timestamp();
    assert_eq!(entry.level(), first_level);
    assert_eq!(entry.timestamp(), first_ts);
    assert_eq!(first_level, Some(LogLevel::Warning));
}

#[test]
fn log_entry_reuse_reflects_new_bytes() {
    // Overwriting the storage invalidates the derived fields: the next
    // extraction reflects only the new bytes.
    let mut entry = LogEntry::new(b"-debug:<1> 2020-01-01 20:00:00.000 UTC [A]: B".to_vec());
    assert_eq!(entry.level(), Some(LogLevel::Debug));
    assert_eq!(
        entry.timestamp(),
        Some(Timestamp::from_ymd_hms_milli(2020, 1, 1, 20, 0, 0, 0))
    );
    entry.set_contents(b"-fatal:<1> 2021-02-03 04:05:06.007 UTC [A]: B".to_vec());
    assert_eq!(entry.level(), Some(LogLevel::Fatal));
    assert_eq!(
        entry.timestamp(),
        Some(Timestamp::from_ymd_hms_milli(2021, 2, 3, 4, 5, 6, 7))
    );
    entry.reset();
    assert_eq!(entry.level(), None);
    assert_eq!(entry.timestamp(), None);
}
