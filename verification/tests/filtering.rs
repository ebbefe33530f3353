use riolog::date_time::Timestamp;
use riolog::direction::Direction;
use riolog::filtering::{filtering_iter, FilteringOptions};
use riolog::log_entry::{LogEntry, LogLevel};
use riolog::stream::{RecordStream, VecRecordStream};

const LOG_INPUT: &[&[u8]] = &[
    b"-debug:<16866> 2020-01-01 20:00:00.000 UTC [A]: Text1",
    b"-info:<16866> 2020-01-01 21:00:00.000 UTC [A]: Text2",
    b"-warning:<16866> 2020-01-01 21:30:00.000 UTC [A]: Text3",
    b"-critical:<16866> 2020-01-01 22:00:00.000 UTC [A]: Text4",
    b"-fatal:<16866> 2020-01-01 22:30:00.000 UTC [A]: Text5",
];

fn to_log_stream(lines: &[&[u8]], reverse: bool) -> VecRecordStream {
    let mut entries: Vec<LogEntry> = lines
        .iter()
        .map(|l| LogEntry::from_contents(l.to_vec()))
        .collect();
    if reverse {
        entries.reverse();
    }
    VecRecordStream::new(entries)
}

fn collect_contents<I: RecordStream>(mut stream: I) -> Vec<Vec<u8>> {
    let mut out = Vec::new();
    loop {
        stream.advance().unwrap();
        match stream.current() {
            Some(e) => out.push(e.contents().clone()),
            None => break,
        }
    }
    out
}

fn as_vecs(lines: &[&[u8]], reverse: bool) -> Vec<Vec<u8>> {
    let mut v: Vec<Vec<u8>> = lines.iter().map(|l| l.to_vec()).collect();
    if reverse {
        v.reverse();
    }
    v
}

#[test]
fn filtering_iter_no_filter() {
    let log_iter = to_log_stream(LOG_INPUT, false);
    let log_iter = filtering_iter(
        log_iter,
        FilteringOptions { since: None, until: None, contains: None, min_level: None },
        Direction::Forward,
    );

    assert_eq!(collect_contents(log_iter), as_vecs(LOG_INPUT, false));
}

#[test]
fn filtering_iter_no_filter_rev() {
    let log_iter = to_log_stream(LOG_INPUT, true);
    let log_iter = filtering_iter(
        log_iter,
        FilteringOptions { since: None, until: None, contains: None, min_level: None },
        Direction::Reverse,
    );

    assert_eq!(collect_contents(log_iter), as_vecs(LOG_INPUT, true));
}

#[test]
fn filtering_iter_since() {
    let log_iter = to_log_stream(LOG_INPUT, false);
    let log_iter = filtering_iter(
        log_iter,
        FilteringOptions {
            since: Some(Timestamp::from_ymd_hms_milli(2020, 1, 1, 21, 30, 0, 0)),
            until: None,
            contains: None,
            min_level: None,
        },
        Direction::Forward,
    );

    assert_eq!(collect_contents(log_iter), as_vecs(&LOG_INPUT[2..], false));
}

#[test]
fn filtering_iter_since_rev() {
    let log_iter = to_log_stream(LOG_INPUT, true);
    let log_iter = filtering_iter(
        log_iter,
        FilteringOptions {
            since: Some(Timestamp::from_ymd_hms_milli(2020, 1, 1, 21, 30, 0, 0)),
            until: None,
            contains: None,
            min_level: None,
        },
        Direction::Reverse,
    );

    assert_eq!(collect_contents(log_iter), as_vecs(&LOG_INPUT[2..], true));
}

#[test]
fn filtering_iter_until() {
    let log_iter = to_log_stream(LOG_INPUT, false);
    let log_iter = filtering_iter(
        log_iter,
        FilteringOptions {
            since: None,
            until: Some(Timestamp::from_ymd_hms_milli(2020, 1, 1, 21, 30, 0, 0)),
            contains: None,
            min_level: None,
        },
        Direction::Forward,
    );

    assert_eq!(collect_contents(log_iter), as_vecs(&LOG_INPUT[..2], false));
}

#[test]
fn filtering_iter_until_rev() {
    let log_iter = to_log_stream(LOG_INPUT, true);
    let log_iter = filtering_iter(
        log_iter,
        FilteringOptions {
            since: None,
            until: Some(Timestamp::from_ymd_hms_milli(2020, 1, 1, 21, 30, 0, 0)),
            contains: None,
            min_level: None,
        },
        Direction::Reverse,
    );

    assert_eq!(collect_contents(log_iter), as_vecs(&LOG_INPUT[..2], true));
}

#[test]
fn filtering_iter_min_level() {
    let log_iter = to_log_stream(LOG_INPUT, false);
    let log_iter = filtering_iter(
        log_iter,
        FilteringOptions {
            since: None,
            until: None,
            contains: None,
            min_level: Some(LogLevel::Critical),
        },
        Direction::Forward,
    );

    assert_eq!(collect_contents(log_iter), as_vecs(&LOG_INPUT[3..], false));
}

#[test]
fn filtering_iter_min_level_rev() {
    let log_iter = to_log_stream(LOG_INPUT, true);
    let log_iter = filtering_iter(
        log_iter,
        FilteringOptions {
            since: None,
            until: None,
            contains: None,
            min_level: Some(LogLevel::Critical),
        },
        Direction::Reverse,
    );

    assert_eq!(collect_contents(log_iter), as_vecs(&LOG_INPUT[3..], true));
}

#[test]
fn filtering_iter_contains() {
    let log_iter = to_log_stream(LOG_INPUT, false);
    let log_iter = filtering_iter(
        log_iter,
        FilteringOptions {
            since: None,
            until: None,
            contains: Some("Text2".into()),
            min_level: None,
        },
        Direction::Forward,
    );

    assert_eq!(collect_contents(log_iter), as_vecs(&LOG_INPUT[1..2], false));
}

#[test]
fn filtering_iter_contains_rev() {
    let log_iter = to_log_stream(LOG_INPUT, true);
    let log_iter = filtering_iter(
        log_iter,
        FilteringOptions {
            since: None,
            until: None,
            contains: Some("Text2".into()),
            min_level: None,
        },
        Direction::Reverse,
    );

    assert_eq!(collect_contents(log_iter), as_vecs(&LOG_INPUT[1..2], true));
}

#[test]
fn filtering_iter_empty_contains_keeps_all() {
    // An empty substring occurs in every record.
    let log_iter = to_log_stream(LOG_INPUT, false);
    let log_iter = filtering_iter(
        log_iter,
        FilteringOptions {
            since: None,
            until: None,
            contains: Some(String::new()),
            min_level: None,
        },
        Direction::Forward,
    );
    assert_eq!(collect_contents(log_iter), as_vecs(LOG_INPUT, false));
}

#[test]
fn filtering_iter_window_boundaries() {
    // The window is boundary-inclusive at `since` and boundary-exclusive at
    // `until`, in both directions.
    let since = Some(Timestamp::from_ymd_hms_milli(2020, 1, 1, 21, 0, 0, 0));
    let until = Some(Timestamp::from_ymd_hms_milli(2020, 1, 1, 22, 0, 0, 0));
    let log_iter = to_log_stream(LOG_INPUT, false);
    let log_iter = filtering_iter(
        log_iter,
        FilteringOptions { since, until, contains: None, min_level: None },
        Direction::Forward,
    );
    assert_eq!(collect_contents(log_iter), as_vecs(&LOG_INPUT[1..3], false));

    let log_iter = to_log_stream(LOG_INPUT, true);
    let log_iter = filtering_iter(
        log_iter,
        FilteringOptions { since, until, contains: None, min_level: None },
        Direction::Reverse,
    );
    assert_eq!(collect_contents(log_iter), as_vecs(&LOG_INPUT[1..3], true));
}

#[test]
fn filtering_iter_min_severity_scenario() {
    // Five records at 20:00, 21:00, 21:30, 22:00 and 22:30 with severities
    // Debug through Fatal: a Critical minimum emits exactly the 22:00 and
    // 22:30 records, forward and reverse.
    let log_iter = to_log_stream(LOG_INPUT, false);
    let log_iter = filtering_iter(
        log_iter,
        FilteringOptions {
            since: None,
            until: None,
            contains: None,
            min_level: Some(LogLevel::Critical),
        },
        Direction::Forward,
    );
    assert_eq!(collect_contents(log_iter), as_vecs(&LOG_INPUT[3..], false));

    let log_iter = to_log_stream(LOG_INPUT, true);
    let log_iter = filtering_iter(
        log_iter,
        FilteringOptions {
            since: None,
            until: None,
            contains: None,
            min_level: Some(LogLevel::Critical),
        },
        Direction::Reverse,
    );
    assert_eq!(collect_contents(log_iter), as_vecs(&LOG_INPUT[3..], true));
}

#[test]
fn filtering_iter_untimestamped_passes_window() {
    // Records lacking a timestamp never trigger the skip or stop edges and
    // pass through time filtering untouched.
    let lines: &[&[u8]] = &[
        b"-info:<1> 2020-01-01 20:00:00.000 UTC [A]: Text1",
        b"plain text without a header",
        b"-info:<1> 2020-01-01 21:00:00.000 UTC [A]: Text3",
    ];
    let log_iter = to_log_stream(lines, false);
    let log_iter = filtering_iter(
        log_iter,
        FilteringOptions {
            since: Some(Timestamp::from_ymd_hms_milli(2020, 1, 1, 20, 30, 0, 0)),
            until: None,
            contains: None,
            min_level: None,
        },
        Direction::Forward,
    );
    assert_eq!(collect_contents(log_iter), as_vecs(&lines[1..], false));
}
