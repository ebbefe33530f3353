use riolog::direction::Direction;
use riolog::log_entry::LogEntry;
use riolog::log_entry_reader_mux::LogEntryReaderMux;
use riolog::stream::{RecordStream, VecRecordStream};

const LOG_INPUTS: &[&[&[u8]]] = &[
    &[
        b"-info:<16866> 2020-01-01 20:00:00.000 UTC [A]: B",
        b"-info:<16866> 2020-01-01 21:00:00.000 UTC [A]: B",
    ],
    &[
        b"-info:<16866> 2020-01-01 20:30:00.000 UTC [A]: B",
        b"-info:<16866> 2020-01-01 21:30:00.000 UTC [A]: B",
    ],
];

#[derive(Clone, Copy, Debug, PartialEq)]
struct GoldenResult(usize, Option<(i32, u32, u32, u32, u32, u32)>);

const GOLDEN_RESULTS: &[GoldenResult] = &[
    GoldenResult(0, Some((2020, 1, 1, 20, 0, 0))),
    GoldenResult(1, Some((2020, 1, 1, 20, 30, 0))),
    GoldenResult(0, Some((2020, 1, 1, 21, 0, 0))),
    GoldenResult(1, Some((2020, 1, 1, 21, 30, 0))),
];

fn source_stream(source: usize, lines: &[&[u8]], reverse: bool) -> VecRecordStream {
    let mut entries: Vec<LogEntry> = lines
        .iter()
        .map(|l| LogEntry::from_contents(l.to_vec()).with_source(source))
        .collect();
    if reverse {
        entries.reverse();
    }
    VecRecordStream::new(entries)
}

fn drain(mut mux: LogEntryReaderMux<VecRecordStream>) -> Vec<GoldenResult> {
    let mut results = Vec::new();
    loop {
        mux.advance().unwrap();
        let ts = mux.current_timestamp();
        match mux.current() {
            Some(entry) => {
                let ts = ts
                    .unwrap()
                    .map(|t| (t.year, t.month, t.day, t.hour, t.minute, t.second));
                results.push(GoldenResult(entry.source(), ts));
            }
            None => break,
        }
    }
    results
}

#[test]
fn log_entry_reader_mux() {
    let iterators = LOG_INPUTS
        .iter()
        .enumerate()
        .map(|(source, log)| source_stream(source, log, false))
        .collect();

    let reader = LogEntryReaderMux::new(iterators, Direction::Forward);
    let results = drain(reader);

    assert_eq!(results.as_slice(), GOLDEN_RESULTS);
}

#[test]
fn log_entry_reader_mux_reverse() {
    let iterators = LOG_INPUTS
        .iter()
        .enumerate()
        .map(|(source, log)| source_stream(source, log, true))
        .collect();

    let reader = LogEntryReaderMux::new(iterators, Direction::Reverse);
    let results = drain(reader);

    assert_eq!(
        results,
        GOLDEN_RESULTS.iter().copied().rev().collect::<Vec<_>>()
    );
}

#[test]
fn log_entry_reader_mux_empty_source() {
    // A source with zero records contributes nothing and never faults the
    // merge.
    let iterators = vec![
        source_stream(0, LOG_INPUTS[0], false),
        source_stream(1, &[], false),
        source_stream(2, LOG_INPUTS[1], false),
    ];
    let reader = LogEntryReaderMux::new(iterators, Direction::Forward);
    let results = drain(reader);
    let expected = vec![
        GoldenResult(0, Some((2020, 1, 1, 20, 0, 0))),
        GoldenResult(2, Some((2020, 1, 1, 20, 30, 0))),
        GoldenResult(0, Some((2020, 1, 1, 21, 0, 0))),
        GoldenResult(2, Some((2020, 1, 1, 21, 30, 0))),
    ];
    assert_eq!(results, expected);
}

#[test]
fn log_entry_reader_mux_single_source() {
    // A single-source merge reduces to that source's own sequence unchanged.
    let iterators = vec![source_stream(0, LOG_INPUTS[0], false)];
    let reader = LogEntryReaderMux::new(iterators, Direction::Forward);
    let results = drain(reader);
    assert_eq!(
        results,
        vec![
            GoldenResult(0, Some((2020, 1, 1, 20, 0, 0))),
            GoldenResult(0, Some((2020, 1, 1, 21, 0, 0))),
        ]
    );
}

#[test]
fn log_entry_reader_mux_untimestamped_sorts_low() {
    // A record lacking a parseable timestamp sorts below all timestamped
    // records and never stalls the merge.
    let iterators = vec![
        source_stream(0, &[b"no header here"], false),
        source_stream(1, LOG_INPUTS[1], false),
    ];
    let reader = LogEntryReaderMux::new(iterators, Direction::Forward);
    let results = drain(reader);
    assert_eq!(
        results,
        vec![
            GoldenResult(0, None),
            GoldenResult(1, Some((2020, 1, 1, 20, 30, 0))),
            GoldenResult(1, Some((2020, 1, 1, 21, 30, 0))),
        ]
    );
}
