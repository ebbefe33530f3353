use riolog::direction::Direction;
use riolog::filtering::{filtering_iter, FilteringOptions};
use riolog::log_entry_reader::{LogEntryReader, LogEntryRevReader};
use riolog::log_entry_reader_mux::LogEntryReaderMux;
use riolog::source::MemSource;
use riolog::stream::RecordStream;

const EOL_LF: &[u8] = b"\n";

fn file_bytes(lines: &[&[u8]]) -> Vec<u8> {
    let mut out = Vec::new();
    for l in lines {
        out.extend_from_slice(l);
        out.extend_from_slice(b"\n\n");
    }
    out
}

fn no_filters() -> FilteringOptions {
    FilteringOptions { since: None, until: None, contains: None, min_level: None }
}

fn drain_sources<I: RecordStream>(mux: &mut LogEntryReaderMux<I>) -> Vec<(usize, Vec<u8>)> {
    let mut out = Vec::new();
    loop {
        mux.advance().unwrap();
        match mux.current() {
            Some(e) => out.push((e.source(), e.contents().clone())),
            None => break,
        }
    }
    out
}

#[test]
fn pipeline_two_sources_forward() {
    // Two single-record-per-timestamp sources at 20:00/21:00 and
    // 20:30/21:30 merge forward in global time order, each record
    // attributed to its source.
    let source_a: &[&[u8]] = &[
        b"-info:<1> 2020-01-01 20:00:00.000 UTC [A]: a0",
        b"-info:<1> 2020-01-01 21:00:00.000 UTC [A]: a1",
    ];
    let source_b: &[&[u8]] = &[
        b"-info:<1> 2020-01-01 20:30:00.000 UTC [B]: b0",
        b"-info:<1> 2020-01-01 21:30:00.000 UTC [B]: b1",
    ];
    let readers = vec![
        filtering_iter(
            LogEntryReader::new(MemSource::new(file_bytes(source_a)), EOL_LF)
                .unwrap()
                .with_source(0),
            no_filters(),
            Direction::Forward,
        ),
        filtering_iter(
            LogEntryReader::new(MemSource::new(file_bytes(source_b)), EOL_LF)
                .unwrap()
                .with_source(1),
            no_filters(),
            Direction::Forward,
        ),
    ];
    let mut mux = LogEntryReaderMux::new(readers, Direction::Forward);
    let results = drain_sources(&mut mux);
    let expected = vec![
        (0usize, [source_a[0], b"\n\n"].concat()),
        (1usize, [source_b[0], b"\n\n"].concat()),
        (0usize, [source_a[1], b"\n\n"].concat()),
        (1usize, [source_b[1], b"\n\n"].concat()),
    ];
    assert_eq!(results, expected);
}

#[test]
fn pipeline_two_sources_reverse() {
    // The same sources scanned backward merge newest-first, each record
    // carrying its synthetic trailing padding.
    let source_a: &[&[u8]] = &[
        b"-info:<1> 2020-01-01 20:00:00.000 UTC [A]: a0",
        b"-info:<1> 2020-01-01 21:00:00.000 UTC [A]: a1",
    ];
    let source_b: &[&[u8]] = &[
        b"-info:<1> 2020-01-01 20:30:00.000 UTC [B]: b0",
        b"-info:<1> 2020-01-01 21:30:00.000 UTC [B]: b1",
    ];
    let readers = vec![
        filtering_iter(
            LogEntryRevReader::with_capacity(MemSource::new(file_bytes(source_a)), EOL_LF, 16)
                .unwrap()
                .with_source(0),
            no_filters(),
            Direction::Reverse,
        ),
        filtering_iter(
            LogEntryRevReader::with_capacity(MemSource::new(file_bytes(source_b)), EOL_LF, 16)
                .unwrap()
                .with_source(1),
            no_filters(),
            Direction::Reverse,
        ),
    ];
    let mut mux = LogEntryReaderMux::new(readers, Direction::Reverse);
    let results = drain_sources(&mut mux);
    let expected = vec![
        (1usize, [source_b[1], b"\n\n"].concat()),
        (0usize, [source_a[1], b"\n\n"].concat()),
        (1usize, [source_b[0], b"\n\n"].concat()),
        (0usize, [source_a[0], b"\n\n"].concat()),
    ];
    assert_eq!(results, expected);
}

#[test]
fn pipeline_forward_and_reverse_frame_same_records() {
    // Forward and reverse framing of the same on-disk bytes yield the same
    // records, in reverse order of each other, up to the synthetic trailing
    // padding the reverse framer adds.
    let lines: &[&[u8]] = &[
        b"-info:<1> 2020-01-01 20:00:00.000 UTC [A]: one",
        b"-warning:<1> 2020-01-01 21:00:00.000 UTC [A]: two",
        b"-fatal:<1> 2020-01-01 22:00:00.000 UTC [A]: three",
    ];
    let bytes = file_bytes(lines);

    let mut fwd = LogEntryReader::new(MemSource::new(bytes.clone()), EOL_LF).unwrap();
    let mut forward_records = Vec::new();
    loop {
        fwd.advance().unwrap();
        match fwd.current() {
            Some(e) => forward_records.push(e.contents().clone()),
            None => break,
        }
    }

    let mut rev = LogEntryRevReader::with_capacity(MemSource::new(bytes), EOL_LF, 8).unwrap();
    let mut reverse_records = Vec::new();
    loop {
        rev.advance().unwrap();
        match rev.current() {
            Some(e) => reverse_records.push(e.contents().clone()),
            None => break,
        }
    }

    fn strip_trailing_eol(mut v: Vec<u8>) -> Vec<u8> {
        while v.last() == Some(&b'\n') {
            v.pop();
        }
        v
    }

    reverse_records.reverse();
    let forward_stripped: Vec<Vec<u8>> =
        forward_records.into_iter().map(strip_trailing_eol).collect();
    let reverse_stripped: Vec<Vec<u8>> =
        reverse_records.into_iter().map(strip_trailing_eol).collect();
    assert_eq!(forward_stripped, reverse_stripped);
    assert_eq!(forward_stripped.len(), lines.len());
}

#[test]
fn pipeline_forward_and_reverse_frame_same_records_crlf() {
    // The framing round trip holds for a two-byte terminator as well.
    let lines: &[&[u8]] = &[
        b"-info:<1> 2020-01-01 20:00:00.000 UTC [A]: one",
        b"-warning:<1> 2020-01-01 21:00:00.000 UTC [A]: two",
    ];
    let mut bytes = Vec::new();
    for l in lines {
        bytes.extend_from_slice(l);
        bytes.extend_from_slice(b"\r\n\r\n");
    }

    let mut fwd = LogEntryReader::new(MemSource::new(bytes.clone()), b"\r\n").unwrap();
    let mut forward_records = Vec::new();
    loop {
        fwd.advance().unwrap();
        match fwd.current() {
            Some(e) => forward_records.push(e.contents().clone()),
            None => break,
        }
    }

    let mut rev = LogEntryRevReader::with_capacity(MemSource::new(bytes), b"\r\n", 7).unwrap();
    let mut reverse_records = Vec::new();
    loop {
        rev.advance().unwrap();
        match rev.current() {
            Some(e) => reverse_records.push(e.contents().clone()),
            None => break,
        }
    }

    reverse_records.reverse();
    assert_eq!(forward_records, reverse_records);
    assert_eq!(forward_records.len(), lines.len());
}
