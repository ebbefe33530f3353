use riolog::log_entry_reader::{LogEntryReader, LogEntryRevReader};
use riolog::source::MemSource;
use riolog::stream::RecordStream;

const EOL_LF: &[u8] = b"\n";
const EOL_CRLF: &[u8] = b"\r\n";
const LOG_ENTRIES: [&[u8]; 2] = [
    b"-info:<16866> 2020-01-13 20:08:18.476 UTC [Category]: Contents of single line entry",
    b"-warning:<16866> 2020-01-13 20:09:18.476 UTC [Category]: The second line",
];
const EXTRA_LOG_ENTRY_LINE: &[u8] = b"MESSAGE Alphabet";

fn next_fwd(reader: &mut LogEntryReader<MemSource>) -> Option<Vec<u8>> {
    reader.advance().unwrap();
    reader.current().map(|e| e.contents().clone())
}

fn next_rev(reader: &mut LogEntryRevReader<MemSource>) -> Option<Vec<u8>> {
    reader.advance().unwrap();
    reader.current().map(|e| e.contents().clone())
}

#[test]
fn log_entry_reader_single_line_lf() {
    let one_line = [LOG_ENTRIES[0], EOL_LF].concat();
    let reader = MemSource::new(one_line.clone());
    let mut reader = LogEntryReader::new(reader, EOL_LF).unwrap();
    let entry = next_fwd(&mut reader).unwrap();
    assert_eq!(
        String::from_utf8_lossy(&entry),
        String::from_utf8_lossy(one_line.as_slice())
    );
    assert_eq!(next_fwd(&mut reader), None);
}

#[test]
fn log_entry_reader_single_line_crlf() {
    let one_line = [LOG_ENTRIES[0], EOL_CRLF].concat();
    let reader = MemSource::new(one_line.clone());
    let mut reader = LogEntryReader::new(reader, EOL_CRLF).unwrap();
    let entry = next_fwd(&mut reader).unwrap();
    assert_eq!(
        String::from_utf8_lossy(&entry),
        String::from_utf8_lossy(one_line.as_slice())
    );
    assert_eq!(next_fwd(&mut reader), None);
}

#[test]
fn log_entry_reader_single_line_no_final_eol() {
    let reader = MemSource::new(LOG_ENTRIES[0].to_vec());
    let mut reader = LogEntryReader::new(reader, EOL_LF).unwrap();
    let entry = next_fwd(&mut reader).unwrap();
    assert_eq!(
        String::from_utf8_lossy(&entry),
        String::from_utf8_lossy(LOG_ENTRIES[0])
    );
    assert_eq!(next_fwd(&mut reader), None);
}

#[test]
fn log_entry_reader_two_lines_lf() {
    let line_one = [LOG_ENTRIES[0], EOL_LF, EOL_LF].concat();
    let line_two = [LOG_ENTRIES[1], EOL_LF, EOL_LF].concat();

    let reader = MemSource::new([line_one.as_slice(), line_two.as_slice()].concat());
    let mut reader = LogEntryReader::new(reader, EOL_LF).unwrap();

    let entry = next_fwd(&mut reader).unwrap();
    assert_eq!(
        String::from_utf8_lossy(&entry),
        String::from_utf8_lossy(line_one.as_slice())
    );

    let entry = next_fwd(&mut reader).unwrap();
    assert_eq!(
        String::from_utf8_lossy(&entry),
        String::from_utf8_lossy(line_two.as_slice())
    );

    assert_eq!(next_fwd(&mut reader), None);
}

#[test]
fn log_entry_reader_two_lines_extra_line_lf() {
    let line_one = [LOG_ENTRIES[0], EOL_LF, EOL_LF].concat();
    let line_two = [LOG_ENTRIES[1], EOL_LF, EXTRA_LOG_ENTRY_LINE, EOL_LF, EOL_LF].concat();

    let reader = MemSource::new([line_one.as_slice(), line_two.as_slice()].concat());
    let mut reader = LogEntryReader::new(reader, EOL_LF).unwrap();

    let entry = next_fwd(&mut reader).unwrap();
    assert_eq!(
        String::from_utf8_lossy(&entry),
        String::from_utf8_lossy(line_one.as_slice())
    );

    let entry = next_fwd(&mut reader).unwrap();
    assert_eq!(
        String::from_utf8_lossy(&entry),
        String::from_utf8_lossy(line_two.as_slice())
    );

    assert_eq!(next_fwd(&mut reader), None);
}

#[test]
fn log_entry_reader_two_lines_crlf() {
    let line_one = [LOG_ENTRIES[0], EOL_CRLF, EOL_CRLF].concat();
    let line_two = [LOG_ENTRIES[1], EOL_CRLF, EOL_CRLF].concat();

    let reader = MemSource::new([line_one.as_slice(), line_two.as_slice()].concat());
    let mut reader = LogEntryReader::new(reader, EOL_CRLF).unwrap();

    let entry = next_fwd(&mut reader).unwrap();
    assert_eq!(
        String::from_utf8_lossy(&entry),
        String::from_utf8_lossy(line_one.as_slice())
    );

    let entry = next_fwd(&mut reader).unwrap();
    assert_eq!(
        String::from_utf8_lossy(&entry),
        String::from_utf8_lossy(line_two.as_slice())
    );

    assert_eq!(next_fwd(&mut reader), None);
}

#[test]
fn log_entry_reader_single_line_rev_lf() {
    let one_line = [LOG_ENTRIES[0], EOL_LF].concat();
    let reader = MemSource::new(one_line);
    let mut reader = LogEntryRevReader::with_capacity(reader, EOL_LF, 1024 * 1024).unwrap();
    let entry = next_rev(&mut reader).unwrap();
    assert_eq!(
        String::from_utf8_lossy(&entry),
        String::from_utf8_lossy(&[LOG_ENTRIES[0], EOL_LF, EOL_LF].concat())
    );
    assert_eq!(next_rev(&mut reader), None);
}

#[test]
fn log_entry_reader_single_line_rev_crlf() {
    let one_line = [LOG_ENTRIES[0], EOL_CRLF].concat();
    let reader = MemSource::new(one_line);
    let mut reader = LogEntryRevReader::with_capacity(reader, EOL_CRLF, 1024 * 1024).unwrap();
    let entry = next_rev(&mut reader).unwrap();
    assert_eq!(
        String::from_utf8_lossy(&entry),
        String::from_utf8_lossy(&[LOG_ENTRIES[0], EOL_CRLF, EOL_CRLF].concat())
    );
    assert_eq!(next_rev(&mut reader), None);
}

#[test]
fn log_entry_reader_two_lines_lf_rev() {
    let line_one = [LOG_ENTRIES[0], EOL_LF, EOL_LF].concat();
    let line_two = [LOG_ENTRIES[1], EOL_LF, EOL_LF].concat();

    let reader = MemSource::new([line_one.as_slice(), line_two.as_slice()].concat());
    let mut reader = LogEntryRevReader::with_capacity(reader, EOL_LF, 1024 * 1024).unwrap();

    let entry = next_rev(&mut reader).unwrap();
    assert_eq!(
        String::from_utf8_lossy(&entry),
        String::from_utf8_lossy(line_two.as_slice())
    );

    let entry = next_rev(&mut reader).unwrap();
    assert_eq!(
        String::from_utf8_lossy(&entry),
        String::from_utf8_lossy(line_one.as_slice())
    );

    assert_eq!(next_rev(&mut reader), None);
}

#[test]
fn log_entry_reader_two_lines_crlf_rev() {
    let line_one = [LOG_ENTRIES[0], EOL_CRLF, EOL_CRLF].concat();
    let line_two = [LOG_ENTRIES[1], EOL_CRLF, EOL_CRLF].concat();

    let reader = MemSource::new([line_one.as_slice(), line_two.as_slice()].concat());
    let mut reader = LogEntryRevReader::with_capacity(reader, EOL_CRLF, 1024 * 1024).unwrap();

    let entry = next_rev(&mut reader).unwrap();
    assert_eq!(
        String::from_utf8_lossy(&entry),
        String::from_utf8_lossy(line_two.as_slice())
    );

    let entry = next_rev(&mut reader).unwrap();
    assert_eq!(
        String::from_utf8_lossy(&entry),
        String::from_utf8_lossy(line_one.as_slice())
    );

    assert_eq!(next_rev(&mut reader), None);
}

#[test]
fn log_entry_reader_two_lines_crlf_no_trailing_rev() {
    let line_one = [LOG_ENTRIES[0], EOL_CRLF, EOL_CRLF].concat();
    let line_two = [LOG_ENTRIES[1], EOL_CRLF].concat();

    let reader = MemSource::new([line_one.as_slice(), line_two.as_slice()].concat());
    let mut reader = LogEntryRevReader::with_capacity(reader, EOL_CRLF, 1024 * 1024).unwrap();

    let entry = next_rev(&mut reader).unwrap();
    assert_eq!(
        String::from_utf8_lossy(&entry),
        String::from_utf8_lossy(&[LOG_ENTRIES[1], EOL_CRLF, EOL_CRLF].concat())
    );

    let entry = next_rev(&mut reader).unwrap();
    assert_eq!(
        String::from_utf8_lossy(&entry),
        String::from_utf8_lossy(line_one.as_slice())
    );

    assert_eq!(next_rev(&mut reader), None);
}

#[test]
fn log_entry_reader_two_lines_crlf_no_trailing2_rev() {
    let line_one = [LOG_ENTRIES[0], EOL_CRLF, EOL_CRLF].concat();
    let line_two = LOG_ENTRIES[1];

    let reader = MemSource::new([line_one.as_slice(), line_two].concat());
    let mut reader = LogEntryRevReader::with_capacity(reader, EOL_CRLF, 1024 * 1024).unwrap();

    let entry = next_rev(&mut reader).unwrap();
    assert_eq!(
        String::from_utf8_lossy(&entry),
        String::from_utf8_lossy(&[LOG_ENTRIES[1], EOL_CRLF, EOL_CRLF].concat())
    );

    let entry = next_rev(&mut reader).unwrap();
    assert_eq!(
        String::from_utf8_lossy(&entry),
        String::from_utf8_lossy(line_one.as_slice())
    );

    assert_eq!(next_rev(&mut reader), None);
}

#[test]
fn log_entry_reader_two_lines_lf_small_buffer_rev() {
    let line_one = [LOG_ENTRIES[0], EOL_LF, EOL_LF].concat();
    let line_two = [LOG_ENTRIES[1], EOL_LF, EOL_LF].concat();

    let reader = MemSource::new([line_one.as_slice(), line_two.as_slice()].concat());
    let mut reader = LogEntryRevReader::with_capacity(reader, EOL_LF, 10).unwrap();

    let entry = next_rev(&mut reader).unwrap();
    assert_eq!(
        String::from_utf8_lossy(&entry),
        String::from_utf8_lossy(line_two.as_slice())
    );

    let entry = next_rev(&mut reader).unwrap();
    assert_eq!(
        String::from_utf8_lossy(&entry),
        String::from_utf8_lossy(line_one.as_slice())
    );

    assert_eq!(next_rev(&mut reader), None);
}

#[test]
fn log_entry_reader_two_lines_lf_extra_line_rev() {
    let line_one = [LOG_ENTRIES[0], EOL_LF, EOL_LF].concat();
    let line_two = [LOG_ENTRIES[1], EOL_LF, EXTRA_LOG_ENTRY_LINE, EOL_LF, EOL_LF].concat();

    let reader = MemSource::new([line_one.as_slice(), line_two.as_slice()].concat());
    let mut reader = LogEntryRevReader::with_capacity(reader, EOL_LF, 10).unwrap();

    let entry = next_rev(&mut reader).unwrap();
    assert_eq!(
        String::from_utf8_lossy(&entry),
        String::from_utf8_lossy(line_two.as_slice())
    );

    let entry = next_rev(&mut reader).unwrap();
    assert_eq!(
        String::from_utf8_lossy(&entry),
        String::from_utf8_lossy(line_one.as_slice())
    );

    assert_eq!(next_rev(&mut reader), None);
}

#[test]
fn log_entry_reader_leading_blank_is_content() {
    // A blank line read before the record holds content beyond terminator
    // length is itself leading content: it opens the record rather than
    // being discarded.
    let reader = MemSource::new(b"\nx\n\n".to_vec());
    let mut reader = LogEntryReader::new(reader, EOL_LF).unwrap();
    let entry = next_fwd(&mut reader).unwrap();
    assert_eq!(entry, b"\nx\n\n".to_vec());
    assert_eq!(next_fwd(&mut reader), None);
}

#[test]
fn log_entry_reader_leading_blanks_accumulate() {
    // Several leading blank lines all stay with the record they open.
    let input = b"\n\nfirst line\n\nsecond line\n\n".to_vec();
    let reader = MemSource::new(input);
    let mut reader = LogEntryReader::new(reader, EOL_LF).unwrap();
    let entry = next_fwd(&mut reader).unwrap();
    assert_eq!(entry, b"\n\nfirst line\n\n".to_vec());
    let entry = next_fwd(&mut reader).unwrap();
    assert_eq!(entry, b"second line\n\n".to_vec());
    assert_eq!(next_fwd(&mut reader), None);
}
