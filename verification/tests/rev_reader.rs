use riolog::rev_reader::RevReader;
use riolog::source::MemSource;

fn next_span(reader: &mut RevReader<MemSource>) -> Option<String> {
    reader
        .read_until(b'\n', 1)
        .unwrap()
        .map(|s| String::from_utf8_lossy(&s).to_string())
}

#[test]
fn rev_reader_lf() {
    let input: &[u8] = b"first line\n\nthird line\nfourth line";
    let reader = MemSource::new(input.to_vec());
    let mut reader = RevReader::with_capacity(reader, 1024).unwrap();
    assert_eq!(next_span(&mut reader), Some("fourth line".to_string()));
    assert_eq!(next_span(&mut reader), Some("third line".to_string()));
    assert_eq!(next_span(&mut reader), Some("".to_string()));
    assert_eq!(next_span(&mut reader), Some("first line".to_string()));
    assert_eq!(next_span(&mut reader), None);
}

#[test]
fn rev_reader_trailing_lf() {
    let input: &[u8] = b"first line\n\nthird line\nfourth line\n";
    let reader = MemSource::new(input.to_vec());
    let mut reader = RevReader::with_capacity(reader, 1024).unwrap();
    assert_eq!(next_span(&mut reader), Some("".to_string()));
    assert_eq!(next_span(&mut reader), Some("fourth line".to_string()));
    assert_eq!(next_span(&mut reader), Some("third line".to_string()));
    assert_eq!(next_span(&mut reader), Some("".to_string()));
    assert_eq!(next_span(&mut reader), Some("first line".to_string()));
    assert_eq!(next_span(&mut reader), None);
}

#[test]
fn rev_reader_rejoin_small_capacity() {
    // Rejoining all spans, oldest first and separated by the delimiter,
    // reproduces the source, even with a scratch buffer smaller than a span.
    let input: &[u8] = b"alpha\nbeta gamma\n\ndelta epsilon zeta\neta";
    for capacity in [1usize, 2, 3, 7, 1024] {
        let reader = MemSource::new(input.to_vec());
        let mut reader = RevReader::with_capacity(reader, capacity).unwrap();
        let spans = riolog::rev_reader::scan_all(&mut reader, b'\n', 1).unwrap();
        let rejoined = spans
            .iter()
            .rev()
            .map(|s| s.as_slice())
            .collect::<Vec<_>>()
            .join(&b"\n"[..]);
        assert_eq!(rejoined, input.to_vec());
    }
}
