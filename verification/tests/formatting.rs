use riolog::formatting::format_special_chars;

#[test]
fn format_special_chars_plain() {
    let in_buf = b"abcdefg";
    let mut out_buf = Vec::<u8>::new();
    let last_slice_is_empty = format_special_chars(in_buf, &mut out_buf, false, b"\n", b"");

    assert_eq!(last_slice_is_empty, false);
    assert_eq!(out_buf, in_buf);
}

#[test]
fn format_special_chars_special_chars() {
    let in_buf = b"a\\nb\\tc\\\'d\\\"e\\\\fg";
    let mut out_buf = Vec::<u8>::new();
    let last_slice_is_empty = format_special_chars(in_buf, &mut out_buf, false, b"\n", b"");

    assert_eq!(last_slice_is_empty, false);
    assert_eq!(out_buf, b"a\nb\tc\'d\"e\\fg");
}

#[test]
fn format_special_chars_unknown_special_chars() {
    let in_buf = b"a\\ab\\bc\\cd";
    let mut out_buf = Vec::<u8>::new();
    let last_slice_is_empty = format_special_chars(in_buf, &mut out_buf, false, b"\n", b"");

    assert_eq!(last_slice_is_empty, false);
    assert_eq!(out_buf, in_buf);
}

#[test]
fn format_special_chars_slash_eol() {
    let in_buf = b"abc\\";
    let mut out_buf = Vec::<u8>::new();
    let last_slice_is_empty = format_special_chars(in_buf, &mut out_buf, false, b"\n", b"");

    assert_eq!(last_slice_is_empty, true);
    assert_eq!(out_buf, b"abc");
}

#[test]
fn format_special_chars_ctr_char_is_next() {
    let in_buf = b"nabc";
    let mut out_buf = Vec::<u8>::new();
    let ctr_char_is_next = true;
    let last_slice_is_empty =
        format_special_chars(in_buf, &mut out_buf, ctr_char_is_next, b"\n", b"");

    assert_eq!(last_slice_is_empty, false);
    assert_eq!(out_buf, b"\nabc");
}

#[test]
fn format_special_chars_ctr_char_is_next_slash() {
    let in_buf = b"\\abc";
    let mut out_buf = Vec::<u8>::new();
    let ctr_char_is_next = true;
    let last_slice_is_empty =
        format_special_chars(in_buf, &mut out_buf, ctr_char_is_next, b"\n", b"");

    assert_eq!(last_slice_is_empty, false);
    assert_eq!(out_buf, b"\\abc");
}

#[test]
fn format_special_chars_split_escape_across_buffers() {
    // A lone trailing backslash is carried to the next buffer through the
    // returned flag, so a split escape still expands.
    let mut out_buf = Vec::<u8>::new();
    let carried = format_special_chars(b"abc\\", &mut out_buf, false, b"\n", b"");
    assert_eq!(carried, true);
    let carried = format_special_chars(b"ndef", &mut out_buf, carried, b"\n", b"");
    assert_eq!(carried, false);
    assert_eq!(out_buf, b"abc\ndef");
}
