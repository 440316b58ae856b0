use manager_core::view::{decode, hex_rows, lay_out, sniff, Content, Encoding, HexRow};

#[test]
fn an_empty_file_counts_as_text() {
    assert_eq!(sniff(b""), Content::Text(Encoding::Utf8));
}

#[test]
fn plain_text_is_utf8() {
    assert_eq!(sniff(b"hello, world\n"), Content::Text(Encoding::Utf8));
    assert_eq!(
        sniff("caf\u{e9} \u{2014} na\u{ef}ve".as_bytes()),
        Content::Text(Encoding::Utf8)
    );
}

#[test]
fn a_byte_order_mark_settles_the_encoding() {
    assert_eq!(sniff(b"\xef\xbb\xbfhello"), Content::Text(Encoding::Utf8));
    assert_eq!(sniff(b"\xff\xfeh\0i\0"), Content::Text(Encoding::Utf16Le));
    assert_eq!(sniff(b"\xfe\xff\0h\0i"), Content::Text(Encoding::Utf16Be));
}

#[test]
fn a_null_byte_means_binary() {
    assert_eq!(sniff(b"hello\0world"), Content::Binary);
    assert_eq!(sniff(b"\x89PNG\r\n\x1a\n\0\0\0\rIHDR"), Content::Binary);
}

#[test]
fn old_single_byte_text_is_read_as_latin1() {
    assert_eq!(sniff(b"caf\xe9 au lait\n"), Content::Text(Encoding::Latin1));
}

#[test]
fn a_cut_off_character_at_the_end_does_not_spoil_the_guess() {
    let mut bytes = "hello \u{4e16}\u{754c}".as_bytes().to_vec();
    bytes.truncate(bytes.len() - 1);
    assert_eq!(sniff(&bytes), Content::Text(Encoding::Utf8));
}

#[test]
fn utf8_decodes_unchanged_without_its_mark() {
    assert_eq!(decode(b"hello", Encoding::Utf8), "hello");
    assert_eq!(decode(b"\xef\xbb\xbfhello", Encoding::Utf8), "hello");
}

#[test]
fn utf16_decodes_from_either_end() {
    assert_eq!(decode(b"\xff\xfeh\0i\0", Encoding::Utf16Le), "hi");
    assert_eq!(decode(b"\xfe\xff\0h\0i", Encoding::Utf16Be), "hi");
}

#[test]
fn latin1_maps_every_byte_to_something() {
    assert_eq!(decode(b"caf\xe9", Encoding::Latin1), "caf\u{e9}");
    let every: Vec<u8> = (0..=255).collect();
    assert_eq!(decode(&every, Encoding::Latin1).chars().count(), 256);
}

#[test]
fn broken_utf8_becomes_replacement_characters_rather_than_an_error() {
    assert_eq!(decode(b"a\xffb", Encoding::Utf8), "a\u{fffd}b");
}

#[test]
fn every_kind_of_line_ending_splits() {
    assert_eq!(lay_out("a\nb", None, 4), ["a", "b"]);
    assert_eq!(lay_out("a\r\nb", None, 4), ["a", "b"]);
    assert_eq!(lay_out("a\rb", None, 4), ["a", "b"]);
}

#[test]
fn a_trailing_newline_does_not_add_an_empty_line() {
    assert_eq!(lay_out("a\nb\n", None, 4), ["a", "b"]);
    assert_eq!(lay_out("a\n\nb", None, 4), ["a", "", "b"]);
}

#[test]
fn tabs_line_up_to_the_next_stop() {
    assert_eq!(lay_out("a\tb", None, 4), ["a   b"]);
    assert_eq!(lay_out("abc\td", None, 4), ["abc d"]);
    assert_eq!(lay_out("abcd\te", None, 4), ["abcd    e"]);
}

#[test]
fn long_lines_wrap_when_asked() {
    assert_eq!(lay_out("abcdefgh", Some(3), 4), ["abc", "def", "gh"]);
    assert_eq!(lay_out("abcdefgh", None, 4), ["abcdefgh"]);
}

#[test]
fn wrapping_counts_characters_not_bytes() {
    assert_eq!(
        lay_out("\u{e9}\u{e9}\u{e9}\u{e9}", Some(3), 4),
        ["\u{e9}\u{e9}\u{e9}", "\u{e9}"]
    );
}

#[test]
fn hex_rows_are_numbered_from_where_the_window_starts() {
    let rows = hex_rows(b"0123456789abcdefghij", 0x100, 16);
    assert_eq!(rows.len(), 2);
    assert_eq!(rows[0].offset, 0x100);
    assert_eq!(rows[0].bytes.len(), 16);
    assert_eq!(rows[1].offset, 0x110);
    assert_eq!(rows[1].bytes, b"ghij", "the last row is short");
}

#[test]
fn the_hex_text_column_shows_only_printable_characters() {
    let row = HexRow { offset: 0, bytes: b"ab\0\x1f~\x7f\xff".to_vec() };
    assert_eq!(row.text(), "ab..~..");
}

#[test]
fn nothing_at_all_produces_no_rows() {
    assert!(hex_rows(b"", 0, 16).is_empty());
}

// ---- More cases ----

#[test]
fn a_lone_surrogate_in_utf16_becomes_a_replacement_character() {
    assert_eq!(decode(b"\xff\xfe\x00\xd8a\0", Encoding::Utf16Le), "\u{fffd}a");
    assert_eq!(decode(b"\xfe\xff\xd8\x3d\xde\x00", Encoding::Utf16Be), "\u{1f600}");
}

#[test]
fn a_trailing_odd_byte_of_utf16_is_dropped() {
    assert_eq!(decode(b"h\0i", Encoding::Utf16Le), "h");
}

#[test]
fn a_tab_width_of_zero_counts_as_one() {
    assert_eq!(lay_out("a\tb", None, 0), ["a b"]);
}

#[test]
fn a_wrapped_empty_line_is_still_a_line() {
    assert_eq!(lay_out("a\n\nb", Some(2), 4), ["a", "", "b"]);
    assert_eq!(lay_out("abc", Some(0), 4), ["abc"]);
}

#[test]
fn a_row_width_of_zero_counts_as_one() {
    let rows = hex_rows(b"ab", 10, 0);
    assert_eq!(rows.len(), 2);
    assert_eq!(rows[1].offset, 11);
}

#[test]
fn only_the_first_window_is_sniffed() {
    let mut bytes = vec![b'a'; 8192];
    bytes.push(0);
    assert_eq!(sniff(&bytes), Content::Text(Encoding::Utf8));
}

#[test]
fn only_a_character_cut_off_at_the_very_end_still_counts_as_utf8() {
    assert_eq!(sniff(b"caf\xc3"), Content::Text(Encoding::Utf8));
    assert_eq!(sniff(b"dash \xe2\x80"), Content::Text(Encoding::Utf8));
    assert_eq!(sniff(b"caf\xc3x"), Content::Text(Encoding::Latin1));
    assert_eq!(sniff(b"bad \xe0\x80"), Content::Text(Encoding::Latin1), "no character starts like that");
}

#[test]
fn valid_utf8_comes_back_as_it_is_and_bad_bytes_as_replacement_characters() {
    let text = "caf\u{e9} \u{2014} \u{1f600} done";
    assert_eq!(decode(text.as_bytes(), Encoding::Utf8), text);
    assert_eq!(decode(b"a", Encoding::Utf8), "a");
    assert_eq!(decode(b"a\xffb", Encoding::Utf8), "a\u{fffd}b");
}
