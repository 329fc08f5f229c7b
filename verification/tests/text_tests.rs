use lattice_cipher::codec::{convert_to_string, convert_to_utf8};
use lattice_cipher::decode::{utf8_to_string, LineScanner};
use lattice_cipher::records::{
    fart, find_max_row_length, record_to_utf8, string_array_to_utf8_array,
    utf8_array_pad_to_max_length,
};

fn strings(fields: &[&str]) -> Vec<String> {
    fields.iter().map(|s| s.to_string()).collect()
}

#[test]
fn convert_to_utf8_concatenates_field_bytes() {
    let bytes = convert_to_utf8(&strings(&["ab", "é", ""]));
    assert_eq!(bytes, vec![97, 98, 0xC3, 0xA9]);
}

#[test]
fn convert_to_utf8_of_no_fields_is_empty() {
    assert_eq!(convert_to_utf8(&[]), Vec::<u8>::new());
}

#[test]
fn convert_to_string_drops_commas_and_trims() {
    let out = convert_to_string(b" a , b ");
    assert_eq!(out, vec!["a  b".to_string()]);
}

#[test]
fn convert_to_string_replaces_invalid_bytes() {
    let out = convert_to_string(&[0x41, 0xFF, 0x2C, 0x42]);
    assert_eq!(out, vec!["A\u{FFFD}B".to_string()]);
}

#[test]
fn convert_to_string_of_nothing_is_one_empty_piece() {
    assert_eq!(convert_to_string(&[]), vec![String::new()]);
}

#[test]
fn round_trip_through_utf8_joins_fields_without_commas() {
    let fields = strings(&["x,y", " zé"]);
    let back = convert_to_string(&convert_to_utf8(&fields));
    assert_eq!(back, vec!["xy zé".to_string()]);
}

#[test]
fn record_bytes_join_fields_with_commas() {
    let values = record_to_utf8(&strings(&["ab", "c", "é"]));
    assert_eq!(values, vec![97, 98, 44, 99, 44, 0xC3, 0xA9]);
    assert_eq!(record_to_utf8(&[]), Vec::<u64>::new());
}

#[test]
fn record_length_counts_bytes_and_commas() {
    assert_eq!(string_array_to_utf8_array(&strings(&["ab", "c"])), 4);
    assert_eq!(string_array_to_utf8_array(&strings(&["é"])), 2);
    assert_eq!(string_array_to_utf8_array(&[]), 0);
}

#[test]
fn padding_fills_with_pipes() {
    let values = utf8_array_pad_to_max_length(&strings(&["ab", "c"]), 6);
    assert_eq!(values, vec![97, 98, 44, 99, 124, 124]);
}

#[test]
fn padding_leaves_longer_rows_alone() {
    let values = utf8_array_pad_to_max_length(&strings(&["abc"]), 2);
    assert_eq!(values, vec![97, 98, 99]);
}

#[test]
fn max_row_length_is_the_longest_record() {
    let rows = vec![strings(&["id", "name"]), strings(&["1", "alexandra"]), strings(&["2", "bo"])];
    assert_eq!(find_max_row_length(&rows), 11);
    assert_eq!(find_max_row_length(&[]), 0);
}

#[test]
fn fart_builds_uniform_rows_at_max_width() {
    let rows = vec![strings(&["id", "n"]), strings(&["1", "abc"])];
    let width = find_max_row_length(&rows);
    assert_eq!(width, 5);
    let m = fart(&rows, width);
    assert_eq!(m.nrows, 2);
    assert_eq!(m.ncols, 5);
    assert_eq!(m.data, vec![105, 100, 44, 110, 124, 49, 44, 97, 98, 99]);
}

#[test]
fn padded_rows_decode_back_to_text_and_pipes() {
    let rows = vec![strings(&["id", "é"]), strings(&["1", "abcd"])];
    let width = find_max_row_length(&rows);
    let m = fart(&rows, width);
    let lines: Vec<Vec<u64>> = m.data.chunks(m.ncols).map(|c| c.to_vec()).collect();
    let text = utf8_to_string(lines);
    assert!(text.complete);
    assert_eq!(text.lines, vec!["id,é|".to_string(), "1,abcd".to_string()]);
}

#[test]
fn utf8_to_string_truncates_values_to_bytes() {
    let text = utf8_to_string(vec![vec![256 + 72, 105], vec![]]);
    assert!(text.complete);
    assert_eq!(text.lines, vec!["Hi".to_string(), String::new()]);
}

#[test]
fn utf8_to_string_stops_at_invalid_line() {
    let text = utf8_to_string(vec![vec![79, 75], vec![0xC3], vec![65]]);
    assert!(!text.complete);
    assert_eq!(text.lines, vec!["OK".to_string()]);
}

#[test]
fn scanner_hands_out_tokens_at_separators() {
    let mut scanner = LineScanner::new();
    assert!(scanner.feed('1').is_none());
    assert!(scanner.feed('.').is_none());
    assert!(scanner.feed('5').is_none());
    let token = scanner.feed(' ').unwrap();
    assert_eq!(token, vec!['1', '.', '5']);
    scanner.parsed(true);
    assert!(scanner.feed(' ').is_none());
    assert!(scanner.feed('-').is_none());
    let token = scanner.feed(']').unwrap();
    assert_eq!(token, vec!['-']);
    // "-" does not parse, so it stays and grows
    scanner.parsed(false);
    assert!(scanner.feed('2').is_none());
    let token = scanner.feed(',').unwrap();
    assert_eq!(token, vec!['-', '2']);
}

#[test]
fn reading_back_the_text_gives_it_again() {
    for input in [&b" a , b "[..], &[0x41, 0xFF, 0x2C, 0x42][..], &[0xE2, 0x2C, 0x82][..], &[][..]] {
        let r = convert_to_string(input);
        assert_eq!(r.len(), 1);
        assert_eq!(convert_to_string(r[0].as_bytes()), r);
    }
}

#[test]
fn convert_to_string_trims_unicode_white_space() {
    let text = "\u{3000}\u{85} x y\t\u{2029}";
    let out = convert_to_string(text.as_bytes());
    assert_eq!(out, vec!["x y".to_string()]);
}

#[test]
fn fart_rows_are_padded_records_above_max_width() {
    let rows = vec![strings(&["id", "n"]), strings(&["1", "abc"])];
    let m = fart(&rows, 7);
    assert_eq!(m.nrows, 2);
    assert_eq!(m.ncols, 7);
    assert_eq!(&m.data[0..7], &utf8_array_pad_to_max_length(&rows[0], 7)[..]);
    assert_eq!(&m.data[7..14], &utf8_array_pad_to_max_length(&rows[1], 7)[..]);
    assert_eq!(&m.data[7..14], &[49, 44, 97, 98, 99, 124, 124]);
}
