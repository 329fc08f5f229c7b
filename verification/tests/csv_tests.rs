use lattice_cipher::csv_input::{csv_to_matrix, max_row_length_of_csv, text_matrix_of_csv};

#[test]
fn max_row_length_counts_header_and_records() {
    assert_eq!(max_row_length_of_csv(b"id,name\n1,alexandra\n2,bo\n"), Ok(11));
    assert_eq!(max_row_length_of_csv(b"abcdef,g\n1,2\n"), Ok(8));
}

#[test]
fn empty_csv_has_one_empty_header_row() {
    assert_eq!(max_row_length_of_csv(b""), Ok(0));
    let m = text_matrix_of_csv(b"").unwrap();
    assert_eq!((m.nrows, m.ncols), (1, 0));
}

#[test]
fn uneven_record_is_an_error() {
    assert!(max_row_length_of_csv(b"a,b\n1,2,3\n").is_err());
    assert!(text_matrix_of_csv(b"a,b\n1,2,3\n").is_err());
}

#[test]
fn invalid_utf8_header_is_an_error() {
    assert!(max_row_length_of_csv(b"a\xff,b\n1,2\n").is_err());
}

#[test]
fn text_matrix_pads_rows_to_the_longest() {
    let m = text_matrix_of_csv(b"id,n\n1,abc\n").unwrap();
    assert_eq!(m.nrows, 2);
    assert_eq!(m.ncols, 5);
    assert_eq!(m.data, vec![105, 100, 44, 110, 124, 49, 44, 97, 98, 99]);
}

#[test]
fn csv_to_matrix_reads_records_after_the_header() {
    let r = csv_to_matrix(b"h1,h2\nab,c\n\xc3\xa9,x\n");
    assert!(r.error.is_none());
    assert_eq!(r.records, vec![vec!["ab".to_string(), "c".to_string()], vec!["é".to_string(), "x".to_string()]]);
    assert_eq!(r.utf8, vec![vec![97, 98, 99], vec![0xC3, 0xA9, 120]]);
    assert_eq!(r.back, vec![vec!["abc".to_string()], vec!["éx".to_string()]]);
}

#[test]
fn csv_to_matrix_keeps_records_before_an_error() {
    let r = csv_to_matrix(b"h1,h2\nab,c\n1,2,3\nx,y\n");
    assert!(r.error.is_some());
    assert_eq!(r.records, vec![vec!["ab".to_string(), "c".to_string()]]);
    assert_eq!(r.back.len(), 1);
}

#[test]
fn csv_to_matrix_ignores_an_invalid_header() {
    let r = csv_to_matrix(b"h\xff,h2\nab,c\n");
    assert!(r.error.is_none());
    assert_eq!(r.records, vec![vec!["ab".to_string(), "c".to_string()]]);
}
