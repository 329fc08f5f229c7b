//! CSV text as the library reads it: the header row and the records, and the byte
//! matrix and the UTF-8 read-back built from them.

use crate::codec::{convert_to_string, convert_to_utf8, decoded_pieces, string_views, utf8_of_all};
use crate::records::{
    fart, find_max_row_length, lemma_rows_at_width, max_record_len, padded_rows, record_views,
    TextMatrix,
};
use crate::seqs::concat_all;
use vstd::prelude::*;

verus! {

/// The rows a CSV reader that treats the first row as the header reads from some text.
pub struct CsvRows {
    /// The header row, or the message of the error reading it as text gave.
    pub header: Result<Vec<String>, String>,
    /// The records after the header, up to the first one that could not be read.
    pub records: Vec<Vec<String>>,
    /// The message of the error that stopped the records, if one did.
    pub error: Option<String>,
}

/// The texts of a header row, or the error message.
pub open spec fn header_view(h: Result<Vec<String>, String>) -> Result<Seq<Seq<char>>, Seq<char>> {
    match h {
        Ok(f) => Ok(string_views(f@)),
        Err(m) => Err(m@),
    }
}

/// The text of an optional error message.
pub open spec fn message_view(e: Option<String>) -> Option<Seq<char>> {
    match e {
        Some(m) => Some(m@),
        None => None,
    }
}

/// What the `csv` crate reads from `bytes` with the first row as header: the header (or
/// its error message), the records before the first error, and that error's message.
pub uninterp spec fn csv_read(bytes: Seq<u8>) -> (
    Result<Seq<Seq<char>>, Seq<char>>,
    Seq<Seq<Seq<char>>>,
    Option<Seq<char>>,
);

/// Reads CSV text with `csv::ReaderBuilder` (first row as header), `Reader::headers` and
/// `Reader::records`, keeping each field as a `String` and each error as its message.
/// Claimed: what comes back is `csv_read` of the bytes. The record errors do not depend
/// on whether the header was asked for first, so the records are those a reader that
/// never asks for the header yields.
#[verifier::external_body]
fn parse_csv(bytes: &[u8]) -> (rows: CsvRows)
    ensures
        csv_read(bytes@) == (header_view(rows.header), record_views(rows.records@), message_view(
            rows.error,
        )),
{
    let mut rdr = csv::ReaderBuilder::new().has_headers(true).from_reader(bytes);
    let header = match rdr.headers() {
        Ok(h) => Ok(h.iter().map(String::from).collect()),
        Err(e) => Err(e.to_string()),
    };
    let mut records = Vec::new();
    for result in rdr.records() {
        match result {
            Ok(r) => records.push(r.iter().map(String::from).collect()),
            Err(e) => return CsvRows { header, records, error: Some(e.to_string()) },
        }
    }
    CsvRows { header, records, error: None }
}

/// The rows of CSV text, header first, or the message of the first error met reading it
/// (reading stops at the header's error, else at the first record's error).
pub open spec fn csv_table(bytes: Seq<u8>) -> Result<Seq<Seq<Seq<char>>>, Seq<char>> {
    let r = csv_read(bytes);
    match r.0 {
        Err(m) => Err(m),
        Ok(h) => match r.2 {
            Some(m) => Err(m),
            None => Ok(seq![h] + r.1),
        },
    }
}

/// The text of an error message.
pub open spec fn err_view<T>(r: Result<T, String>) -> Option<Seq<char>> {
    match r {
        Ok(_) => None,
        Err(m) => Some(m@),
    }
}

/// All rows of the CSV text, header first, or the error message.
fn table_rows(bytes: &[u8]) -> (res: Result<Vec<Vec<String>>, String>)
    ensures
        match res {
            Ok(rows) => csv_table(bytes@) == Ok::<_, Seq<char>>(record_views(rows@)),
            Err(m) => csv_table(bytes@) == Err::<Seq<Seq<Seq<char>>>, _>(m@),
        },
{
    let parsed = parse_csv(bytes);
    let CsvRows { header, mut records, error } = parsed;
    match header {
        Err(m) => Err(m),
        Ok(h) => match error {
            Some(m) => Err(m),
            None => {
                let ghost hv = string_views(h@);
                let ghost rv = record_views(records@);
                let mut rows: Vec<Vec<String>> = Vec::new();
                rows.push(h);
                rows.append(&mut records);
                assert(record_views(rows@) =~= seq![hv] + rv);
                Ok(rows)
            },
        },
    }
}

/// The length of the longest row of the CSV text (the header included), or the message of
/// the first error met reading it.
pub fn max_row_length_of_csv(bytes: &[u8]) -> (res: Result<usize, String>)
    ensures
        match res {
            Ok(m) => csv_table(bytes@) matches Ok(rows) && m == max_record_len(rows),
            Err(e) => csv_table(bytes@) == Err::<Seq<Seq<Seq<char>>>, _>(e@),
        },
{
    match table_rows(bytes) {
        Ok(rows) => Ok(find_max_row_length(rows.as_slice())),
        Err(m) => Err(m),
    }
}

/// The byte matrix of the CSV text: each row (header first) as the UTF-8 bytes of its
/// fields joined by commas, padded with `|` to the longest row; or the message of the first
/// error met reading the text.
pub fn text_matrix_of_csv(bytes: &[u8]) -> (res: Result<TextMatrix, String>)
    ensures
        match res {
            Ok(x) => csv_table(bytes@) matches Ok(rows) && {
                let w = max_record_len(rows);
                &&& x.nrows == rows.len()
                &&& x.ncols == w
                &&& x.data@ == concat_all(padded_rows(rows, w as int))
            },
            Err(e) => csv_table(bytes@) == Err::<Seq<Seq<Seq<char>>>, _>(e@),
        },
{
    match table_rows(bytes) {
        Ok(rows) => {
            let max_row_length = find_max_row_length(rows.as_slice());
            proof {
                assert(record_views(rows@).len() == rows@.len());
                lemma_rows_at_width(record_views(rows@), max_row_length as int);
            }
            Ok(fart(rows.as_slice(), max_row_length))
        },
        Err(m) => Err(m),
    }
}

/// The records of CSV text (the header row left out), each with its UTF-8 bytes and the
/// text read back from them, up to the first record that could not be read.
pub struct ReadBack {
    pub records: Vec<Vec<String>>,
    pub utf8: Vec<Vec<u8>>,
    pub back: Vec<Vec<String>>,
    /// The message of the error that stopped the records, if one did.
    pub error: Option<String>,
}

/// Reads the records of CSV text (the first row is the header and is not among them) and
/// converts each to its UTF-8 bytes and back to text.
pub fn csv_to_matrix(bytes: &[u8]) -> (res: ReadBack)
    ensures
        record_views(res.records@) == csv_read(bytes@).1,
        message_view(res.error) == csv_read(bytes@).2,
        res.utf8@.len() == res.records@.len(),
        res.back@.len() == res.records@.len(),
        forall|i: int|
            0 <= i < res.records@.len() ==> (#[trigger] res.utf8@[i])@ == utf8_of_all(
                string_views(res.records@[i]@),
            ) && string_views(res.back@[i]@) == decoded_pieces(res.utf8@[i]@),
{
    let parsed = parse_csv(bytes);
    let CsvRows { header: _, records, error } = parsed;
    let mut utf8: Vec<Vec<u8>> = Vec::new();
    let mut back: Vec<Vec<String>> = Vec::new();
    let mut i: usize = 0;
    while i < records.len()
        invariant
            i <= records@.len(),
            utf8@.len() == i,
            back@.len() == i,
            forall|k: int|
                0 <= k < i ==> (#[trigger] utf8@[k])@ == utf8_of_all(string_views(records@[k]@))
                    && string_views(back@[k]@) == decoded_pieces(utf8@[k]@),
        decreases records@.len() - i,
    {
        let bytes_row = convert_to_utf8(records[i].as_slice());
        let text_row = convert_to_string(bytes_row.as_slice());
        utf8.push(bytes_row);
        back.push(text_row);
        i = i + 1;
    }
    ReadBack { records, utf8, back, error }
}

} // verus!
