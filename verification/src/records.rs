//! Turning CSV records into a matrix of byte values: each record becomes the UTF-8
//! bytes of its fields joined by commas, padded with `|` to a common width.

use crate::codec::{string_views, utf8_of_all};
use crate::seqs::{concat_all, lemma_concat_all_push, lemma_split_on_add, lemma_split_on_free, split_on};
use crate::utf8_lemmas::{encode_all, lemma_encode_add, lemma_encode_push};
use vstd::prelude::*;
use vstd::utf8::*;

verus! {

/// The byte value of `|`, used to pad rows.
pub const PAD_BYTE: u64 = 124;

/// The fields of a record joined by commas.
pub open spec fn join_commas(fields: Seq<Seq<char>>) -> Seq<char>
    decreases fields.len(),
{
    if fields.len() == 0 {
        Seq::empty()
    } else if fields.len() == 1 {
        fields[0]
    } else {
        join_commas(fields.drop_last()) + seq![','] + fields.last()
    }
}

/// Each byte as a `u64`.
pub open spec fn widen(bytes: Seq<u8>) -> Seq<u64> {
    Seq::new(bytes.len(), |i: int| bytes[i] as u64)
}

/// The byte values of a record: the UTF-8 encoding of its fields joined by commas.
pub open spec fn record_bytes(fields: Seq<Seq<char>>) -> Seq<u64> {
    widen(encode_utf8(join_commas(fields)))
}

/// The length of a record's byte row.
pub open spec fn record_len(fields: Seq<Seq<char>>) -> nat {
    encode_utf8(join_commas(fields)).len()
}

/// `n` copies of the padding byte.
pub open spec fn padding(n: int) -> Seq<u64> {
    Seq::new(if n > 0 { n as nat } else { 0 }, |i: int| PAD_BYTE)
}

/// A record's byte row padded with `|` up to `width` (rows already as long stay as they are).
pub open spec fn padded_record(fields: Seq<Seq<char>>, width: int) -> Seq<u64> {
    record_bytes(fields) + padding(width - record_len(fields))
}

/// The texts of each record's fields.
pub open spec fn record_views(rows: Seq<Vec<String>>) -> Seq<Seq<Seq<char>>> {
    Seq::new(rows.len(), |i: int| string_views(rows[i]@))
}

/// The padded byte rows of all records.
pub open spec fn padded_rows(rows: Seq<Seq<Seq<char>>>, width: int) -> Seq<Seq<u64>> {
    Seq::new(rows.len(), |i: int| padded_record(rows[i], width))
}

/// The largest record length among `rows`, or 0 when there are none.
pub open spec fn max_record_len(rows: Seq<Seq<Seq<char>>>) -> nat
    decreases rows.len(),
{
    if rows.len() == 0 {
        0
    } else {
        let m = max_record_len(rows.drop_last());
        let l = record_len(rows.last());
        if l > m {
            l
        } else {
            m
        }
    }
}

/// A matrix of byte values stored row after row.
pub struct TextMatrix {
    pub nrows: usize,
    pub ncols: usize,
    pub data: Vec<u64>,
}

/// The UTF-8 bytes of a record's fields joined by commas, each byte as a `u64`.
pub fn record_to_utf8(strings: &[String]) -> (values: Vec<u64>)
    ensures
        values@ == record_bytes(string_views(strings@)),
{
    let ghost fields = string_views(strings@);
    let n = strings.len();
    let mut values: Vec<u64> = Vec::new();
    let mut i: usize = 0;
    while i < n
        invariant
            n == strings@.len(),
            fields == string_views(strings@),
            i <= n,
            values@ == widen(encode_utf8(join_commas(fields.take(i as int)))) + (if 0 < i < n {
                seq![44u64]
            } else {
                Seq::<u64>::empty()
            }),
        decreases n - i,
    {
        let bytes = strings[i].as_str().as_bytes();
        let ghost before = values@;
        let mut j: usize = 0;
        while j < bytes.len()
            invariant
                j <= bytes@.len(),
                values@ == before + widen(bytes@.take(j as int)),
            decreases bytes@.len() - j,
        {
            values.push(bytes[j] as u64);
            j = j + 1;
            assert(values@ =~= before + widen(bytes@.take(j as int)));
        }
        assert(bytes@.take(bytes@.len() as int) =~= bytes@);
        proof {
            let f = fields.take(i as int);
            let g = fields.take(i + 1);
            assert(g.drop_last() =~= f);
            assert(g.last() == strings@[i as int]@);
            assert(bytes@ == encode_utf8(strings@[i as int]@));
            if i == 0 {
                assert(g =~= seq![strings@[i as int]@]);
                assert(join_commas(g) == strings@[i as int]@);
                assert(join_commas(f) =~= Seq::<char>::empty());
                assert(encode_utf8(Seq::<char>::empty()) =~= Seq::<u8>::empty());
                assert(values@ =~= widen(encode_utf8(join_commas(g))));
            } else {
                assert(join_commas(g) == join_commas(f) + seq![','] + strings@[i as int]@);
                lemma_encode_add(join_commas(f) + seq![','], strings@[i as int]@);
                lemma_encode_push(join_commas(f), ',');
                assert(join_commas(f) + seq![','] =~= join_commas(f).push(','));
                assert(encode_scalar(',' as u32) =~= seq![44u8]) by {
                    assert((44u32 & 0x7F) == 44u32) by (bit_vector);
                }
                assert(values@ =~= widen(encode_utf8(join_commas(g))));
            }
        }
        if i + 1 < n {
            values.push(44);
        }
        i = i + 1;
    }
    assert(fields.take(n as int) =~= fields);
    values
}

/// The number of UTF-8 bytes in a record's fields joined by commas.
pub fn string_array_to_utf8_array(strings: &[String]) -> (len: usize)
    ensures
        len == record_len(string_views(strings@)),
{
    let values = record_to_utf8(strings);
    values.len()
}

/// A record's byte row, padded with `|` (124) up to `max_length`.
pub fn utf8_array_pad_to_max_length(strings: &[String], max_length: usize) -> (values: Vec<u64>)
    ensures
        values@ == padded_record(string_views(strings@), max_length as int),
{
    let mut values = record_to_utf8(strings);
    let ghost base = values@;
    while values.len() < max_length
        invariant
            base.len() <= values@.len(),
            values@.len() == base.len() || values@.len() <= max_length,
            values@ == base + padding(values@.len() - base.len()),
        decreases max_length - values@.len(),
    {
        values.push(PAD_BYTE);
        assert(values@ =~= base + padding(values@.len() - base.len()));
    }
    assert(values@ =~= base + padding(max_length - base.len()));
    values
}

/// The length of the longest record among `rows` (the header included, as the first row).
pub fn find_max_row_length(rows: &[Vec<String>]) -> (max: usize)
    ensures
        max == max_record_len(record_views(rows@)),
{
    let mut max: usize = 0;
    let mut i: usize = 0;
    while i < rows.len()
        invariant
            i <= rows@.len(),
            max == max_record_len(record_views(rows@).take(i as int)),
        decreases rows@.len() - i,
    {
        let len = string_array_to_utf8_array(rows[i].as_slice());
        proof {
            assert(record_views(rows@).take(i + 1).drop_last() =~= record_views(rows@).take(i as int));
            assert(record_views(rows@).take(i + 1).last() == string_views(rows@[i as int]@));
        }
        if len > max {
            max = len;
        }
        i = i + 1;
    }
    assert(record_views(rows@).take(rows@.len() as int) =~= record_views(rows@));
    max
}

/// Builds the byte matrix of `rows` (header first), each row padded with `|` up to
/// `max_row_length`; the matrix has as many columns as the first padded row.
pub fn fart(rows: &[Vec<String>], max_row_length: usize) -> (matrix: TextMatrix)
    requires
        rows@.len() >= 1,
        concat_all(padded_rows(record_views(rows@), max_row_length as int)).len() == rows@.len()
            * padded_record(record_views(rows@)[0], max_row_length as int).len(),
    ensures
        matrix.nrows == rows@.len(),
        matrix.ncols == padded_record(record_views(rows@)[0], max_row_length as int).len(),
        matrix.data@ == concat_all(padded_rows(record_views(rows@), max_row_length as int)),
{
    let ghost all = padded_rows(record_views(rows@), max_row_length as int);
    let first = utf8_array_pad_to_max_length(rows[0].as_slice(), max_row_length);
    let ncols = first.len();
    let mut data: Vec<u64> = Vec::new();
    let mut i: usize = 0;
    while i < rows.len()
        invariant
            i <= rows@.len(),
            all == padded_rows(record_views(rows@), max_row_length as int),
            data@ == concat_all(all.take(i as int)),
        decreases rows@.len() - i,
    {
        let row = utf8_array_pad_to_max_length(rows[i].as_slice(), max_row_length);
        let ghost before = data@;
        let mut j: usize = 0;
        while j < row.len()
            invariant
                j <= row@.len(),
                data@ == before + row@.take(j as int),
            decreases row@.len() - j,
        {
            data.push(row[j]);
            j = j + 1;
            assert(data@ =~= before + row@.take(j as int));
        }
        proof {
            assert(row@.take(row@.len() as int) =~= row@);
            assert(all.take(i + 1) =~= all.take(i as int).push(all[i as int]));
            lemma_concat_all_push(all.take(i as int), all[i as int]);
        }
        i = i + 1;
    }
    assert(all.take(rows@.len() as int) =~= all);
    TextMatrix { nrows: rows.len(), ncols, data }
}

/// No record is longer than `max_record_len`.
pub proof fn lemma_max_record_len_bounds(rows: Seq<Seq<Seq<char>>>)
    ensures
        forall|i: int| 0 <= i < rows.len() ==> #[trigger] record_len(rows[i]) <= max_record_len(rows),
    decreases rows.len(),
{
    if rows.len() > 0 {
        lemma_max_record_len_bounds(rows.drop_last());
        assert forall|i: int| 0 <= i < rows.len() implies #[trigger] record_len(rows[i])
            <= max_record_len(rows) by {
            if i < rows.len() - 1 {
                assert(rows[i] == rows.drop_last()[i]);
            }
        }
    }
}

/// Pieces that all have length `m` lay end to end into `count * m` elements.
proof fn lemma_concat_uniform_len(parts: Seq<Seq<u64>>, m: nat)
    requires
        forall|i: int| 0 <= i < parts.len() ==> #[trigger] parts[i].len() == m,
    ensures
        concat_all(parts).len() == parts.len() * m,
    decreases parts.len(),
{
    if parts.len() > 0 {
        let p = parts.drop_last();
        assert forall|i: int| 0 <= i < p.len() implies #[trigger] p[i].len() == m by {
            assert(p[i] == parts[i]);
        }
        lemma_concat_uniform_len(p, m);
        assert(parts.last() == parts[parts.len() - 1]);
        assert((p.len() + 1) * m == p.len() * m + m) by (nonlinear_arith);
    }
}

/// In pieces that all have length `m`, laid end to end, piece `r` fills positions
/// `r * m` up to `(r + 1) * m`.
proof fn lemma_concat_uniform_piece(parts: Seq<Seq<u64>>, m: nat, r: int)
    requires
        forall|i: int| 0 <= i < parts.len() ==> #[trigger] parts[i].len() == m,
        0 <= r < parts.len(),
    ensures
        concat_all(parts).subrange(r * m, (r + 1) * m) == parts[r],
    decreases parts.len(),
{
    let p = parts.drop_last();
    assert forall|i: int| 0 <= i < p.len() implies #[trigger] p[i].len() == m by {
        assert(p[i] == parts[i]);
    }
    lemma_concat_uniform_len(p, m);
    lemma_concat_uniform_len(parts, m);
    let c = concat_all(parts);
    assert(c == concat_all(p) + parts.last());
    assert(parts.last() == parts[parts.len() - 1]);
    if r < parts.len() - 1 {
        lemma_concat_uniform_piece(p, m, r);
        assert((r + 1) * m <= p.len() * m) by (nonlinear_arith)
            requires
                r + 1 <= p.len(),
        ;
        assert(0 <= r * m) by (nonlinear_arith)
            requires
                0 <= r,
        ;
        assert(r * m <= (r + 1) * m) by (nonlinear_arith);
        assert(c.subrange(r * m, (r + 1) * m) =~= concat_all(p).subrange(r * m, (r + 1) * m));
        assert(p[r] == parts[r]);
    } else {
        assert(r * m == p.len() * m);
        assert((r + 1) * m == p.len() * m + m) by (nonlinear_arith)
            requires
                r == p.len(),
        ;
        assert(c.subrange(r * m, (r + 1) * m) =~= parts.last());
    }
}

/// Padding every record to a width at least as large as the longest record (the one
/// `find_max_row_length` computes, or more) gives rows of exactly that width, so `fart`
/// accepts the width, the matrix has that many columns, and row `r` of its data is
/// record `r` padded.
pub proof fn lemma_rows_at_width(rows: Seq<Seq<Seq<char>>>, width: int)
    requires
        rows.len() >= 1,
        width >= max_record_len(rows),
    ensures
        forall|i: int|
            0 <= i < rows.len() ==> (#[trigger] padded_record(rows[i], width)).len() == width,
        concat_all(padded_rows(rows, width)).len() == rows.len() * padded_record(
            rows[0],
            width,
        ).len(),
        forall|r: int|
            0 <= r < rows.len() ==> concat_all(padded_rows(rows, width)).subrange(
                r * width,
                (r + 1) * width,
            ) == #[trigger] padded_record(rows[r], width),
{
    let w = width as nat;
    lemma_max_record_len_bounds(rows);
    assert forall|i: int| 0 <= i < rows.len() implies (#[trigger] padded_record(
        rows[i],
        width,
    )).len() == width by {
        assert(record_len(rows[i]) <= width);
    }
    let parts = padded_rows(rows, width);
    assert forall|i: int| 0 <= i < parts.len() implies #[trigger] parts[i].len() == w by {
        assert(parts[i] == padded_record(rows[i], width));
    }
    lemma_concat_uniform_len(parts, w);
    assert(padded_record(rows[0], width).len() == width);
    assert forall|r: int| 0 <= r < rows.len() implies concat_all(parts).subrange(
        r * width,
        (r + 1) * width,
    ) == #[trigger] padded_record(rows[r], width) by {
        lemma_concat_uniform_piece(parts, w, r);
        assert(parts[r] == padded_record(rows[r], width));
    }
}

/// Splitting a joined record at its commas gives back its fields, empty ones included,
/// provided no field holds a comma itself: one comma stands between every two fields.
pub proof fn lemma_join_commas_splits_back(fields: Seq<Seq<char>>)
    requires
        fields.len() >= 1,
        forall|i: int| 0 <= i < fields.len() ==> !(#[trigger] fields[i]).contains(','),
    ensures
        split_on(join_commas(fields), ',') == fields,
    decreases fields.len(),
{
    if fields.len() == 1 {
        lemma_split_on_free(fields[0], ',');
        assert(fields =~= seq![fields[0]]);
    } else {
        let fs = fields.drop_last();
        let f = fields.last();
        assert forall|i: int| 0 <= i < fs.len() implies !(#[trigger] fs[i]).contains(',') by {
            assert(fs[i] == fields[i]);
        }
        lemma_join_commas_splits_back(fs);
        let x = join_commas(fs);
        assert(!f.contains(',')) by {
            assert(f == fields[fields.len() - 1]);
        }
        assert(join_commas(fields) == x + seq![','] + f);
        lemma_split_on_add(x + seq![','], f, ',');
        lemma_split_on_free(f, ',');
        assert((x + seq![',']).drop_last() =~= x);
        assert((x + seq![',']).last() == ',');
        assert(split_on(x + seq![','], ',') == fs.push(Seq::empty()));
        assert(Seq::<char>::empty() + f =~= f);
        assert(seq![f].drop_first() =~= Seq::<Seq<char>>::empty());
        assert(split_on(join_commas(fields), ',') =~= fields);
    }
}

/// A record's byte row has the bytes of all its fields plus one comma between every two
/// fields: `fields.len() - 1` commas, whatever the fields hold.
pub proof fn lemma_record_len(fields: Seq<Seq<char>>)
    requires
        fields.len() >= 1,
    ensures
        record_len(fields) == utf8_of_all(fields).len() + fields.len() - 1,
        join_commas(fields).len() == concat_all(fields).len() + fields.len() - 1,
    decreases fields.len(),
{
    if fields.len() == 1 {
        assert(fields =~= seq![fields[0]]);
        assert(fields.drop_last() =~= Seq::<Seq<char>>::empty());
        assert(concat_all(fields.drop_last()) =~= Seq::<char>::empty());
        assert(encode_all(fields).drop_last() =~= Seq::<Seq<u8>>::empty());
        assert(concat_all(encode_all(fields).drop_last()) =~= Seq::<u8>::empty());
        assert(encode_all(fields).last() == encode_utf8(fields[0]));
    } else {
        let fs = fields.drop_last();
        let f = fields.last();
        lemma_record_len(fs);
        let x = join_commas(fs);
        assert(join_commas(fields) == x + seq![','] + f);
        lemma_encode_add(x + seq![','], f);
        lemma_encode_push(x, ',');
        assert(x + seq![','] =~= x.push(','));
        assert(encode_scalar(',' as u32) =~= seq![44u8]) by {
            assert((44u32 & 0x7F) == 44u32) by (bit_vector);
        }
        assert(encode_all(fields).drop_last() =~= encode_all(fs));
        assert(encode_all(fields).last() == encode_utf8(f));
    }
}

} // verus!
