//! Conversion of a row of text fields to its UTF-8 bytes and back to text.

use crate::seqs::{
    concat_all, lemma_concat_all_push, lemma_concat_split_on, lemma_remove_all_absent,
    lemma_remove_all_free, lemma_split_on_free, lemma_split_on_pieces_free, lemma_split_on_step,
    remove_all, split_on,
};
use crate::utf8_lemmas::{decode_all, encode_all, lemma_encode_add, lemma_split_encoding};
use vstd::prelude::*;
use vstd::utf8::*;

verus! {

/// The texts held by a sequence of `String`s.
pub open spec fn string_views(v: Seq<String>) -> Seq<Seq<char>> {
    Seq::new(v.len(), |i: int| v[i]@)
}

/// The UTF-8 encodings of `texts`, laid end to end.
pub open spec fn utf8_of_all(texts: Seq<Seq<char>>) -> Seq<u8> {
    concat_all(encode_all(texts))
}

/// The byte sequences held by a sequence of `Vec<u8>`s.
pub open spec fn chunk_views(v: Seq<Vec<u8>>) -> Seq<Seq<u8>> {
    Seq::new(v.len(), |i: int| v[i]@)
}

/// `utf8_lossy` of each chunk.
pub open spec fn lossy_all(chunks: Seq<Seq<u8>>) -> Seq<Seq<char>> {
    Seq::new(chunks.len(), |i: int| utf8_lossy(chunks[i]))
}

/// `trimmed` of each piece.
pub open spec fn trim_all(pieces: Seq<Seq<char>>) -> Seq<Seq<char>> {
    Seq::new(pieces.len(), |i: int| trimmed(pieces[i]))
}

/// The byte value of `,`.
pub const COMMA_BYTE: u8 = 44;

/// Unicode `White_Space`, the property `char::is_whitespace` and `str::trim` go by.
pub open spec fn is_white_space(c: char) -> bool {
    let v = c as u32;
    ||| 0x9 <= v <= 0xD
    ||| v == 0x20
    ||| v == 0x85
    ||| v == 0xA0
    ||| v == 0x1680
    ||| 0x2000 <= v <= 0x200A
    ||| v == 0x2028
    ||| v == 0x2029
    ||| v == 0x202F
    ||| v == 0x205F
    ||| v == 0x3000
}

/// `s` without its leading white space.
pub open spec fn trim_start(s: Seq<char>) -> Seq<char>
    decreases s.len(),
{
    if s.len() > 0 && is_white_space(s[0]) {
        trim_start(s.drop_first())
    } else {
        s
    }
}

/// `s` without its trailing white space.
pub open spec fn trim_end(s: Seq<char>) -> Seq<char>
    decreases s.len(),
{
    if s.len() > 0 && is_white_space(s.last()) {
        trim_end(s.drop_last())
    } else {
        s
    }
}

/// `s` without leading and trailing white space.
pub open spec fn trimmed(s: Seq<char>) -> Seq<char> {
    trim_end(trim_start(s))
}

/// What `String::from_utf8_lossy` makes of `bytes`.
pub uninterp spec fn utf8_lossy(bytes: Seq<u8>) -> Seq<char>;

/// Calls `String::from_utf8_lossy`. Claimed: the text is `utf8_lossy` of the bytes; for
/// valid UTF-8 it is the decoded text; and since only invalid sequences are replaced (by
/// U+FFFD), a `,` in the text comes from a 0x2C byte.
#[verifier::external_body]
fn from_utf8_lossy(bytes: &[u8]) -> (s: String)
    ensures
        s@ == utf8_lossy(bytes@),
        valid_utf8(bytes@) ==> s@ == decode_utf8(bytes@),
        !bytes@.contains(COMMA_BYTE) ==> !s@.contains(','),
{
    String::from_utf8_lossy(bytes).into_owned()
}

/// Whether `c` has the Unicode `White_Space` property.
fn is_white_space_char(c: char) -> (b: bool)
    ensures
        b == is_white_space(c),
{
    let v = c as u32;
    (0x9 <= v && v <= 0xD) || v == 0x20 || v == 0x85 || v == 0xA0 || v == 0x1680 || (0x2000 <= v
        && v <= 0x200A) || v == 0x2028 || v == 0x2029 || v == 0x202F || v == 0x205F || v == 0x3000
}

/// `s` without leading and trailing white space, as `str::trim` gives it.
fn trim(s: &str) -> (t: String)
    ensures
        t@ == trimmed(s@),
{
    let n = s.unicode_len();
    let mut start: usize = 0;
    assert(s@.subrange(0, n as int) =~= s@);
    while start < n && is_white_space_char(s.get_char(start))
        invariant
            n == s@.len(),
            start <= n,
            trim_start(s@) == trim_start(s@.subrange(start as int, n as int)),
        decreases n - start,
    {
        proof {
            let sub = s@.subrange(start as int, n as int);
            assert(sub[0] == s@[start as int]);
            assert(sub.drop_first() =~= s@.subrange(start + 1, n as int));
        }
        start = start + 1;
    }
    proof {
        let sub = s@.subrange(start as int, n as int);
        if start < n {
            assert(sub[0] == s@[start as int]);
        }
        assert(trim_start(sub) == sub);
    }
    let mut end: usize = n;
    while end > start && is_white_space_char(s.get_char(end - 1))
        invariant
            n == s@.len(),
            start <= end <= n,
            trim_end(s@.subrange(start as int, n as int)) == trim_end(
                s@.subrange(start as int, end as int),
            ),
        decreases end - start,
    {
        proof {
            let sub = s@.subrange(start as int, end as int);
            assert(sub.last() == s@[end - 1]);
            assert(sub.drop_last() =~= s@.subrange(start as int, end - 1));
        }
        end = end - 1;
    }
    proof {
        let sub = s@.subrange(start as int, end as int);
        if end > start {
            assert(sub.last() == s@[end - 1]);
        }
        assert(trim_end(sub) == sub);
    }
    String::from_str(s.substring_char(start, end))
}

/// `trim_start` leaves nothing or a sequence that starts with a non-white-space character.
proof fn lemma_trim_start_shape(s: Seq<char>)
    ensures
        trim_start(s).len() == 0 || !is_white_space(trim_start(s)[0]),
    decreases s.len(),
{
    if s.len() > 0 && is_white_space(s[0]) {
        lemma_trim_start_shape(s.drop_first());
    }
}

/// `trim_end` leaves a prefix of `s` that is empty or ends with a non-white-space character.
proof fn lemma_trim_end_shape(s: Seq<char>)
    ensures
        trim_end(s).len() <= s.len(),
        trim_end(s) == s.take(trim_end(s).len() as int),
        trim_end(s).len() == 0 || !is_white_space(trim_end(s).last()),
    decreases s.len(),
{
    if s.len() > 0 && is_white_space(s.last()) {
        lemma_trim_end_shape(s.drop_last());
        let t = trim_end(s.drop_last());
        assert(s.drop_last().take(t.len() as int) =~= s.take(t.len() as int));
    } else {
        assert(s.take(s.len() as int) =~= s);
    }
}

/// Trimming twice is trimming once.
pub proof fn lemma_trimmed_idempotent(s: Seq<char>)
    ensures
        trimmed(trimmed(s)) == trimmed(s),
{
    let u = trim_start(s);
    let t = trim_end(u);
    lemma_trim_start_shape(s);
    lemma_trim_end_shape(u);
    if t.len() > 0 {
        assert(t[0] == u[0]);
        assert(trim_start(t) == t);
        assert(t.last() == t[t.len() - 1]);
        assert(trim_end(t) == t);
    } else {
        assert(trim_start(t) == t);
        assert(trim_end(t) == t);
    }
}

/// Trimming keeps out what the text lacks.
pub proof fn lemma_trimmed_free(s: Seq<char>, c: char)
    requires
        !s.contains(c),
    ensures
        !trimmed(s).contains(c),
{
    let u = trim_start(s);
    lemma_trim_start_free(s, c);
    lemma_trim_end_shape(u);
    let t = trim_end(u);
    if t.contains(c) {
        let k = choose|k: int| 0 <= k < t.len() && t[k] == c;
        assert(u[k] == c);
    }
}

/// `trim_start` keeps out what the text lacks.
proof fn lemma_trim_start_free(s: Seq<char>, c: char)
    requires
        !s.contains(c),
    ensures
        !trim_start(s).contains(c),
    decreases s.len(),
{
    if s.len() > 0 && is_white_space(s[0]) {
        assert(!s.drop_first().contains(c)) by {
            if s.drop_first().contains(c) {
                let k = choose|k: int| 0 <= k < s.drop_first().len() && s.drop_first()[k] == c;
                assert(s[k + 1] == c);
            }
        }
        lemma_trim_start_free(s.drop_first(), c);
    }
}

/// The texts `convert_to_string` gives for `bytes`: the bytes are split at commas, each
/// chunk is decoded leniently, the decoded chunks are joined, the result is split at
/// `,` and each piece is trimmed.
pub open spec fn decoded_pieces(bytes: Seq<u8>) -> Seq<Seq<char>> {
    trim_all(split_on(concat_all(lossy_all(split_on(bytes, COMMA_BYTE))), ','))
}

/// The UTF-8 bytes of all `strings`, laid end to end.
pub fn convert_to_utf8(strings: &[String]) -> (res: Vec<u8>)
    ensures
        res@ == utf8_of_all(string_views(strings@)),
{
    let mut out: Vec<u8> = Vec::new();
    let mut i: usize = 0;
    while i < strings.len()
        invariant
            i <= strings@.len(),
            out@ == utf8_of_all(string_views(strings@.take(i as int))),
        decreases strings@.len() - i,
    {
        let bytes = strings[i].as_str().as_bytes();
        let ghost before = out@;
        let mut j: usize = 0;
        while j < bytes.len()
            invariant
                j <= bytes@.len(),
                out@ == before + bytes@.take(j as int),
            decreases bytes@.len() - j,
        {
            out.push(bytes[j]);
            j = j + 1;
            assert(out@ =~= before + bytes@.take(j as int));
        }
        proof {
            let ts = string_views(strings@.take(i as int));
            assert(string_views(strings@.take(i + 1)) =~= ts.push(strings@[i as int]@));
            assert(encode_all(ts.push(strings@[i as int]@)) =~= encode_all(ts).push(
                encode_utf8(strings@[i as int]@),
            ));
            lemma_concat_all_push(encode_all(ts), encode_utf8(strings@[i as int]@));
            assert(bytes@.take(bytes@.len() as int) =~= bytes@);
        }
        i = i + 1;
    }
    assert(strings@.take(strings@.len() as int) =~= strings@);
    out
}

/// Splits `bytes` at every comma byte into its chunks.
fn split_at_commas(bytes: &[u8]) -> (chunks: Vec<Vec<u8>>)
    ensures
        chunk_views(chunks@) == split_on(bytes@, COMMA_BYTE),
{
    let mut done: Vec<Vec<u8>> = Vec::new();
    let mut current: Vec<u8> = Vec::new();
    let mut i: usize = 0;
    while i < bytes.len()
        invariant
            i <= bytes@.len(),
            chunk_views(done@).push(current@) == split_on(bytes@.take(i as int), COMMA_BYTE),
        decreases bytes@.len() - i,
    {
        proof {
            lemma_split_on_step(bytes@, COMMA_BYTE, i as int);
        }
        let ghost prev = chunk_views(done@).push(current@);
        let b = bytes[i];
        if b == COMMA_BYTE {
            let finished = current;
            current = Vec::new();
            done.push(finished);
            assert(chunk_views(done@).push(current@) =~= prev.push(Seq::empty()));
        } else {
            current.push(b);
            assert(chunk_views(done@).push(current@) =~= prev.update(
                prev.len() - 1,
                prev.last().push(b),
            ));
        }
        i = i + 1;
    }
    assert(bytes@.take(bytes@.len() as int) =~= bytes@);
    done.push(current);
    assert(chunk_views(done@) =~= split_on(bytes@, COMMA_BYTE));
    done
}

/// Decodes each chunk leniently and joins the texts; where every chunk is valid UTF-8
/// this is the plain decoding of each chunk.
fn decode_and_join(chunks: &Vec<Vec<u8>>) -> (joined: String)
    ensures
        joined@ == concat_all(lossy_all(chunk_views(chunks@))),
        (forall|k: int| 0 <= k < chunks@.len() ==> valid_utf8(#[trigger] chunks@[k]@)) ==> joined@
            == concat_all(decode_all(chunk_views(chunks@))),
        (forall|k: int| 0 <= k < chunks@.len() ==> !(#[trigger] chunks@[k]@).contains(COMMA_BYTE))
            ==> !joined@.contains(','),
{
    let ghost views = chunk_views(chunks@);
    let mut joined = String::new();
    let mut k: usize = 0;
    while k < chunks.len()
        invariant
            k <= chunks@.len(),
            views == chunk_views(chunks@),
            joined@ == concat_all(lossy_all(views.take(k as int))),
            (forall|j: int| 0 <= j < k ==> valid_utf8(#[trigger] views[j])) ==> joined@
                == concat_all(decode_all(views.take(k as int))),
            (forall|j: int| 0 <= j < k ==> !(#[trigger] views[j]).contains(COMMA_BYTE))
                ==> !joined@.contains(','),
        decreases chunks@.len() - k,
    {
        let piece = from_utf8_lossy(chunks[k].as_slice());
        let ghost before = joined@;
        joined.append(piece.as_str());
        proof {
            let t = views.take(k + 1);
            assert(t =~= views.take(k as int).push(views[k as int]));
            assert(lossy_all(t) =~= lossy_all(views.take(k as int)).push(utf8_lossy(views[k as int])));
            assert(decode_all(t) =~= decode_all(views.take(k as int)).push(decode_utf8(views[k as int])));
            lemma_concat_all_push(lossy_all(views.take(k as int)), utf8_lossy(views[k as int]));
            lemma_concat_all_push(decode_all(views.take(k as int)), decode_utf8(views[k as int]));
            if forall|j: int| 0 <= j < k + 1 ==> !(#[trigger] views[j]).contains(COMMA_BYTE) {
                assert(!views[k as int].contains(COMMA_BYTE));
                assert(!before.contains(','));
                assert(!piece@.contains(','));
                assert(joined@ == before + piece@);
                if joined@.contains(',') {
                    let i = choose|i: int| 0 <= i < joined@.len() && joined@[i] == ',';
                    if i < before.len() {
                        assert(before[i] == ',');
                    } else {
                        assert(piece@[i - before.len()] == ',');
                    }
                }
            }
        }
        k = k + 1;
    }
    assert(views.take(chunks@.len() as int) =~= views);
    joined
}

/// Splits `text` at every `,` and trims each piece.
fn split_and_trim(text: &String) -> (pieces: Vec<String>)
    ensures
        string_views(pieces@) == trim_all(split_on(text@, ',')),
{
    let s = text.as_str();
    let n = s.unicode_len();
    let mut pieces: Vec<String> = Vec::new();
    let mut start: usize = 0;
    let mut i: usize = 0;
    while i < n
        invariant
            s@ == text@,
            n == s@.len(),
            start <= i <= n,
            split_on(s@.take(i as int), ',').len() == pieces@.len() + 1,
            forall|j: int|
                0 <= j < pieces@.len() ==> #[trigger] pieces@[j]@ == trimmed(
                    split_on(s@.take(i as int), ',')[j],
                ),
            split_on(s@.take(i as int), ',').last() == s@.subrange(start as int, i as int),
        decreases n - i,
    {
        proof {
            lemma_split_on_step(s@, ',', i as int);
        }
        let c = s.get_char(i);
        if c == ',' {
            let piece = trim(s.substring_char(start, i));
            pieces.push(piece);
            start = i + 1;
            assert(s@.subrange(start as int, i + 1) =~= Seq::<char>::empty());
        } else {
            assert(s@.subrange(start as int, i + 1) =~= s@.subrange(start as int, i as int).push(c));
        }
        i = i + 1;
    }
    let last = trim(s.substring_char(start, n));
    pieces.push(last);
    assert(s@.take(n as int) =~= s@);
    assert(string_views(pieces@) =~= trim_all(split_on(text@, ',')));
    pieces
}

/// Encoding a sequence of texts one after another is encoding their concatenation.
pub proof fn lemma_utf8_of_all_is_encoding(texts: Seq<Seq<char>>)
    ensures
        utf8_of_all(texts) == encode_utf8(concat_all(texts)),
    decreases texts.len(),
{
    if texts.len() == 0 {
        assert(encode_all(texts) =~= Seq::<Seq<u8>>::empty());
        assert(concat_all(texts) =~= Seq::<char>::empty());
        assert(encode_utf8(Seq::<char>::empty()) =~= Seq::<u8>::empty());
    } else {
        lemma_utf8_of_all_is_encoding(texts.drop_last());
        assert(encode_all(texts).drop_last() =~= encode_all(texts.drop_last()));
        lemma_encode_add(concat_all(texts.drop_last()), texts.last());
    }
}

/// The bytes `convert_to_utf8` produces are valid UTF-8 and decode to the fields' texts
/// joined without separator.
pub proof fn lemma_utf8_round_trip(texts: Seq<Seq<char>>)
    ensures
        valid_utf8(utf8_of_all(texts)),
        decode_utf8(utf8_of_all(texts)) == concat_all(texts),
{
    broadcast use encode_utf8_valid_utf8, encode_utf8_decode_utf8;

    lemma_utf8_of_all_is_encoding(texts);
}

/// Turns UTF-8 bytes back into text: the bytes are split at commas, each chunk is decoded
/// (invalid sequences become U+FFFD), the texts are joined, and the result is split at
/// `,` into trimmed pieces. Commas only ever separate chunks, so for valid UTF-8 the
/// result is the single decoded text without its commas, trimmed.
pub fn convert_to_string(utf8_values: &[u8]) -> (res: Vec<String>)
    ensures
        string_views(res@) == decoded_pieces(utf8_values@),
        res@.len() == 1,
        !res@[0]@.contains(','),
        trimmed(res@[0]@) == res@[0]@,
        valid_utf8(utf8_values@) ==> string_views(res@) == seq![
            trimmed(remove_all(decode_utf8(utf8_values@), ',')),
        ],
{
    let chunks = split_at_commas(utf8_values);
    proof {
        lemma_split_on_pieces_free(utf8_values@, COMMA_BYTE);
        assert forall|k: int| 0 <= k < chunks@.len() implies !(#[trigger] chunks@[k]@).contains(
            COMMA_BYTE,
        ) by {
            assert(chunks@[k]@ == chunk_views(chunks@)[k]);
        }
    }
    let joined = decode_and_join(&chunks);
    proof {
        lemma_split_on_free(joined@, ',');
        assert(trim_all(seq![joined@]) =~= seq![trimmed(joined@)]);
        lemma_trimmed_free(joined@, ',');
        lemma_trimmed_idempotent(joined@);
    }
    proof {
        if valid_utf8(utf8_values@) {
            broadcast use encode_utf8_valid_utf8, encode_utf8_decode_utf8, decode_utf8_encode_utf8;

            let text = decode_utf8(utf8_values@);
            let parts = split_on(text, ',');
            lemma_split_encoding(text);
            assert(chunk_views(chunks@) == encode_all(parts));
            assert forall|k: int| 0 <= k < chunks@.len() implies valid_utf8(#[trigger] chunks@[k]@) by {
                assert(chunks@[k]@ == chunk_views(chunks@)[k]);
                assert(chunks@[k]@ == encode_utf8(parts[k]));
            }
            assert(decode_all(chunk_views(chunks@)) =~= parts);
            lemma_concat_split_on(text, ',');
            lemma_remove_all_free(text, ',');
            lemma_split_on_free(remove_all(text, ','), ',');
            assert(trim_all(seq![remove_all(text, ',')]) =~= seq![trimmed(remove_all(text, ','))]);
        }
    }
    let res = split_and_trim(&joined);
    assert(res@[0]@ == string_views(res@)[0]);
    res
}

/// Reading back the text `convert_to_string` gives changes nothing: that text is a single
/// comma-free, trimmed piece, and such a text, as UTF-8, converts to itself.
pub proof fn lemma_read_back_fixed_point(t: Seq<char>)
    requires
        !t.contains(','),
        trimmed(t) == t,
    ensures
        valid_utf8(encode_utf8(t)),
        seq![trimmed(remove_all(decode_utf8(encode_utf8(t)), ','))] == seq![t],
{
    broadcast use encode_utf8_valid_utf8, encode_utf8_decode_utf8;

    lemma_remove_all_absent(t, ',');
}

/// `trim_start` of a sequence with one more character at the end: the character is kept
/// when something non-white is left before it.
proof fn lemma_trim_start_push(s: Seq<char>, c: char)
    ensures
        trim_start(s.push(c)) == (if trim_start(s).len() > 0 {
            trim_start(s).push(c)
        } else {
            trim_start(seq![c])
        }),
    decreases s.len(),
{
    if s.len() == 0 {
        assert(s.push(c) =~= seq![c]);
        assert(trim_start(s) == s);
    } else {
        assert(s.push(c)[0] == s[0]);
        assert(s.push(c).drop_first() =~= s.drop_first().push(c));
        if is_white_space(s[0]) {
            lemma_trim_start_push(s.drop_first(), c);
        }
    }
}

/// `str::trim` removes these characters, the ones with the Unicode `White_Space` property,
/// at either end: a text with one of them added at its start or its end trims to what the
/// text trims to.
pub proof fn lemma_trim_drops_white_space(s: Seq<char>, c: char)
    requires
        c == '\t' || c == '\n' || c == '\u{b}' || c == '\u{c}' || c == '\r' || c == ' '
            || c == '\u{85}' || c == '\u{a0}' || c == '\u{1680}' || ('\u{2000}' <= c && c
            <= '\u{200a}') || c == '\u{2028}' || c == '\u{2029}' || c == '\u{202f}' || c
            == '\u{205f}' || c == '\u{3000}',
    ensures
        trimmed(s.push(c)) == trimmed(s),
        trimmed(seq![c] + s) == trimmed(s),
{
    assert(is_white_space(c));
    assert((seq![c] + s)[0] == c);
    assert((seq![c] + s).drop_first() =~= s);
    lemma_trim_start_push(s, c);
    let t = trim_start(s);
    assert(seq![c].drop_first() =~= Seq::<char>::empty());
    assert(trim_start(seq![c]) == trim_start(Seq::<char>::empty()));
    if t.len() > 0 {
        assert(t.push(c).last() == c);
        assert(t.push(c).drop_last() =~= t);
    } else {
        assert(trim_start(Seq::<char>::empty()) == Seq::<char>::empty());
        assert(trim_end(Seq::<char>::empty()) == Seq::<char>::empty());
        assert(t =~= Seq::<char>::empty());
    }
}

/// Any other character is not white space: on its own it trims to itself.
pub proof fn lemma_trim_keeps_other(c: char)
    requires
        !(c == '\t' || c == '\n' || c == '\u{b}' || c == '\u{c}' || c == '\r' || c == ' '
            || c == '\u{85}' || c == '\u{a0}' || c == '\u{1680}' || ('\u{2000}' <= c && c
            <= '\u{200a}') || c == '\u{2028}' || c == '\u{2029}' || c == '\u{202f}' || c
            == '\u{205f}' || c == '\u{3000}'),
    ensures
        trimmed(seq![c]) == seq![c],
{
    assert(!is_white_space(c));
    assert(seq![c][0] == c);
    assert(trim_start(seq![c]) == seq![c]);
    assert(seq![c].last() == c);
}

} // verus!
