//! Facts about UTF-8 encoding used by the text codecs.

use crate::seqs::{lemma_split_on_add, lemma_split_on_free, lemma_split_on_nonempty, split_on};
use vstd::prelude::*;
use vstd::utf8::*;

verus! {

/// The UTF-8 encodings of each text.
pub open spec fn encode_all(texts: Seq<Seq<char>>) -> Seq<Seq<u8>> {
    Seq::new(texts.len(), |i: int| encode_utf8(texts[i]))
}

/// The decodings of each byte sequence.
pub open spec fn decode_all(chunks: Seq<Seq<u8>>) -> Seq<Seq<char>> {
    Seq::new(chunks.len(), |i: int| decode_utf8(chunks[i]))
}

/// Encoding distributes over concatenation.
pub proof fn lemma_encode_add(a: Seq<char>, b: Seq<char>)
    ensures
        encode_utf8(a + b) == encode_utf8(a) + encode_utf8(b),
    decreases a.len(),
{
    if a.len() == 0 {
        assert(a + b =~= b);
        assert(encode_utf8(a) + encode_utf8(b) =~= encode_utf8(b));
    } else {
        lemma_encode_add(a.drop_first(), b);
        assert((a + b).drop_first() =~= a.drop_first() + b);
        assert((a + b)[0] == a[0]);
        assert(encode_utf8(a + b) =~= encode_utf8(a) + encode_utf8(b));
    }
}

/// Encoding one more character appends that character's encoding.
pub proof fn lemma_encode_push(a: Seq<char>, c: char)
    ensures
        encode_utf8(a.push(c)) == encode_utf8(a) + encode_scalar(c as u32),
{
    lemma_encode_add(a, seq![c]);
    assert(a + seq![c] =~= a.push(c));
    assert(seq![c].drop_first() =~= Seq::<char>::empty());
    assert(encode_utf8(Seq::<char>::empty()) =~= Seq::<u8>::empty());
    assert(seq![c][0] == c);
    assert(encode_utf8(seq![c]) =~= encode_scalar(c as u32));
}

/// The comma encodes to the single byte 44, and no other character's encoding holds 44.
pub proof fn lemma_comma_encoding(c: char)
    ensures
        c == ',' ==> encode_scalar(c as u32) == seq![44u8],
        c != ',' ==> !encode_scalar(c as u32).contains(44u8),
{
    broadcast use char_is_scalar;

    let v = c as u32;
    assert(is_scalar(v));
    char_u32_cast(',', ',' as u32);
    char_u32_cast(c, v);
    let e = encode_scalar(v);
    if has_width_1_encoding(v) {
        assert((v & 0x7F) == v) by (bit_vector)
            requires
                v <= 0x7F,
        ;
        assert(e == seq![v as u8]);
        if c != ',' {
            assert(v != 44);
            assert(!e.contains(44u8)) by {
                if e.contains(44u8) {
                    assert(e[0] == 44u8);
                }
            }
        } else {
            assert(v == 44);
            assert(e =~= seq![44u8]);
        }
    } else {
        assert(c != ',');
        assert((0xC0u8 | ((v >> 6) & 0x1F) as u8) >= 0x80u8) by (bit_vector);
        assert((0xE0u8 | ((v >> 12) & 0x0F) as u8) >= 0x80u8) by (bit_vector);
        assert((0xF0u8 | ((v >> 18) & 0x7) as u8) >= 0x80u8) by (bit_vector);
        assert((0x80u8 | (v & 0x3F) as u8) >= 0x80u8) by (bit_vector);
        assert((0x80u8 | ((v >> 6) & 0x3F) as u8) >= 0x80u8) by (bit_vector);
        assert((0x80u8 | ((v >> 12) & 0x3F) as u8) >= 0x80u8) by (bit_vector);
        assert(forall|k: int| 0 <= k < e.len() ==> e[k] >= 0x80u8);
        assert(!e.contains(44u8)) by {
            if e.contains(44u8) {
                let k = choose|k: int| 0 <= k < e.len() && e[k] == 44u8;
                assert(e[k] >= 0x80u8);
            }
        }
    }
}

/// Splitting the encoding of a text at comma bytes gives the encodings of the pieces of
/// the text between commas.
pub proof fn lemma_split_encoding(s: Seq<char>)
    ensures
        split_on(encode_utf8(s), 44u8) == encode_all(split_on(s, ',')),
    decreases s.len(),
{
    if s.len() == 0 {
        assert(encode_utf8(s) =~= Seq::<u8>::empty());
        assert(split_on(s, ',') == seq![Seq::<char>::empty()]);
        assert(split_on(encode_utf8(s), 44u8) == seq![Seq::<u8>::empty()]);
        assert(encode_utf8(Seq::<char>::empty()) =~= Seq::<u8>::empty());
        assert(encode_all(seq![Seq::<char>::empty()]) =~= seq![Seq::<u8>::empty()]);
    } else {
        let s0 = s.drop_last();
        let c = s.last();
        lemma_split_encoding(s0);
        lemma_split_on_nonempty(s0, ',');
        assert(s0.push(c) =~= s);
        lemma_encode_push(s0, c);
        let x = encode_utf8(s0);
        let y = encode_scalar(c as u32);
        lemma_split_on_add(x, y, 44u8);
        lemma_comma_encoding(c);
        let p = split_on(s0, ',');
        let px = split_on(x, 44u8);
        assert(px == encode_all(p));
        if c == ',' {
            assert(y == seq![44u8]);
            assert(seq![44u8].drop_last() =~= Seq::<u8>::empty());
            assert(split_on(Seq::<u8>::empty(), 44u8) == seq![Seq::<u8>::empty()]);
            assert(split_on(y, 44u8) == seq![Seq::<u8>::empty()].push(Seq::<u8>::empty()));
            assert(split_on(s, ',') == p.push(Seq::empty()));
            assert(px.last() + Seq::<u8>::empty() =~= px.last());
            assert(encode_utf8(Seq::<char>::empty()) =~= Seq::<u8>::empty());
            assert(split_on(encode_utf8(s), 44u8) =~= encode_all(split_on(s, ',')));
        } else {
            lemma_split_on_free(y, 44u8);
            assert(split_on(s, ',') == p.update(p.len() - 1, p.last().push(c)));
            lemma_encode_push(p.last(), c);
            assert(split_on(encode_utf8(s), 44u8) =~= encode_all(split_on(s, ',')));
        }
    }
}

} // verus!
