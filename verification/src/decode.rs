//! The text side of decryption: recovered byte values back to lines of text, and the
//! scanning of a line of a saved matrix for the number tokens it holds.

use crate::records::{join_commas, padded_record, padding, widen};
use crate::utf8_lemmas::lemma_encode_add;
use vstd::prelude::*;
use vstd::utf8::*;

verus! {

/// Each value truncated to its low byte, as `as u8` does.
pub open spec fn narrow(values: Seq<u64>) -> Seq<u8> {
    Seq::new(values.len(), |i: int| values[i] as u8)
}

/// The text of one recovered line: its bytes decoded as UTF-8, or `None` when they are
/// not valid UTF-8.
pub open spec fn line_text(values: Seq<u64>) -> Option<Seq<char>> {
    if valid_utf8(narrow(values)) {
        Some(decode_utf8(narrow(values)))
    } else {
        None
    }
}

/// Calls `String::from_utf8`. Claimed, as its documentation says: it fails exactly when
/// the bytes are not valid UTF-8, and otherwise holds the text they encode.
#[verifier::external_body]
fn string_from_utf8(bytes: Vec<u8>) -> (res: Option<String>)
    ensures
        res is Some <==> valid_utf8(bytes@),
        res matches Some(s) ==> s@ == decode_utf8(bytes@),
{
    String::from_utf8(bytes).ok()
}

/// Lines of text recovered from rows of byte values, up to the first row that is not
/// valid UTF-8.
pub struct DecodedText {
    pub lines: Vec<String>,
    /// Whether every row decoded.
    pub complete: bool,
}

/// Converts each row of byte values (each truncated to a byte) to a line of text, stopping
/// at the first row that is not valid UTF-8.
pub fn utf8_to_string(strings: Vec<Vec<u64>>) -> (res: DecodedText)
    ensures
        res.lines@.len() <= strings@.len(),
        forall|i: int|
            0 <= i < res.lines@.len() ==> line_text(strings@[i]@) == Some(
                #[trigger] res.lines@[i]@,
            ),
        res.complete <==> res.lines@.len() == strings@.len(),
        !res.complete ==> line_text(strings@[res.lines@.len() as int]@) is None,
{
    let mut lines: Vec<String> = Vec::new();
    let mut i: usize = 0;
    while i < strings.len()
        invariant
            i <= strings@.len(),
            lines@.len() == i,
            forall|k: int| 0 <= k < i ==> line_text(strings@[k]@) == Some(#[trigger] lines@[k]@),
        decreases strings@.len() - i,
    {
        let line = &strings[i];
        let mut bytes: Vec<u8> = Vec::new();
        let mut j: usize = 0;
        while j < line.len()
            invariant
                j <= line@.len(),
                bytes@ == narrow(line@.take(j as int)),
            decreases line@.len() - j,
        {
            bytes.push(line[j] as u8);
            j = j + 1;
            assert(bytes@ =~= narrow(line@.take(j as int)));
        }
        assert(line@.take(line@.len() as int) =~= line@);
        match string_from_utf8(bytes) {
            Some(text) => {
                lines.push(text);
            },
            None => {
                return DecodedText { lines, complete: false };
            },
        }
        i = i + 1;
    }
    DecodedText { lines, complete: true }
}

/// `n` copies of `|`.
pub open spec fn pipes(n: int) -> Seq<char> {
    Seq::new(if n > 0 { n as nat } else { 0 }, |i: int| '|')
}

/// The bytes of `n` copies of `|` are `n` copies of the padding byte.
proof fn lemma_encode_pipes(n: nat)
    ensures
        widen(encode_utf8(pipes(n as int))) == padding(n as int),
    decreases n,
{
    if n == 0 {
        assert(pipes(0) =~= Seq::<char>::empty());
        assert(encode_utf8(Seq::<char>::empty()) =~= Seq::<u8>::empty());
        assert(widen(Seq::<u8>::empty()) =~= padding(0));
    } else {
        lemma_encode_pipes((n - 1) as nat);
        assert(pipes(n as int) =~= seq!['|'] + pipes(n - 1));
        lemma_encode_add(seq!['|'], pipes(n - 1));
        assert(seq!['|'].drop_first() =~= Seq::<char>::empty());
        assert(encode_utf8(Seq::<char>::empty()) =~= Seq::<u8>::empty());
        assert(seq!['|'][0] == '|');
        assert(('|' as u32 & 0x7F) == 124u32) by {
            assert((124u32 & 0x7F) == 124u32) by (bit_vector);
        }
        assert(encode_utf8(seq!['|']) =~= seq![124u8]);
        let e = encode_utf8(pipes(n - 1));
        assert(encode_utf8(pipes(n as int)) == seq![124u8] + e);
        assert(widen(seq![124u8] + e) =~= seq![124u64] + widen(e));
        assert(seq![124u64] + padding(n - 1) =~= padding(n as int));
    }
}

/// A padded record row decodes to the record's fields joined by commas, followed by as
/// many `|` as were padded: the text survives the trip through byte values.
pub proof fn lemma_padded_record_decodes(fields: Seq<Seq<char>>, width: int)
    ensures
        line_text(padded_record(fields, width)) == Some(
            join_commas(fields) + pipes(width - encode_utf8(join_commas(fields)).len()),
        ),
{
    broadcast use encode_utf8_valid_utf8, encode_utf8_decode_utf8;

    let text = join_commas(fields);
    let n = width - encode_utf8(text).len();
    let k: nat = if n > 0 { n as nat } else { 0 };
    assert(pipes(n) =~= pipes(k as int));
    assert(padding(n) =~= padding(k as int));
    lemma_encode_pipes(k);
    lemma_encode_add(text, pipes(n));
    let all = encode_utf8(text + pipes(n));
    assert(padded_record(fields, width) =~= widen(all));
    assert(narrow(widen(all)) =~= all);
}

/// Whether `c` can be part of a number token: an ASCII digit, `.` or `-`.
pub open spec fn is_number_char(c: char) -> bool {
    ('0' <= c && c <= '9') || c == '.' || c == '-'
}

/// The decisions of scanning one line of a saved matrix for numbers: characters that can
/// belong to a number accumulate into a token; any other character ends the token, which
/// is then handed out to be parsed. A token that parsed is dropped; one that did not parse
/// stays and keeps growing. A token still open at the end of the line is not handed out.
pub struct LineScanner {
    token: Vec<char>,
}

impl LineScanner {
    /// Only number characters ever accumulate in the token.
    #[verifier::type_invariant]
    spec fn token_is_numeric(&self) -> bool {
        forall|i: int| 0 <= i < self.token@.len() ==> is_number_char(#[trigger] self.token@[i])
    }

    /// The characters of the token being read.
    pub closed spec fn pending(&self) -> Seq<char> {
        self.token@
    }

    /// A scanner at the start of a line.
    pub fn new() -> (s: LineScanner)
        ensures
            s.pending() == Seq::<char>::empty(),
    {
        LineScanner { token: Vec::new() }
    }

    /// Takes the next character of the line. Returns the token to be parsed when `c` ends
    /// a non-empty token, and `None` otherwise. A token handed out holds only number
    /// characters.
    pub fn feed(&mut self, c: char) -> (to_parse: Option<Vec<char>>)
        ensures
            is_number_char(c) ==> final(self).pending() == old(self).pending().push(c)
                && to_parse is None,
            !is_number_char(c) ==> final(self).pending() == old(self).pending() && (if old(
                self,
            ).pending().len() > 0 {
                to_parse matches Some(t) && t@ == old(self).pending()
            } else {
                to_parse is None
            }),
            to_parse matches Some(t) ==> forall|i: int|
                0 <= i < t@.len() ==> is_number_char(#[trigger] t@[i]),
    {
        proof {
            use_type_invariant(&*self);
        }
        if ('0' <= c && c <= '9') || c == '.' || c == '-' {
            let mut token: Vec<char> = Vec::new();
            std::mem::swap(&mut token, &mut self.token);
            token.push(c);
            self.token = token;
            None
        } else if self.token.len() > 0 {
            Some(self.token.clone())
        } else {
            None
        }
    }

    /// Reports whether the token handed out by `feed` parsed as a number; a parsed token
    /// is dropped, one that did not parse is kept.
    pub fn parsed(&mut self, ok: bool)
        ensures
            ok ==> final(self).pending() == Seq::<char>::empty(),
            !ok ==> final(self).pending() == old(self).pending(),
    {
        if ok {
            self.token = Vec::new();
        }
    }
}

/// The characters that make up number tokens are exactly the ten decimal digits (code
/// points 48 to 57, the characters `char::is_digit(10)` accepts), `.` (46) and `-` (45).
pub proof fn lemma_number_chars(c: char)
    ensures
        is_number_char(c) <==> (48 <= c as u32 && c as u32 <= 57 || c as u32 == 46 || c as u32
            == 45),
{
}

} // verus!
