//! The integer side of key generation for the matrix cipher: a random square pattern of
//! zeros and ones, and the comparison of recovered values with the values they stand for.

use vstd::prelude::*;

verus! {

/// The key entry a random byte stands for: 1 when the byte leaves a remainder below 5 on
/// division by 10, 0 otherwise.
pub open spec fn key_bit(r: u8) -> u8 {
    if r % 10 < 5 {
        1
    } else {
        0
    }
}

/// Calls `rand::random::<u8>()`. Nothing is claimed: the byte is chance.
#[verifier::external_body]
fn random_byte() -> u8 {
    rand::random::<u8>()
}

/// The key entry for the random byte `r`: 1 when `r % 10 < 5`, else 0.
pub fn key_entry(r: u8) -> (b: u8)
    ensures
        b == key_bit(r),
{
    if r % 10 < 5 {
        1
    } else {
        0
    }
}

/// The key pattern that rows of random bytes stand for: each entry is `key_bit` of its byte.
pub open spec fn key_pattern(bytes: Seq<Seq<u8>>) -> Seq<Seq<u8>> {
    Seq::new(bytes.len(), |i: int| Seq::new(bytes[i].len(), |j: int| key_bit(bytes[i][j])))
}

/// The byte rows held by a sequence of `Vec<u8>`s.
pub open spec fn byte_rows(v: Seq<Vec<u8>>) -> Seq<Seq<u8>> {
    Seq::new(v.len(), |i: int| v[i]@)
}

/// The key pattern for the given random bytes: entry `(i, j)` is `key_entry(bytes[i][j])`.
pub fn key_pattern_from_bytes(bytes: &Vec<Vec<u8>>) -> (m: Vec<Vec<u8>>)
    ensures
        byte_rows(m@) == key_pattern(byte_rows(bytes@)),
{
    let mut m: Vec<Vec<u8>> = Vec::new();
    let mut i: usize = 0;
    while i < bytes.len()
        invariant
            i <= bytes@.len(),
            byte_rows(m@) == key_pattern(byte_rows(bytes@)).take(i as int),
        decreases bytes@.len() - i,
    {
        let src = &bytes[i];
        let mut row: Vec<u8> = Vec::new();
        let mut j: usize = 0;
        while j < src.len()
            invariant
                j <= src@.len(),
                row@ == key_pattern(byte_rows(bytes@))[i as int].take(j as int),
                key_pattern(byte_rows(bytes@))[i as int] == Seq::new(
                    src@.len(),
                    |k: int| key_bit(src@[k]),
                ),
            decreases src@.len() - j,
        {
            row.push(key_entry(src[j]));
            j = j + 1;
            assert(row@ =~= key_pattern(byte_rows(bytes@))[i as int].take(j as int));
        }
        assert(row@ =~= key_pattern(byte_rows(bytes@))[i as int]);
        let ghost prev = byte_rows(m@);
        let ghost new_row = row@;
        m.push(row);
        assert(byte_rows(m@) =~= prev.push(new_row));
        assert(key_pattern(byte_rows(bytes@)).take(i + 1) =~= key_pattern(byte_rows(bytes@)).take(
            i as int,
        ).push(key_pattern(byte_rows(bytes@))[i as int]));
        i = i + 1;
    }
    assert(byte_rows(m@) =~= key_pattern(byte_rows(bytes@)));
    m
}

/// A `size × size` pattern of zeros and ones: the key pattern of `size × size` fresh
/// random bytes, drawn row by row.
pub fn random_key_pattern(size: usize) -> (m: Vec<Vec<u8>>)
    ensures
        exists|bytes: Seq<Seq<u8>>|
            #![trigger key_pattern(bytes)]
            bytes.len() == size && (forall|i: int| 0 <= i < size ==> (#[trigger] bytes[i]).len()
                == size) && byte_rows(m@) == key_pattern(bytes),
        m@.len() == size,
        forall|i: int| 0 <= i < size ==> (#[trigger] m@[i])@.len() == size,
        forall|i: int, j: int|
            0 <= i < size && 0 <= j < size ==> (#[trigger] m@[i]@[j] == 0 || m@[i]@[j] == 1),
{
    let mut bytes: Vec<Vec<u8>> = Vec::new();
    let mut i: usize = 0;
    while i < size
        invariant
            i <= size,
            bytes@.len() == i,
            forall|k: int| 0 <= k < i ==> (#[trigger] bytes@[k])@.len() == size,
        decreases size - i,
    {
        let mut row: Vec<u8> = Vec::new();
        let mut j: usize = 0;
        while j < size
            invariant
                j <= size,
                row@.len() == j,
            decreases size - j,
        {
            row.push(random_byte());
            j = j + 1;
        }
        bytes.push(row);
        i = i + 1;
    }
    let m = key_pattern_from_bytes(&bytes);
    proof {
        let b = byte_rows(bytes@);
        assert(byte_rows(m@).len() == m@.len());
        assert(key_pattern(b).len() == b.len());
        assert(m@.len() == size);
        assert(forall|k: int| 0 <= k < size ==> (#[trigger] b[k]).len() == size) by {
            assert(forall|k: int| 0 <= k < size ==> b[k] == bytes@[k]@);
        }
        assert forall|k: int| 0 <= k < size implies (#[trigger] m@[k])@.len() == size by {
            assert(m@[k]@ == byte_rows(m@)[k]);
        }
        assert forall|k: int, l: int| 0 <= k < size && 0 <= l < size implies (#[trigger] m@[k]@[l]
            == 0 || m@[k]@[l] == 1) by {
            assert(m@[k]@ == byte_rows(m@)[k]);
            assert(m@[k]@[l] == key_bit(b[k][l]));
        }
    }
    m
}

/// Whether the values agree pairwise, over the length of the shorter sequence (the way
/// zipping two iterators compares them).
pub fn values_match(plain: &[u64], recovered: &[u64]) -> (same: bool)
    ensures
        same <==> forall|i: int|
            0 <= i < plain@.len() && 0 <= i < recovered@.len() ==> #[trigger] plain@[i]
                == recovered@[i],
{
    let mut i: usize = 0;
    while i < plain.len() && i < recovered.len()
        invariant
            i <= plain@.len(),
            i <= recovered@.len(),
            forall|k: int| 0 <= k < i ==> #[trigger] plain@[k] == recovered@[k],
        decreases plain@.len() - i,
    {
        if plain[i] != recovered[i] {
            return false;
        }
        i = i + 1;
    }
    true
}

} // verus!
