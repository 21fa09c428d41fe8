//! A byte encoding of sequences of big integers: a count, then for each
//! integer a sign byte, the length of its magnitude, and the magnitude as
//! little-endian digits.

use crate::bigint::{big_from_bytes_le, big_to_bytes_le, big_values, bigint_value, signed_le_value};
use num_bigint::BigInt;
use vstd::bytes::{
    lemma_auto_spec_u64_to_from_le_bytes, spec_u64_from_le_bytes, spec_u64_to_le_bytes,
    u64_from_le_bytes, u64_to_le_bytes,
};
use vstd::prelude::*;
use vstd::slice::slice_subrange;

verus! {

/// The integer encoded at `pos`, with the position just behind it.
pub open spec fn word_at(s: Seq<u8>, pos: int) -> Option<(int, int)> {
    if pos < 0 || pos + 9 > s.len() {
        None
    } else if s[pos] > 1 {
        None
    } else {
        let n = spec_u64_from_le_bytes(s.subrange(pos + 1, pos + 9)) as int;
        if pos + 9 + n > s.len() {
            None
        } else {
            Some((signed_le_value(s[pos] == 1, s.subrange(pos + 9, pos + 9 + n)), pos + 9 + n))
        }
    }
}

/// The first `n` integers encoded from `pos` on, with the position just
/// behind the last of them.
pub open spec fn words_at(s: Seq<u8>, pos: int, n: nat) -> Option<(Seq<int>, int)>
    decreases n,
{
    if n == 0 {
        Some((Seq::empty(), pos))
    } else {
        match words_at(s, pos, (n - 1) as nat) {
            None => None,
            Some((words, p)) => match word_at(s, p) {
                None => None,
                Some((v, q)) => Some((words.push(v), q)),
            },
        }
    }
}

/// The sequence of integers that a byte string encodes, if it encodes one:
/// the count it announces must be followed by exactly that many integers and
/// nothing else.
pub open spec fn decoded_words(s: Seq<u8>) -> Option<Seq<int>> {
    if s.len() < 8 {
        None
    } else {
        match words_at(s, 8, spec_u64_from_le_bytes(s.subrange(0, 8)) as nat) {
            None => None,
            Some((words, end)) => if end == s.len() {
                Some(words)
            } else {
                None
            },
        }
    }
}

/// What was read from a byte string is read again, unchanged, from any
/// extension of it.
pub proof fn lemma_word_stable(s: Seq<u8>, t: Seq<u8>, pos: int)
    requires
        s.is_prefix_of(t),
        word_at(s, pos) is Some,
    ensures
        word_at(t, pos) == word_at(s, pos),
{
    let n = spec_u64_from_le_bytes(s.subrange(pos + 1, pos + 9)) as int;
    assert(s.subrange(pos + 1, pos + 9) =~= t.subrange(pos + 1, pos + 9));
    assert(s.subrange(pos + 9, pos + 9 + n) =~= t.subrange(pos + 9, pos + 9 + n));
}

/// A run of integers read from a byte string is read again, unchanged, from
/// any extension of it.
pub proof fn lemma_words_stable(s: Seq<u8>, t: Seq<u8>, pos: int, n: nat)
    requires
        s.is_prefix_of(t),
        words_at(s, pos, n) is Some,
    ensures
        words_at(t, pos, n) == words_at(s, pos, n),
    decreases n,
{
    if n > 0 {
        lemma_words_stable(s, t, pos, (n - 1) as nat);
        lemma_word_stable(s, t, (words_at(s, pos, (n - 1) as nat)->0).1);
    }
}

/// Once a run of integers cannot be read, no longer run can.
pub proof fn lemma_words_none(s: Seq<u8>, pos: int, k: nat, n: nat)
    requires
        k <= n,
        words_at(s, pos, k) is None,
    ensures
        words_at(s, pos, n) is None,
    decreases n,
{
    if k < n {
        lemma_words_none(s, pos, k, (n - 1) as nat);
    }
}

/// Reads the integer encoded at `pos`.
fn read_word(bytes: &[u8], pos: usize) -> (r: Option<(BigInt, usize)>)
    requires
        pos <= bytes@.len(),
    ensures
        match r {
            Some((word, end)) => word_at(bytes@, pos as int) == Some(
                (bigint_value(word), end as int),
            ) && end <= bytes@.len(),
            None => word_at(bytes@, pos as int) is None,
        },
{
    if bytes.len() - pos < 9 {
        return None;
    }
    let sign = bytes[pos];
    if sign > 1 {
        return None;
    }
    let length = u64_from_le_bytes(slice_subrange(bytes, pos + 1, pos + 9));
    if length > (bytes.len() - pos - 9) as u64 {
        return None;
    }
    let end = pos + 9 + length as usize;
    let word = big_from_bytes_le(sign == 1, slice_subrange(bytes, pos + 9, end));
    Some((word, end))
}

/// Encodes a sequence of big integers.
pub fn encode_words(words: &Vec<BigInt>) -> (bytes: Vec<u8>)
    ensures
        decoded_words(bytes@) == Some(big_values(words@)),
{
    let mut bytes = u64_to_le_bytes(words.len() as u64);
    let ghost header = bytes@;
    let ghost values = big_values(words@);
    proof {
        lemma_auto_spec_u64_to_from_le_bytes();
        assert(values.take(0) =~= Seq::<int>::empty());
    }
    let mut i: usize = 0;
    while i < words.len()
        invariant
            i <= words.len(),
            values == big_values(words@),
            header == spec_u64_to_le_bytes(words.len() as u64),
            header.len() == 8,
            header.is_prefix_of(bytes@),
            words_at(bytes@, 8, i as nat) == Some((values.take(i as int), bytes@.len() as int)),
        decreases words.len() - i,
    {
        let (negative, magnitude) = big_to_bytes_le(&words[i]);
        let ghost before = bytes@;
        let length = u64_to_le_bytes(magnitude.len() as u64);
        bytes.push(if negative { 1u8 } else { 0u8 });
        bytes.extend_from_slice(length.as_slice());
        bytes.extend_from_slice(magnitude.as_slice());
        proof {
            let start = before.len() as int;
            let now = bytes@;
            lemma_auto_spec_u64_to_from_le_bytes();
            assert(before.is_prefix_of(now));
            lemma_words_stable(before, now, 8, i as nat);
            assert(now.subrange(start + 1, start + 9) =~= length@);
            assert(now.subrange(start + 9, start + 9 + magnitude@.len()) =~= magnitude@);
            assert(word_at(now, start) == Some((values[i as int], now.len() as int)));
            assert(values.take(i + 1) =~= values.take(i as int).push(values[i as int]));
        }
        i += 1;
    }
    proof {
        assert(values.take(i as int) =~= values);
        assert(bytes@.subrange(0, 8) =~= header);
        lemma_auto_spec_u64_to_from_le_bytes();
    }
    bytes
}

/// Decodes a sequence of big integers.
pub fn decode_words(bytes: &[u8]) -> (r: Option<Vec<BigInt>>)
    ensures
        match r {
            Some(words) => decoded_words(bytes@) == Some(big_values(words@)),
            None => decoded_words(bytes@) is None,
        },
{
    if bytes.len() < 8 {
        return None;
    }
    let count = u64_from_le_bytes(slice_subrange(bytes, 0, 8));
    let mut words: Vec<BigInt> = Vec::new();
    let mut pos: usize = 8;
    let mut i: u64 = 0;
    while i < count
        invariant
            i <= count,
            count == spec_u64_from_le_bytes(bytes@.subrange(0, 8)),
            8 <= pos <= bytes@.len(),
            words_at(bytes@, 8, i as nat) == Some((big_values(words@), pos as int)),
        decreases count - i,
    {
        match read_word(bytes, pos) {
            None => {
                proof {
                    lemma_words_none(bytes@, 8, (i + 1) as nat, count as nat);
                }
                return None;
            },
            Some((word, end)) => {
                let ghost before = big_values(words@);
                words.push(word);
                proof {
                    assert(big_values(words@) =~= before.push(bigint_value(word)));
                }
                pos = end;
            },
        }
        i += 1;
    }
    if pos != bytes.len() {
        return None;
    }
    Some(words)
}

} // verus!
