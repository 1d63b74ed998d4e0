//! Numbers of four bytes on the wire.

use crate::bytes;
use crate::bytes::{push_le, read_le};
use vstd::prelude::*;

verus! {

/// The bytes of some words, one behind the other, each little-endian.
pub open spec fn word_bytes(words: Seq<u32>) -> Seq<u8>
    decreases words.len(),
{
    if words.len() == 0 {
        seq![]
    } else {
        word_bytes(words.drop_last()) + bytes::le_bytes(words.last() as nat, 4)
    }
}

/// Word `i` of some bytes.
pub open spec fn word_at(data: Seq<u8>, i: int) -> u32 {
    bytes::le_value(data.subrange(4 * i, 4 * i + 4)) as u32
}

/// The words of some bytes. Up to three bytes at the end that make no word are dropped.
pub open spec fn words_of(data: Seq<u8>) -> Seq<u32> {
    Seq::new(data.len() / 4, |i: int| word_at(data, i))
}

/// Writes words as bytes. A single-precision number is written by its bits.
pub fn words_to_bytes(words: &[u32]) -> (data: Vec<u8>)
    ensures
        data@ == word_bytes(words@),
{
    let mut data: Vec<u8> = Vec::new();
    let mut i: usize = 0;
    assert(words@.take(0) =~= Seq::<u32>::empty());
    while i < words.len()
        invariant
            i <= words@.len(),
            data@ == word_bytes(words@.take(i as int)),
        decreases words@.len() - i,
    {
        push_le(&mut data, words[i] as u64, 4);
        proof {
            let front = words@.take(i + 1);
            assert(front.drop_last() =~= words@.take(i as int));
            assert(front.last() == words@[i as int]);
        }
        i = i + 1;
    }
    assert(words@.take(i as int) =~= words@);
    data
}

/// Reads words from bytes.
pub fn bytes_to_words(data: &[u8]) -> (words: Vec<u32>)
    ensures
        words@ == words_of(data@),
{
    let mut words: Vec<u32> = Vec::new();
    let len: usize = data.len();
    let count: usize = len / 4;
    let mut i: usize = 0;
    while i < count
        invariant
            i <= count,
            len == data@.len(),
            count == len / 4,
            words@.len() == i,
            forall|j: int| 0 <= j < i ==> #[trigger] words@[j] == word_at(data@, j),
        decreases count - i,
    {
        proof {
            bytes::lemma_byte_ranges();
        }
        let word: u64 = read_le(data, 4 * i, 4);
        words.push(word as u32);
        i = i + 1;
    }
    assert(words@ =~= words_of(data@));
    words
}

/// Words come back from the wire as they were sent.
pub proof fn law_words_come_back(words: Seq<u32>)
    ensures
        word_bytes(words).len() == 4 * words.len(),
        words_of(word_bytes(words)) == words,
    decreases words.len(),
{
    if words.len() > 0 {
        let front = words.drop_last();
        law_words_come_back(front);
        let data = word_bytes(words);
        let last = bytes::le_bytes(words.last() as nat, 4);
        bytes::lemma_le_bytes_len(words.last() as nat, 4);
        bytes::lemma_byte_ranges();
        bytes::law_le_read_of_write(words.last() as nat, 4);
        assert forall|i: int| 0 <= i < words.len() implies word_at(data, i) == words[i] by {
            if i < front.len() {
                assert(data.subrange(4 * i, 4 * i + 4) =~= word_bytes(front).subrange(
                    4 * i,
                    4 * i + 4,
                ));
                assert(words_of(word_bytes(front))[i] == front[i]);
            } else {
                assert(data.subrange(4 * i, 4 * i + 4) =~= last);
            }
        }
        assert(words_of(data) =~= words);
    } else {
        assert(words_of(word_bytes(words)) =~= words);
    }
}

} // verus!
