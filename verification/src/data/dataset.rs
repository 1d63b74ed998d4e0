//! Samples of token ids.

use vstd::prelude::*;
use vstd::slice::{slice_subrange, slice_to_vec};

verus! {

/// Samples that can be asked for one by one: an input and a target each. A type outside of
/// proofs need not define what it holds.
pub trait Dataset {
    /// How many samples there are.
    open spec fn count(&self) -> nat {
        arbitrary()
    }

    /// Sample `i`.
    open spec fn sample(&self, i: int) -> (Seq<usize>, Seq<usize>) {
        arbitrary()
    }

    /// How many samples there are.
    fn len(&self) -> (n: usize)
        ensures
            n == self.count(),
    ;

    /// Whether there are no samples.
    fn is_empty(&self) -> (yes: bool)
        ensures
            yes == (self.count() == 0),
    {
        self.len() == 0
    }

    /// The sample at `index`.
    fn get(&self, index: usize) -> (pair: (Vec<usize>, Vec<usize>))
        requires
            index < self.count(),
        ensures
            (pair.0@, pair.1@) == self.sample(index as int),
    ;
}

/// Windows of a fixed length over a sequence of tokens, each with the same window moved on by
/// one token as its target.
pub struct TextDataset {
    tokens: Vec<usize>,
    seq_len: usize,
}

impl TextDataset {
    /// All tokens.
    pub closed spec fn all(&self) -> Seq<usize> {
        self.tokens@
    }

    /// The length of a window.
    pub closed spec fn window(&self) -> nat {
        self.seq_len as nat
    }

    /// The windows of length `seq_len` over `tokens`.
    pub fn new(tokens: Vec<usize>, seq_len: usize) -> (dataset: Self)
        ensures
            dataset.all() == tokens@,
            dataset.window() == seq_len,
    {
        TextDataset { tokens, seq_len }
    }
}

impl Dataset for TextDataset {
    open spec fn count(&self) -> nat {
        if self.all().len() <= self.window() {
            0
        } else {
            (self.all().len() - self.window()) as nat
        }
    }

    open spec fn sample(&self, i: int) -> (Seq<usize>, Seq<usize>) {
        (
            self.all().subrange(i, i + self.window()),
            self.all().subrange(i + 1, i + self.window() + 1),
        )
    }

    fn len(&self) -> (n: usize) {
        if self.tokens.len() <= self.seq_len {
            0
        } else {
            self.tokens.len() - self.seq_len
        }
    }

    fn get(&self, index: usize) -> (pair: (Vec<usize>, Vec<usize>)) {
        let n: usize = self.seq_len;
        let len: usize = self.tokens.len();
        assert(index + n + 1 <= len);
        let input: Vec<usize> = slice_to_vec(
            slice_subrange(self.tokens.as_slice(), index, index + n),
        );
        let target: Vec<usize> = slice_to_vec(
            slice_subrange(self.tokens.as_slice(), index + 1, index + n + 1),
        );
        (input, target)
    }
}

/// Every target is its input moved on by one token: it starts with the second token of the
/// input, and ends with the token behind the input.
pub proof fn law_target_is_shifted_input(dataset: &TextDataset, i: int, j: int)
    requires
        0 <= i < dataset.count(),
        0 <= j < dataset.window(),
    ensures
        dataset.sample(i).0.len() == dataset.window(),
        dataset.sample(i).1.len() == dataset.window(),
        dataset.sample(i).1[j] == dataset.all()[i + j + 1],
        j + 1 < dataset.window() ==> dataset.sample(i).1[j] == dataset.sample(i).0[j + 1],
{
}

} // verus!
