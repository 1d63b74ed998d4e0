//! Batches of samples.

use super::dataset::Dataset;
use rand::seq::SliceRandom;
use rand::thread_rng;
use vstd::prelude::*;

verus! {

/// `SliceRandom::shuffle` of the crate `rand`, with its `thread_rng`: it only swaps elements,
/// so afterwards the same elements are there, each as often as before. The order depends on
/// chance, and nothing is said of it.
#[verifier::external_body]
fn shuffle(indices: &mut Vec<usize>)
    ensures
        final(indices)@.to_multiset() == old(indices)@.to_multiset(),
{
    indices.shuffle(&mut thread_rng());
}

/// The numbers from zero up to, but without, `n`.
pub open spec fn counted(n: nat) -> Seq<usize> {
    Seq::new(n, |i: int| i as usize)
}

/// Whether `indices` are the numbers below `n`, each once, in any order.
pub open spec fn is_arrangement(indices: Seq<usize>, n: nat) -> bool {
    indices.to_multiset() == counted(n).to_multiset()
}

/// Gives out the samples of a dataset in batches.
pub struct DataLoader<'a, D: Dataset> {
    dataset: &'a D,
    batch_size: usize,
    shuffle: bool,
    indices: Vec<usize>,
    pos: usize,
}

impl<'a, D: Dataset> DataLoader<'a, D> {
    /// The dataset.
    pub closed spec fn source(&self) -> &'a D {
        self.dataset
    }

    /// How many samples a batch has, but for the last.
    pub closed spec fn batch(&self) -> usize {
        self.batch_size
    }

    /// Whether the samples are shuffled.
    pub closed spec fn shuffled(&self) -> bool {
        self.shuffle
    }

    /// The samples in the order in which they are given out.
    pub closed spec fn order(&self) -> Seq<usize> {
        self.indices@
    }

    /// How many samples were given out.
    pub closed spec fn given(&self) -> nat {
        self.pos as nat
    }

    /// Whether every sample is due exactly once.
    pub open spec fn well_formed(&self) -> bool {
        &&& is_arrangement(self.order(), self.source().count())
        &&& self.given() <= self.order().len()
        &&& !self.shuffled() ==> self.order() == counted(self.source().count())
    }

    /// A loader at the start of the dataset.
    pub fn new(dataset: &'a D, batch_size: usize, shuffle: bool) -> (loader: Self)
        ensures
            loader.well_formed(),
            loader.source() == dataset,
            loader.batch() == batch_size,
            loader.shuffled() == shuffle,
            loader.given() == 0,
    {
        let n: usize = dataset.len();
        let mut indices: Vec<usize> = Vec::new();
        while indices.len() < n
            invariant
                indices@.len() <= n,
                forall|i: int| 0 <= i < indices@.len() ==> indices@[i] == i,
            decreases n - indices@.len(),
        {
            let next: usize = indices.len();
            indices.push(next);
        }
        assert(indices@ =~= counted(n as nat));
        if shuffle {
            self::shuffle(&mut indices);
        }
        DataLoader { dataset, batch_size, shuffle, indices, pos: 0 }
    }

    /// Goes back to the start, and shuffles anew where samples are shuffled.
    pub fn reset(&mut self)
        requires
            old(self).well_formed(),
        ensures
            final(self).well_formed(),
            final(self).source() == old(self).source(),
            final(self).batch() == old(self).batch(),
            final(self).shuffled() == old(self).shuffled(),
            final(self).given() == 0,
    {
        self.pos = 0;
        if self.shuffle {
            self::shuffle(&mut self.indices);
        }
    }

    /// The inputs and the targets of the next samples, as many as a batch has or as are left.
    /// Nothing once all samples were given out.
    pub fn next_batch(&mut self) -> (result: Option<(Vec<Vec<usize>>, Vec<Vec<usize>>)>)
        requires
            old(self).well_formed(),
        ensures
            final(self).well_formed(),
            final(self).source() == old(self).source(),
            final(self).batch() == old(self).batch(),
            final(self).shuffled() == old(self).shuffled(),
            final(self).order() == old(self).order(),
            result is None <==> old(self).given() == old(self).order().len(),
            result is None ==> final(self).given() == old(self).given(),
            result matches Some(batch) ==> {
                let n = batch_len(
                    (old(self).order().len() - old(self).given()) as nat,
                    old(self).batch() as nat,
                );
                &&& final(self).given() == old(self).given() + n
                &&& batch.0@.len() == n
                &&& batch.1@.len() == n
                &&& forall|i: int|
                    0 <= i < n ==> (#[trigger] batch.0@[i])@ == old(self).source().sample(
                        old(self).order()[old(self).given() + i] as int,
                    ).0
                &&& forall|i: int|
                    0 <= i < n ==> (#[trigger] batch.1@[i])@ == old(self).source().sample(
                        old(self).order()[old(self).given() + i] as int,
                    ).1
            },
    {
        let start: usize = self.pos;
        let total: usize = self.indices.len();
        if start >= total {
            return None;
        }
        let end: usize = if self.batch_size < total - start {
            start + self.batch_size
        } else {
            total
        };
        self.pos = end;
        let mut inputs: Vec<Vec<usize>> = Vec::new();
        let mut targets: Vec<Vec<usize>> = Vec::new();
        let mut at: usize = start;
        while at < end
            invariant
                start <= at <= end <= total == self.indices@.len(),
                is_arrangement(self.indices@, self.dataset.count()),
                inputs@.len() == at - start,
                targets@.len() == at - start,
                forall|i: int|
                    0 <= i < at - start ==> (#[trigger] inputs@[i])@ == self.dataset.sample(
                        self.indices@[start + i] as int,
                    ).0,
                forall|i: int|
                    0 <= i < at - start ==> (#[trigger] targets@[i])@ == self.dataset.sample(
                        self.indices@[start + i] as int,
                    ).1,
            decreases end - at,
        {
            proof {
                lemma_arrangement_members(self.indices@, self.dataset.count(), at as int);
            }
            let (input, target) = self.dataset.get(self.indices[at]);
            inputs.push(input);
            targets.push(target);
            at = at + 1;
        }
        Some((inputs, targets))
    }

    /// How many batches the dataset makes.
    pub fn num_batches(&self) -> (n: usize)
        requires
            self.batch() > 0,
        ensures
            n == batch_count(self.order().len(), self.batch() as nat),
    {
        let total: usize = self.indices.len();
        proof {
            vstd::arithmetic::div_mod::lemma_fundamental_div_mod(
                total as int,
                self.batch_size as int,
            );
            vstd::arithmetic::div_mod::lemma_div_is_ordered_by_denominator(
                total as int,
                1,
                self.batch_size as int,
            );
            lemma_batch_count(total as nat, self.batch_size as nat);
        }
        let whole: usize = total / self.batch_size;
        assert(total % self.batch_size > 0 ==> whole < total) by (nonlinear_arith)
            requires
                self.batch_size >= 1,
                total == self.batch_size * whole + total % self.batch_size,
        ;
        if total % self.batch_size == 0 {
            whole
        } else {
            whole + 1
        }
    }
}

/// How many samples the next batch has when `left` are left.
pub open spec fn batch_len(left: nat, batch: nat) -> nat {
    if batch < left {
        batch
    } else {
        left
    }
}

/// How many batches of at most `batch` samples `left` samples make.
pub open spec fn batch_count(left: nat, batch: nat) -> nat
    decreases left,
{
    if left == 0 || batch == 0 {
        0
    } else {
        1 + batch_count((left - batch_len(left, batch)) as nat, batch)
    }
}

/// The number of batches is the number of samples divided by the size of a batch, rounded up.
pub proof fn lemma_batch_count(left: nat, batch: nat)
    requires
        batch > 0,
    ensures
        batch_count(left, batch) == left / batch + (if left % batch == 0 {
            0nat
        } else {
            1nat
        }),
    decreases left,
{
    if left > batch {
        lemma_batch_count((left - batch) as nat, batch);
        let (l, b) = (left as int, batch as int);
        let q = (l - b) / b;
        let r = (l - b) % b;
        vstd::arithmetic::div_mod::lemma_fundamental_div_mod(l - b, b);
        assert(l == (q + 1) * b + r) by (nonlinear_arith)
            requires
                l - b == b * q + r,
        ;
        vstd::arithmetic::div_mod::lemma_fundamental_div_mod_converse(l, b, q + 1, r);
    } else if left == batch {
        vstd::arithmetic::div_mod::lemma_fundamental_div_mod_converse(
            left as int,
            batch as int,
            1,
            0,
        );
        assert(batch_count(0, batch) == 0);
    } else if left > 0 {
        vstd::arithmetic::div_mod::lemma_fundamental_div_mod_converse(
            left as int,
            batch as int,
            0,
            left as int,
        );
        assert(batch_count(0, batch) == 0);
    } else {
        vstd::arithmetic::div_mod::lemma_fundamental_div_mod_converse(0, batch as int, 0, 0);
    }
}

/// Everything in an arrangement is a number below its length.
proof fn lemma_arrangement_members(indices: Seq<usize>, n: nat, i: int)
    requires
        is_arrangement(indices, n),
        0 <= i < indices.len() <= usize::MAX,
    ensures
        indices[i] < n,
{
    broadcast use vstd::seq_lib::group_to_multiset_ensures;

    assert(indices.to_multiset().len() == indices.len());
    assert(counted(n).to_multiset().len() == n);
    assert(indices.contains(indices[i]));
    assert(indices.to_multiset().count(indices[i]) > 0);
    assert(counted(n).contains(indices[i]));
}

/// One pass over a dataset gives every sample exactly once: an arrangement has as many
/// members as there are samples, and each sample stands in it at exactly one place.
pub proof fn law_every_sample_once(indices: Seq<usize>, n: nat, sample: usize)
    requires
        is_arrangement(indices, n),
        sample < n <= usize::MAX,
    ensures
        indices.len() == n,
        exists|i: int| 0 <= i < indices.len() && indices[i] == sample,
        forall|i: int, j: int|
            0 <= i < indices.len() && 0 <= j < indices.len() && indices[i] == sample && indices[j]
                == sample ==> i == j,
{
    broadcast use vstd::seq_lib::group_to_multiset_ensures;

    let all = counted(n);
    assert(indices.to_multiset().len() == indices.len());
    assert(all.to_multiset().len() == n);
    assert(all[sample as int] == sample);
    assert(all.contains(sample));
    assert(indices.to_multiset().count(sample) > 0);
    assert(indices.contains(sample));
    assert(all.no_duplicates());
    all.lemma_multiset_has_no_duplicates();
    assert(all.to_multiset().contains(sample));
    assert(all.to_multiset().count(sample) == 1);
    assert forall|i: int, j: int|
        0 <= i < indices.len() && 0 <= j < indices.len() && indices[i] == sample && indices[j]
            == sample implies i == j by {
        if i < j {
            lemma_two_places(indices, i, j);
        } else if j < i {
            lemma_two_places(indices, j, i);
        }
    }
}

/// What stands at two places is counted at least twice.
proof fn lemma_two_places(s: Seq<usize>, i: int, j: int)
    requires
        0 <= i < j < s.len(),
        s[i] == s[j],
    ensures
        s.to_multiset().count(s[i]) >= 2,
{
    broadcast use vstd::seq_lib::group_to_multiset_ensures;

    let rest = s.remove(j);
    assert(rest[i] == s[i]);
    assert(rest.contains(s[i]));
    assert(rest.to_multiset().count(s[i]) > 0);
    assert(rest.to_multiset() =~= s.to_multiset().remove(s[j]));
    assert(s.contains(s[j]));
}

} // verus!
