//! The loss of a classification in which some samples do not count.

use super::number::Number;
use super::ops::{embedding_lookup, EmbeddingLookupOp};
use super::rows;
use super::rows::TargetFault;
use super::softmax;
use super::softmax::{cross_entropy_loss, CrossEntropy};
use vstd::prelude::*;

verus! {

/// The places of the targets that count.
pub open spec fn counted(targets: Seq<usize>, ignore_index: usize) -> Seq<usize>
    decreases targets.len(),
{
    if targets.len() == 0 {
        Seq::empty()
    } else if targets.last() == ignore_index {
        counted(targets.drop_last(), ignore_index)
    } else {
        counted(targets.drop_last(), ignore_index).push((targets.len() - 1) as usize)
    }
}

/// The targets at these places.
pub open spec fn targets_at(targets: Seq<usize>, places: Seq<usize>) -> Seq<usize> {
    places.map_values(|at: usize| targets[at as int])
}

/// The rows of scores at these places, one after the other.
pub open spec fn rows_at<T>(scores: Seq<T>, classes: nat, places: Seq<usize>) -> Seq<T> {
    Seq::new(
        places.len() * classes,
        |p: int| scores[places[p / classes as int] * classes + p % classes as int],
    )
}

/// The loss of the samples that count, and which of all samples these are.
#[derive(Debug, Clone, PartialEq, Eq)]
pub struct PartialCrossEntropy<T> {
    pub counted: EmbeddingLookupOp,
    pub inner: CrossEntropy<T>,
}

/// What is wrong with the targets, if anything: their number, a target that counts and is no
/// class, or that none counts.
pub open spec fn partial_fault(
    samples: usize,
    classes: usize,
    targets: Seq<usize>,
    ignore_index: usize,
) -> Option<TargetFault> {
    let places = counted(targets, ignore_index);
    if targets.len() != samples {
        Some(TargetFault::CountMismatch { expected: samples, got: targets.len() as usize })
    } else if places.len() == 0 {
        Some(TargetFault::Missing)
    } else {
        rows::target_fault(seq![places.len() as usize, classes], targets_at(targets, places))
    }
}

/// The places that count are places, in their order.
proof fn lemma_counted(targets: Seq<usize>, ignore_index: usize)
    requires
        targets.len() <= usize::MAX,
    ensures
        counted(targets, ignore_index).len() <= targets.len(),
        forall|i: int|
            0 <= i < counted(targets, ignore_index).len() ==> (#[trigger] counted(
                targets,
                ignore_index,
            )[i]) < targets.len(),
    decreases targets.len(),
{
    if targets.len() > 0 {
        lemma_counted(targets.drop_last(), ignore_index);
    }
}

/// The loss of a classification over the samples whose target is not `ignore_index`.
pub fn cross_entropy_loss_ignore_index<T: Number>(
    scores: &[T],
    samples: usize,
    classes: usize,
    targets: &[usize],
    ignore_index: usize,
) -> (result: Result<PartialCrossEntropy<T>, TargetFault>)
    requires
        samples * classes <= scores@.len(),
    ensures
        result is Ok <==> partial_fault(samples, classes, targets@, ignore_index) is None,
        result matches Err(e) ==> partial_fault(samples, classes, targets@, ignore_index) == Some(
            e,
        ),
        result matches Ok(all) ==> {
            let places = counted(targets@, ignore_index);
            &&& all.counted.indices@ == places
            &&& all.counted.num_embeddings == samples
            &&& all.counted.embedding_dim == classes
            &&& softmax::is_cross_entropy(
                rows_at(scores@, classes as nat, places),
                seq![places.len() as usize, classes],
                targets_at(targets@, places),
                all.inner,
            )
        },
{
    if targets.len() != samples {
        return Err(TargetFault::CountMismatch { expected: samples, got: targets.len() });
    }
    let _size: usize = scores.len();
    let mut places: Vec<usize> = Vec::new();
    let mut wanted: Vec<usize> = Vec::new();
    assert(targets@.take(0) =~= Seq::<usize>::empty());
    assert(wanted@ =~= targets_at(targets@, places@));
    for i in 0..targets.len()
        invariant
            places@ == counted(targets@.take(i as int), ignore_index),
            wanted@ == targets_at(targets@, places@),
    {
        assert(targets@.take(i + 1).drop_last() =~= targets@.take(i as int));
        if targets[i] != ignore_index {
            places.push(i);
            wanted.push(targets[i]);
            assert(wanted@ =~= targets_at(targets@, places@));
        }
    }
    assert(targets@.take(targets@.len() as int) =~= targets@);
    proof {
        lemma_counted(targets@, ignore_index);
        assert(places@.len() * classes <= samples * classes) by (nonlinear_arith)
            requires
                places@.len() <= samples,
        ;
        assert forall|i: int|
            0 <= i < places@.len() && (#[trigger] places@[i]) < samples implies (places@[i] + 1)
            * classes <= scores@.len() by {
            let at = places@[i];
            assert((at + 1) * classes <= samples * classes) by (nonlinear_arith)
                requires
                    at < samples,
            ;
        }
    }
    if places.len() == 0 {
        return Err(TargetFault::Missing);
    }
    match embedding_lookup(scores, samples, classes, places.as_slice()) {
        None => {
            assert(forall|i: int|
                0 <= i < places@.len() ==> #[trigger] places@[i] < samples);
            Err(TargetFault::Missing)
        },
        Some((picked, op)) => {
            assert(picked@ =~= rows_at(scores@, classes as nat, places@));
            let dims: [usize; 2] = [places.len(), classes];
            assert(dims@ =~= seq![places@.len() as usize, classes]);
            let loss = cross_entropy_loss(picked.as_slice(), &dims, wanted.as_slice());
            match loss {
                Err(e) => Err(e),
                Ok(inner) => Ok(PartialCrossEntropy { counted: op, inner }),
            }
        },
    }
}

/// The places that count are just those whose target is not left out, each of them once and in
/// their order.
pub proof fn law_only_wanted_targets_count(targets: Seq<usize>, ignore_index: usize)
    requires
        targets.len() <= usize::MAX,
    ensures
        forall|i: int|
            0 <= i < targets.len() ==> (counted(targets, ignore_index).contains(i as usize) <==> (
            #[trigger] targets[i]) != ignore_index),
        forall|a: int, b: int|
            0 <= a < b < counted(targets, ignore_index).len() ==> (#[trigger] counted(
                targets,
                ignore_index,
            )[a]) < (#[trigger] counted(targets, ignore_index)[b]),
    decreases targets.len(),
{
    if targets.len() > 0 {
        let rest = targets.drop_last();
        law_only_wanted_targets_count(rest, ignore_index);
        lemma_counted(rest, ignore_index);
        let (before, after) = (counted(rest, ignore_index), counted(targets, ignore_index));
        let last = targets.len() - 1;
        assert forall|i: int| 0 <= i < targets.len() implies (after.contains(i as usize) <==> (
        #[trigger] targets[i]) != ignore_index) by {
            if i < last {
                assert(rest[i] == targets[i]);
                if before.contains(i as usize) {
                    let k = choose|k: int| 0 <= k < before.len() && before[k] == i as usize;
                    assert(after[k] == i as usize);
                }
                if after.contains(i as usize) {
                    let k = choose|k: int| 0 <= k < after.len() && after[k] == i as usize;
                    assert(before[k] == i as usize);
                }
            } else if targets[last] != ignore_index {
                assert(after[before.len() as int] == last as usize);
            } else if after.contains(i as usize) {
                let k = choose|k: int| 0 <= k < after.len() && after[k] == i as usize;
                assert(before[k] < rest.len());
            }
        }
        assert forall|a: int, b: int| 0 <= a < b < after.len() implies (#[trigger] after[a]) < (
        #[trigger] after[b]) by {
            assert(after[a] == before[a]);
            if b < before.len() {
                assert(after[b] == before[b]);
            }
        }
    }
}

} // verus!
