//! Scores turned into shares, row by row, and the loss of a classification.

use super::arith;
use super::arith::{sum, Scalar};
use super::linalg;
use super::number;
use super::number::{exp, part, Number};
use super::reals;
use super::reals::Reading;
use super::rows;
use super::rows::{
    map_rows, wanted_classes, CrossEntropyLossOp, LogSoftmaxOp, SoftmaxOp, TargetFault,
};
use vstd::prelude::*;
use vstd::slice::slice_subrange;

verus! {

/// Whether `peak` is what the search for the greatest element of a row ends with.
pub open spec fn is_peak<T: Number>(row: Seq<T>, peak: T) -> bool
    decreases row.len(),
{
    if row.len() == 0 {
        T::lowest.ensures((), peak)
    } else {
        exists|before: T|
            {
                &&& is_peak(row.drop_last(), before)
                &&& #[trigger] T::greater.ensures((before, row.last()), peak)
            }
    }
}

/// The greatest element of a row.
fn find_peak<T: Number>(row: &[T]) -> (peak: T)
    ensures
        is_peak(row@, peak),
{
    let mut peak: T = T::lowest();
    assert(row@.take(0) =~= Seq::<T>::empty());
    for i in 0..row.len()
        invariant
            is_peak(row@.take(i as int), peak),
    {
        let ghost before = peak;
        peak = peak.greater(row[i]);
        proof {
            assert(row@.take(i + 1).drop_last() =~= row@.take(i as int));
            assert(T::greater.ensures((before, row@.take(i + 1).last()), peak));
        }
    }
    assert(row@.take(row@.len() as int) =~= row@);
    peak
}

/// A row weighed: its greatest element, the exponentials of the distances from it, and their
/// sum.
#[derive(Debug, Clone, PartialEq, Eq)]
pub struct Weighed<T> {
    pub peak: T,
    pub weights: Vec<T>,
    pub total: T,
}

/// The distances from `peak`.
pub open spec fn distances<T: Number>(row: Seq<T>, peak: T) -> Seq<T> {
    row.map_values(|x: T| x.difference(peak))
}

/// Whether `w` is the row weighed.
pub open spec fn is_weighed<T: Number>(row: Seq<T>, w: Weighed<T>) -> bool {
    &&& is_peak(row, w.peak)
    &&& number::are_exponentials(distances(row, w.peak), w.weights@)
    &&& w.total == arith::total(w.weights@)
}

/// Weighs a row.
pub fn weigh<T: Number>(row: &[T]) -> (w: Weighed<T>)
    ensures
        is_weighed(row@, w),
{
    let peak: T = find_peak(row);
    let mut list: Vec<T> = Vec::new();
    for i in 0..row.len()
        invariant
            list@ == distances(row@, peak).take(i as int),
    {
        list.push(row[i].minus(peak));
        assert(list@ =~= distances(row@, peak).take(i + 1));
    }
    assert(list@ =~= distances(row@, peak));
    let weights: Vec<T> = exp(list.as_slice());
    let total: T = sum(weights.as_slice());
    Weighed { peak, weights, total }
}

/// Whether `shares` are the weights over their sum.
pub open spec fn are_shares<T: Number>(w: Weighed<T>, shares: Seq<T>) -> bool {
    &&& shares.len() == w.weights@.len()
    &&& forall|i: int|
        0 <= i < shares.len() ==> T::over.ensures(
            (w.weights@[i], w.total),
            #[trigger] shares[i],
        )
}

/// The weights over their sum.
fn share_out<T: Number>(w: &Weighed<T>) -> (shares: Vec<T>)
    ensures
        are_shares(*w, shares@),
{
    let mut shares: Vec<T> = Vec::new();
    for i in 0..w.weights.len()
        invariant
            shares@.len() == i,
            forall|j: int|
                0 <= j < i ==> T::over.ensures((w.weights@[j], w.total), #[trigger] shares@[j]),
    {
        let weight: T = w.weights[i];
        shares.push(weight.over(w.total));
    }
    shares
}

/// Whether `shares` are the exponentials of a row over their sum.
pub open spec fn is_shared<T: Number>(row: Seq<T>, shares: Seq<T>) -> bool {
    exists|w: Weighed<T>| #[trigger] is_weighed(row, w) && are_shares(w, shares)
}

/// The exponentials of a row over their sum.
pub fn exponential_shares<T: Number>(row: &[T]) -> (shares: Vec<T>)
    ensures
        is_shared(row@, shares@),
        shares@.len() == row@.len(),
{
    let w: Weighed<T> = weigh(row);
    share_out(&w)
}

/// Whether all of `shares` are one over their number.
pub open spec fn are_even<T: Number>(shares: Seq<T>) -> bool {
    exists|one: T, share: T|
        {
            &&& #[trigger] T::one.ensures((), one)
            &&& #[trigger] number::is_part(one, shares.len(), share)
            &&& forall|i: int| 0 <= i < shares.len() ==> #[trigger] shares[i] == share
        }
}

/// Whether `shares` are those of a row. A row without any weight is shared evenly.
pub open spec fn is_softmax<T: Number>(row: Seq<T>, shares: Seq<T>) -> bool {
    exists|w: Weighed<T>, weightless: bool|
        {
            &&& is_weighed(row, w)
            &&& #[trigger] T::is_zero.ensures((w.total,), weightless)
            &&& shares.len() == row.len()
            &&& if weightless {
                are_even(shares)
            } else {
                are_shares(w, shares)
            }
        }
}

/// The shares of a row.
pub fn softmax_row<T: Number>(row: &[T]) -> (shares: Vec<T>)
    ensures
        is_softmax(row@, shares@),
{
    let w: Weighed<T> = weigh(row);
    let total: T = w.total;
    let weightless: bool = total.is_zero();
    assert(T::is_zero.ensures((w.total,), weightless));
    if weightless {
        let one: T = T::one();
        let share: T = part(one, row.len() as u64);
        let mut shares: Vec<T> = Vec::new();
        for i in 0..row.len()
            invariant
                shares@.len() == i,
                forall|j: int| 0 <= j < i ==> #[trigger] shares@[j] == share,
        {
            shares.push(share);
        }
        assert(T::one.ensures((), one));
        assert(number::is_part(one, shares@.len(), share));
        shares
    } else {
        share_out(&w)
    }
}

/// The shares of a row, and their logarithms.
#[derive(Debug, Clone, PartialEq, Eq)]
pub struct LogShares<T> {
    pub logs: Vec<T>,
    pub shares: Vec<T>,
}

/// Whether `log` is the logarithm of the share of the score `x`.
pub open spec fn is_log_share<T: Number>(w: Weighed<T>, log_total: T, x: T, log: T) -> bool {
    log == x.difference(w.peak).difference(log_total)
}

/// Whether `found` belongs to a row: the logarithm of a share is the distance of its score from
/// the greatest, less the logarithm of the sum of the weights.
pub open spec fn is_log_softmax<T: Number>(row: Seq<T>, found: LogShares<T>) -> bool {
    exists|w: Weighed<T>, log_total: T|
        {
            &&& is_weighed(row, w)
            &&& #[trigger] T::logarithm.ensures((w.total,), log_total)
            &&& are_shares(w, found.shares@)
            &&& found.logs@.len() == row.len()
            &&& forall|i: int|
                0 <= i < row.len() ==> is_log_share(w, log_total, row[i], #[trigger] found.logs@[i])
        }
}

/// The shares of a row, and their logarithms.
pub fn log_softmax_row<T: Number>(row: &[T]) -> (found: LogShares<T>)
    ensures
        is_log_softmax(row@, found),
{
    let w: Weighed<T> = weigh(row);
    let total: T = w.total;
    let log_total: T = total.logarithm();
    let mut logs: Vec<T> = Vec::new();
    for i in 0..row.len()
        invariant
            logs@.len() == i,
            forall|j: int|
                0 <= j < i ==> is_log_share(w, log_total, row@[j], #[trigger] logs@[j]),
    {
        logs.push(row[i].minus(w.peak).minus(log_total));
    }
    let shares: Vec<T> = share_out(&w);
    assert(T::logarithm.ensures((w.total,), log_total));
    LogShares { logs, shares }
}

/// Whether `len` elements are enough for all rows of a tensor.
pub open spec fn has_rows(dims: Seq<usize>, len: nat) -> bool {
    &&& dims.len() >= 1
    &&& rows::sample_count(dims) * rows::row_len(dims, len) <= len
}

/// The number of rows and of elements of a row.
fn row_sizes(dims: &[usize], len: usize) -> (sizes: (usize, usize))
    requires
        dims@.len() >= 1,
    ensures
        sizes.0 == rows::sample_count(dims@),
        sizes.1 == rows::row_len(dims@, len as nat),
{
    if dims.len() == 1 {
        (1, len)
    } else {
        (dims[0], dims[1])
    }
}

/// Whether `out` holds the shares of each row.
pub open spec fn are_row_shares<T: Number>(data: Seq<T>, dims: Seq<usize>, out: Seq<T>) -> bool {
    exists|images: Seq<Vec<T>>|
        {
            &&& images.len() == rows::sample_count(dims)
            &&& forall|r: int|
                0 <= r < images.len() ==> is_softmax(
                    linalg::piece(data, r, rows::row_len(dims, data.len())),
                    (#[trigger] images[r])@,
                )
            &&& out == #[trigger] rows::joined(images)
        }
}

/// The shares along the last axis: of the one row of a tensor with one dimension, and of each
/// row of a tensor with two.
pub fn softmax<T: Number>(data: &[T], dims: &[usize]) -> (result: (Vec<T>, SoftmaxOp))
    requires
        has_rows(dims@, data@.len()),
    ensures
        are_row_shares(data@, dims@, result.0@),
        result.1.rows == rows::sample_count(dims@),
        result.1.cols == rows::row_len(dims@, data@.len()),
        result.1.single == (dims@.len() == 1),
{
    let (count, cols) = row_sizes(dims, data.len());
    let share = |row: &[T]| -> (shares: Vec<T>)
        ensures
            is_softmax(row@, shares@),
        { softmax_row(row) };
    let out: Vec<T> = map_rows(data, count, cols, &share);
    proof {
        let images = choose|images: Seq<Vec<T>>|
            {
                &&& images.len() == count
                &&& forall|r: int|
                    0 <= r < count ==> rows::is_row_image(share, data@, cols, r, #[trigger] images[r])
                &&& out@ == #[trigger] rows::joined(images)
            };
        assert forall|r: int| 0 <= r < images.len() implies is_softmax(
            linalg::piece(data@, r, cols as nat),
            (#[trigger] images[r])@,
        ) by {
            assert(rows::is_row_image(share, data@, cols, r, images[r]));
        }
    }
    (out, SoftmaxOp { rows: count, cols, single: dims.len() == 1 })
}

/// The logarithms of the shares of some rows, one after the other.
pub open spec fn all_logs<T>(outcomes: Seq<LogShares<T>>) -> Seq<T>
    decreases outcomes.len(),
{
    if outcomes.len() == 0 {
        Seq::empty()
    } else {
        all_logs(outcomes.drop_last()) + outcomes.last().logs@
    }
}

/// The shares of some rows, one after the other.
pub open spec fn all_log_shares<T>(outcomes: Seq<LogShares<T>>) -> Seq<T>
    decreases outcomes.len(),
{
    if outcomes.len() == 0 {
        Seq::empty()
    } else {
        all_log_shares(outcomes.drop_last()) + outcomes.last().shares@
    }
}

/// Whether `found` holds the logarithms and the shares of each row.
pub open spec fn are_row_logs<T: Number>(
    data: Seq<T>,
    dims: Seq<usize>,
    found: LogShares<T>,
) -> bool {
    exists|outcomes: Seq<LogShares<T>>|
        {
            &&& outcomes.len() == rows::sample_count(dims)
            &&& forall|r: int|
                0 <= r < outcomes.len() ==> is_log_softmax(
                    linalg::piece(data, r, rows::row_len(dims, data.len())),
                    #[trigger] outcomes[r],
                )
            &&& found.logs@ == #[trigger] all_logs(outcomes)
            &&& found.shares@ == all_log_shares(outcomes)
        }
}

/// A row lies within the data.
proof fn lemma_row_fits(count: int, cols: int, r: int)
    requires
        0 <= r < count,
        0 <= cols,
    ensures
        0 <= r * cols,
        r * cols + cols <= count * cols,
{
    assert(0 <= r * cols && r * cols + cols <= count * cols) by (nonlinear_arith)
        requires
            0 <= r < count,
            0 <= cols,
    ;
}

/// The logarithms of the shares along the last axis, and the shares.
pub fn log_softmax<T: Number>(data: &[T], dims: &[usize]) -> (result: (LogShares<T>, LogSoftmaxOp))
    requires
        has_rows(dims@, data@.len()),
    ensures
        are_row_logs(data@, dims@, result.0),
        result.1.rows == rows::sample_count(dims@),
        result.1.cols == rows::row_len(dims@, data@.len()),
        result.1.single == (dims@.len() == 1),
{
    let _size: usize = data.len();
    let (count, cols) = row_sizes(dims, data.len());
    let mut logs: Vec<T> = Vec::new();
    let mut shares: Vec<T> = Vec::new();
    let ghost mut outcomes: Seq<LogShares<T>> = Seq::empty();
    for r in 0..count
        invariant
            count * cols <= data@.len() == _size,
            outcomes.len() == r,
            forall|j: int|
                0 <= j < r ==> is_log_softmax(
                    linalg::piece(data@, j, cols as nat),
                    #[trigger] outcomes[j],
                ),
            logs@ == all_logs(outcomes),
            shares@ == all_log_shares(outcomes),
    {
        proof {
            lemma_row_fits(count as int, cols as int, r as int);
        }
        let row = slice_subrange(data, r * cols, r * cols + cols);
        assert(row@ =~= linalg::piece(data@, r as int, cols as nat));
        let found: LogShares<T> = log_softmax_row(row);
        let ghost outcome = found;
        let mut row_logs: Vec<T> = found.logs;
        let mut row_shares: Vec<T> = found.shares;
        logs.append(&mut row_logs);
        shares.append(&mut row_shares);
        proof {
            assert(outcomes.push(outcome).drop_last() =~= outcomes);
            outcomes = outcomes.push(outcome);
        }
    }
    (LogShares { logs, shares }, LogSoftmaxOp { rows: count, cols, single: dims.len() == 1 })
}

/// The loss of one sample, and the shares that its classes get.
#[derive(Debug, Clone, PartialEq, Eq)]
pub struct RowLoss<T> {
    pub loss: T,
    pub shares: Vec<T>,
}

/// Whether `outcome` is the loss of a sample of class `target` with these scores: the logarithm
/// of the share of its class, with the other sign.
pub open spec fn is_row_loss<T: Number>(row: Seq<T>, target: usize, outcome: RowLoss<T>) -> bool {
    exists|w: Weighed<T>, log_total: T, log: T|
        {
            &&& is_weighed(row, w)
            &&& #[trigger] T::logarithm.ensures((w.total,), log_total)
            &&& is_log_share(w, log_total, row[target as int], log)
            &&& #[trigger] T::opposite.ensures((log,), outcome.loss)
            &&& are_shares(w, outcome.shares@)
        }
}

/// The loss of one sample.
pub fn row_loss<T: Number>(row: &[T], target: usize) -> (outcome: RowLoss<T>)
    requires
        target < row@.len(),
    ensures
        is_row_loss(row@, target, outcome),
        outcome.shares@.len() == row@.len(),
{
    let w: Weighed<T> = weigh(row);
    let total: T = w.total;
    let log_total: T = total.logarithm();
    let log: T = row[target].minus(w.peak).minus(log_total);
    let loss: T = log.opposite();
    let shares: Vec<T> = share_out(&w);
    let outcome = RowLoss { loss, shares };
    assert(T::logarithm.ensures((w.total,), log_total));
    assert(is_log_share(w, log_total, row@[target as int], log));
    assert(T::opposite.ensures((log,), outcome.loss));
    outcome
}

/// The losses of some samples.
pub open spec fn losses<T>(outcomes: Seq<RowLoss<T>>) -> Seq<T> {
    outcomes.map_values(|o: RowLoss<T>| o.loss)
}

/// The shares of some samples, one after the other.
pub open spec fn all_shares<T>(outcomes: Seq<RowLoss<T>>) -> Seq<T>
    decreases outcomes.len(),
{
    if outcomes.len() == 0 {
        Seq::empty()
    } else {
        all_shares(outcomes.drop_last()) + outcomes.last().shares@
    }
}

/// The loss of all samples, and what its gradient is made of.
#[derive(Debug, Clone, PartialEq, Eq)]
pub struct CrossEntropy<T> {
    pub loss: T,
    pub shares: Vec<T>,
    pub op: CrossEntropyLossOp,
}

/// Whether `result` is made of the outcomes of all samples: the loss is that of the one sample
/// of scores with one dimension, and else the mean of the losses.
pub open spec fn is_loss_of_all<T: Number>(
    dims: Seq<usize>,
    outcomes: Seq<RowLoss<T>>,
    result: CrossEntropy<T>,
) -> bool {
    &&& if dims.len() == 1 {
        result.loss == outcomes[0].loss
    } else {
        number::is_part(arith::total(losses(outcomes)), outcomes.len(), result.loss)
    }
    &&& result.shares@ == all_shares(outcomes)
}

/// Whether `all` is the loss of a classification.
pub open spec fn is_cross_entropy<T: Number>(
    scores: Seq<T>,
    dims: Seq<usize>,
    targets: Seq<usize>,
    all: CrossEntropy<T>,
) -> bool {
    &&& all.op.targets@ == targets.take(rows::sample_count(dims) as int)
    &&& all.op.classes == rows::row_len(dims, scores.len())
    &&& exists|outcomes: Seq<RowLoss<T>>|
        {
            &&& outcomes.len() == rows::sample_count(dims)
            &&& forall|r: int|
                0 <= r < outcomes.len() ==> is_row_loss(
                    linalg::piece(scores, r, rows::row_len(dims, scores.len())),
                    targets[r],
                    #[trigger] outcomes[r],
                )
            &&& #[trigger] is_loss_of_all(dims, outcomes, all)
        }
}

/// The loss of a classification: the scores of each sample against its class.
pub fn cross_entropy_loss<T: Number>(scores: &[T], dims: &[usize], targets: &[usize]) -> (result:
    Result<CrossEntropy<T>, TargetFault>)
    requires
        has_rows(dims@, scores@.len()),
        dims@.len() == 1 && rows::target_fault(dims@, targets@) is None ==> targets@[0]
            < scores@.len(),
    ensures
        result is Ok <==> rows::target_fault(dims@, targets@) is None,
        result matches Err(e) ==> rows::target_fault(dims@, targets@) == Some(e),
        result matches Ok(all) ==> is_cross_entropy(scores@, dims@, targets@, all),
{
    let wanted: Vec<usize> = match wanted_classes(dims, targets) {
        Err(e) => {
            return Err(e);
        },
        Ok(wanted) => wanted,
    };
    let (count, classes) = row_sizes(dims, scores.len());
    let _size: usize = scores.len();
    assert forall|j: int| 0 <= j < count implies (#[trigger] wanted@[j]) < classes by {
        if dims@.len() == 1 {
            assert(wanted@[0] == targets@[0]);
        }
    }
    let mut total_loss: T = T::zero();
    let mut last_loss: T = total_loss;
    let mut shares: Vec<T> = Vec::new();
    let ghost mut outcomes: Seq<RowLoss<T>> = Seq::empty();
    assert(losses(outcomes) =~= Seq::empty());
    for r in 0..count
        invariant
            count == wanted@.len() == rows::sample_count(dims@),
            wanted@ == targets@.take(count as int),
            count <= targets@.len(),
            forall|j: int| 0 <= j < count ==> (#[trigger] wanted@[j]) < classes,
            count * classes <= scores@.len() == _size,
            outcomes.len() == r,
            forall|j: int|
                0 <= j < r ==> is_row_loss(
                    linalg::piece(scores@, j, classes as nat),
                    targets@[j],
                    #[trigger] outcomes[j],
                ),
            total_loss == arith::total(losses(outcomes)),
            r > 0 ==> last_loss == outcomes[r - 1].loss,
            shares@ == all_shares(outcomes),
    {
        proof {
            lemma_row_fits(count as int, classes as int, r as int);
            assert(targets@[r as int] == wanted@[r as int]);
        }
        let row = slice_subrange(scores, r * classes, r * classes + classes);
        assert(row@ =~= linalg::piece(scores@, r as int, classes as nat));
        let outcome: RowLoss<T> = row_loss(row, wanted[r]);
        let ghost found = outcome;
        last_loss = outcome.loss;
        total_loss = total_loss.plus(outcome.loss);
        let mut row_shares: Vec<T> = outcome.shares;
        shares.append(&mut row_shares);
        proof {
            assert(losses(outcomes.push(found)).drop_last() =~= losses(outcomes));
            assert(outcomes.push(found).drop_last() =~= outcomes);
            outcomes = outcomes.push(found);
        }
    }
    let loss: T = if dims.len() == 1 {
        last_loss
    } else {
        part(total_loss, count as u64)
    };
    let all = CrossEntropy { loss, shares, op: CrossEntropyLossOp { targets: wanted, classes } };
    assert(is_loss_of_all(dims@, outcomes, all));
    assert(is_cross_entropy(scores@, dims@, targets@, all));
    Ok(all)
}

/// Whether `shares` are those of the real numbers of a row: they are positive, they add up to
/// one, and any two of them are to each other as the exponentials of their scores.
pub open spec fn are_real_shares<T>(reading: Reading<T>, row: Seq<T>, shares: Seq<T>) -> bool {
    &&& shares.len() == row.len()
    &&& reading.all_finite(shares)
    &&& forall|i: int| 0 <= i < shares.len() ==> #[trigger] reading.at(shares, i) > 0real
    &&& reading.sum(shares) == 1real
    &&& forall|i: int, j: int|
        0 <= i < row.len() && 0 <= j < row.len() ==> #[trigger] reading.at(shares, i) * (
        reading.exp)(reading.at(row, j)) == #[trigger] reading.at(shares, j) * (reading.exp)(
            reading.at(row, i),
        )
}

/// The greatest element of a row of real numbers is a real number.
proof fn lemma_real_peak<T: Number>(reading: Reading<T>, row: Seq<T>, peak: T)
    requires
        reading.is_ordered(),
        reading.all_finite(row),
        row.len() > 0,
        is_peak(row, peak),
    ensures
        (reading.finite)(peak),
    decreases row.len(),
{
    let before = choose|before: T|
        {
            &&& is_peak(row.drop_last(), before)
            &&& #[trigger] T::greater.ensures((before, row.last()), peak)
        };
    assert((reading.finite)(row[row.len() - 1]));
    if row.len() > 1 {
        let rest = row.drop_last();
        assert forall|i: int| 0 <= i < rest.len() implies (reading.finite)(#[trigger] rest[i]) by {
            assert((reading.finite)(row[i]));
        }
        lemma_real_peak(reading, rest, before);
    }
}

/// The weights of a row are exponentials, all of them by the same factor, and their sum is
/// positive.
proof fn lemma_real_weights<T: Number>(reading: Reading<T>, row: Seq<T>, w: Weighed<T>)
    requires
        reading.is_faithful(),
        reading.all_finite(row),
        row.len() > 0,
        is_weighed(row, w),
    ensures
        (reading.finite)(w.peak),
        w.weights@.len() == row.len(),
        reading.all_finite(w.weights@),
        (reading.exp)(reading.of(w.peak)) > 0real,
        forall|i: int|
            0 <= i < row.len() ==> #[trigger] reading.at(w.weights@, i) > 0real && (reading.exp)(
                reading.at(row, i),
            ) == reading.at(w.weights@, i) * (reading.exp)(reading.of(w.peak)),
        forall|i: int|
            0 <= i < row.len() ==> #[trigger] reading.at(w.weights@, i) == (reading.exp)(
                reading.at(row, i) - reading.of(w.peak),
            ),
        reading.reads(w.total, reading.sum(w.weights@)),
        reading.of(w.total) > 0real,
{
    lemma_real_peak(reading, row, w.peak);
    let p = reading.of(w.peak);
    let weights = w.weights@;
    assert forall|i: int| 0 <= i < row.len() implies {
        &&& (reading.finite)(#[trigger] weights[i])
        &&& reading.at(weights, i) == (reading.exp)(reading.at(row, i) - p)
        &&& reading.at(weights, i) > 0real
        &&& (reading.exp)(reading.at(row, i)) == reading.at(weights, i) * (reading.exp)(p)
    } by {
        assert((reading.finite)(row[i]));
        let x = reading.at(row, i);
        assert(distances(row, w.peak)[i] == row[i].difference(w.peak));
        assert(T::exponential.ensures((row[i].difference(w.peak),), weights[i]));
        assert((reading.exp)((x - p) + p) == (reading.exp)(x - p) * (reading.exp)(p));
        assert((x - p) + p == x);
    }
    reading.lemma_total(weights);
    reals::lemma_sum_is_positive(weights.len(), |i: int| reading.at(weights, i));
}

/// The weights over their sum are shares.
proof fn lemma_real_shares<T: Number>(
    reading: Reading<T>,
    row: Seq<T>,
    w: Weighed<T>,
    shares: Seq<T>,
)
    requires
        reading.is_faithful(),
        reading.all_finite(row),
        row.len() > 0,
        is_weighed(row, w),
        are_shares(w, shares),
    ensures
        are_real_shares(reading, row, shares),
        forall|i: int|
            0 <= i < row.len() ==> #[trigger] reading.at(shares, i) * reading.of(w.total)
                == reading.at(w.weights@, i),
{
    lemma_real_weights(reading, row, w);
    let t = reading.of(w.total);
    let weights = w.weights@;
    let p = (reading.exp)(reading.of(w.peak));
    let inverse = 1real / t;
    reals::lemma_quotient(1real, t);
    assert forall|i: int| 0 <= i < row.len() implies {
        &&& (reading.finite)(#[trigger] shares[i])
        &&& reading.at(shares, i) > 0real
        &&& reading.at(shares, i) == inverse * reading.at(weights, i)
        &&& reading.at(shares, i) * t == reading.at(weights, i)
    } by {
        assert(T::over.ensures((weights[i], w.total), shares[i]));
        assert((reading.finite)(weights[i]));
        let x = reading.at(weights, i);
        assert(x > 0real);
        reals::lemma_quotient(x, t);
        assert(x / t > 0real) by (nonlinear_arith)
            requires
                x > 0real,
                t > 0real,
        ;
        assert((inverse * x) * t == (inverse * t) * x) by (nonlinear_arith);
        assert(1real * x == x);
        reals::lemma_is_quotient(x, t, inverse * x);
    }
    reals::lemma_sum_of_multiples(
        shares.len(),
        inverse,
        |i: int| reading.at(weights, i),
        |i: int| reading.at(shares, i),
    );
    assert forall|i: int, j: int| 0 <= i < row.len() && 0 <= j < row.len() implies #[trigger] (
    reading.at(shares, i)) * (reading.exp)(reading.at(row, j)) == #[trigger] reading.at(shares, j)
        * (reading.exp)(reading.at(row, i)) by {
        let (a, b) = (reading.at(shares, i), reading.at(shares, j));
        assert((reading.finite)(shares[i]) && (reading.finite)(shares[j]));
        assert(reading.at(weights, i) == a * t && reading.at(weights, j) == b * t);
        assert(a * ((b * t) * p) == b * ((a * t) * p)) by (nonlinear_arith);
    }
}

/// The shares of a row of real numbers are positive, add up to one, and any two of them are to
/// each other as the exponentials of their scores.
pub proof fn law_shares_are_exponentials_of_one_whole<T: Number>(
    reading: Reading<T>,
    row: Seq<T>,
    shares: Seq<T>,
)
    requires
        reading.is_faithful(),
        reading.all_finite(row),
        row.len() > 0,
        is_softmax(row, shares) || is_shared(row, shares),
    ensures
        are_real_shares(reading, row, shares),
{
    if is_softmax(row, shares) {
        let (w, weightless) = choose|w: Weighed<T>, weightless: bool|
            {
                &&& is_weighed(row, w)
                &&& #[trigger] T::is_zero.ensures((w.total,), weightless)
                &&& shares.len() == row.len()
                &&& if weightless {
                    are_even(shares)
                } else {
                    are_shares(w, shares)
                }
            };
        lemma_real_weights(reading, row, w);
        lemma_real_shares(reading, row, w, shares);
    } else {
        let w = choose|w: Weighed<T>| #[trigger] is_weighed(row, w) && are_shares(w, shares);
        lemma_real_shares(reading, row, w, shares);
    }
}

/// The exponential of a distance from the greatest score, less the logarithm of the whole, is the
/// share.
proof fn lemma_real_log<T: Number>(
    reading: Reading<T>,
    row: Seq<T>,
    w: Weighed<T>,
    shares: Seq<T>,
    log_total: T,
    i: int,
    log: T,
)
    requires
        reading.is_faithful(),
        reading.all_finite(row),
        row.len() > 0,
        is_weighed(row, w),
        are_shares(w, shares),
        T::logarithm.ensures((w.total,), log_total),
        0 <= i < row.len(),
        is_log_share(w, log_total, row[i], log),
    ensures
        (reading.finite)(log),
        (reading.exp)(reading.of(log)) == reading.at(shares, i),
{
    lemma_real_weights(reading, row, w);
    lemma_real_shares(reading, row, w, shares);
    assert((reading.finite)(row[i]));
    let (d, l) = (reading.at(row, i) - reading.of(w.peak), reading.of(log_total));
    assert((reading.exp)((d - l) + l) == (reading.exp)(d - l) * (reading.exp)(l));
    assert((d - l) + l == d);
    assert(reading.at(w.weights@, i) == (reading.exp)(d));
    let t = reading.of(w.total);
    reals::lemma_is_quotient(reading.at(w.weights@, i), t, (reading.exp)(d - l));
    reals::lemma_is_quotient(reading.at(w.weights@, i), t, reading.at(shares, i));
}

/// Whether the logarithms and the shares of a row of real numbers belong to it.
pub open spec fn are_real_logs<T>(
    reading: Reading<T>,
    row: Seq<T>,
    logs: Seq<T>,
    shares: Seq<T>,
) -> bool {
    &&& are_real_shares(reading, row, shares)
    &&& logs.len() == row.len()
    &&& reading.all_finite(logs)
    &&& forall|i: int|
        0 <= i < logs.len() ==> (reading.exp)(#[trigger] reading.at(logs, i)) == reading.at(
            shares,
            i,
        )
}

/// The exponential of the logarithm of a share is the share, which is that of the row.
pub proof fn law_logarithms_of_shares_lead_back<T: Number>(
    reading: Reading<T>,
    row: Seq<T>,
    found: LogShares<T>,
)
    requires
        reading.is_faithful(),
        reading.all_finite(row),
        row.len() > 0,
        is_log_softmax(row, found),
    ensures
        are_real_logs(reading, row, found.logs@, found.shares@),
{
    let (w, log_total) = choose|w: Weighed<T>, log_total: T|
        {
            &&& is_weighed(row, w)
            &&& #[trigger] T::logarithm.ensures((w.total,), log_total)
            &&& are_shares(w, found.shares@)
            &&& found.logs@.len() == row.len()
            &&& forall|i: int|
                0 <= i < row.len() ==> is_log_share(w, log_total, row[i], #[trigger] found.logs@[i])
        };
    lemma_real_shares(reading, row, w, found.shares@);
    assert forall|i: int| 0 <= i < row.len() implies (reading.finite)(#[trigger] found.logs@[i])
        && (reading.exp)(reading.at(found.logs@, i)) == reading.at(found.shares@, i) by {
        lemma_real_log(reading, row, w, found.shares@, log_total, i, found.logs@[i]);
    }
}

/// The loss of a sample is the logarithm of the share of its class, with the other sign: its
/// opposite has that share for its exponential. A surer sample loses less, and none gains.
pub proof fn law_a_loss_is_the_surprise_at_the_class<T: Number>(
    reading: Reading<T>,
    row: Seq<T>,
    target: usize,
    outcome: RowLoss<T>,
)
    requires
        reading.is_faithful(),
        reading.all_finite(row),
        target < row.len(),
        is_row_loss(row, target, outcome),
    ensures
        are_real_shares(reading, row, outcome.shares@),
        (reading.finite)(outcome.loss),
        (reading.exp)(-reading.of(outcome.loss)) == reading.at(outcome.shares@, target as int),
{
    let (w, log_total, log) = choose|w: Weighed<T>, log_total: T, log: T|
        {
            &&& is_weighed(row, w)
            &&& #[trigger] T::logarithm.ensures((w.total,), log_total)
            &&& is_log_share(w, log_total, row[target as int], log)
            &&& #[trigger] T::opposite.ensures((log,), outcome.loss)
            &&& are_shares(w, outcome.shares@)
        };
    lemma_real_shares(reading, row, w, outcome.shares@);
    lemma_real_log(reading, row, w, outcome.shares@, log_total, target as int, log);
    assert(-(-reading.of(log)) == reading.of(log));
}

/// Lists of the same length, one after the other, can be told apart again.
proof fn lemma_joined<T>(parts: Seq<Vec<T>>, len: nat, r: int)
    requires
        forall|i: int| 0 <= i < parts.len() ==> (#[trigger] parts[i])@.len() == len,
        0 <= r < parts.len(),
    ensures
        linalg::piece(rows::joined(parts), r, len) == parts[r]@,
    decreases parts.len(),
{
    lemma_joined_len(parts, len);
    let rest = parts.drop_last();
    lemma_joined_len(rest, len);
    let n = parts.len();
    lemma_row_fits(n as int, len as int, r);
    assert((n - 1) * len + len == n * len) by (nonlinear_arith);
    let all = rows::joined(parts);
    if r < n - 1 {
        lemma_row_fits(n - 1, len as int, r);
        lemma_joined(rest, len, r);
        assert(linalg::piece(all, r, len) =~= linalg::piece(rows::joined(rest), r, len));
        assert(rest[r] == parts[r]);
    } else {
        assert(linalg::piece(all, r, len) =~= parts[r]@);
    }
}

proof fn lemma_joined_len<T>(parts: Seq<Vec<T>>, len: nat)
    requires
        forall|i: int| 0 <= i < parts.len() ==> (#[trigger] parts[i])@.len() == len,
    ensures
        rows::joined(parts).len() == parts.len() * len,
    decreases parts.len(),
{
    if parts.len() > 0 {
        let rest = parts.drop_last();
        assert forall|i: int| 0 <= i < rest.len() implies (#[trigger] rest[i])@.len() == len by {
            assert(rest[i] == parts[i]);
        }
        lemma_joined_len(rest, len);
        let n = parts.len();
        assert(parts[n - 1]@.len() == len);
        assert((n - 1) * len + len == n * len) by (nonlinear_arith);
    } else {
        assert(0 * len == 0) by (nonlinear_arith);
    }
}

/// A row of real numbers is one.
proof fn lemma_real_row<T>(reading: Reading<T>, data: Seq<T>, count: nat, cols: nat, r: int)
    requires
        reading.all_finite(data),
        count * cols <= data.len(),
        0 <= r < count,
    ensures
        linalg::piece(data, r, cols).len() == cols,
        reading.all_finite(linalg::piece(data, r, cols)),
{
    lemma_row_fits(count as int, cols as int, r);
    let row = linalg::piece(data, r, cols);
    assert forall|i: int| 0 <= i < row.len() implies (reading.finite)(#[trigger] row[i]) by {
        assert(row[i] == data[r * cols + i]);
    }
}

/// Each row of the result holds the shares of the same row of the scores.
pub proof fn law_each_row_is_shared_out<T: Number>(
    reading: Reading<T>,
    data: Seq<T>,
    dims: Seq<usize>,
    out: Seq<T>,
    r: int,
)
    requires
        reading.is_faithful(),
        has_rows(dims, data.len()),
        reading.all_finite(data),
        rows::row_len(dims, data.len()) > 0,
        are_row_shares(data, dims, out),
        0 <= r < rows::sample_count(dims),
    ensures
        out.len() == rows::sample_count(dims) * rows::row_len(dims, data.len()),
        are_real_shares(
            reading,
            linalg::piece(data, r, rows::row_len(dims, data.len())),
            linalg::piece(out, r, rows::row_len(dims, data.len())),
        ),
{
    let cols = rows::row_len(dims, data.len());
    let images = choose|images: Seq<Vec<T>>|
        {
            &&& images.len() == rows::sample_count(dims)
            &&& forall|r: int|
                0 <= r < images.len() ==> is_softmax(
                    linalg::piece(data, r, rows::row_len(dims, data.len())),
                    (#[trigger] images[r])@,
                )
            &&& out == #[trigger] rows::joined(images)
        };
    assert forall|i: int| 0 <= i < images.len() implies (#[trigger] images[i])@.len() == cols by {
        lemma_real_row(reading, data, images.len(), cols, i);
    }
    lemma_joined_len(images, cols);
    lemma_joined(images, cols, r);
    lemma_real_row(reading, data, images.len(), cols, r);
    assert(is_softmax(linalg::piece(data, r, cols), images[r]@));
    law_shares_are_exponentials_of_one_whole(
        reading,
        linalg::piece(data, r, cols),
        images[r]@,
    );
}

proof fn lemma_joined_logs<T>(outcomes: Seq<LogShares<T>>)
    ensures
        all_logs(outcomes) == rows::joined(outcomes.map_values(|o: LogShares<T>| o.logs)),
        all_log_shares(outcomes) == rows::joined(outcomes.map_values(|o: LogShares<T>| o.shares)),
    decreases outcomes.len(),
{
    if outcomes.len() > 0 {
        lemma_joined_logs(outcomes.drop_last());
        let logs = outcomes.map_values(|o: LogShares<T>| o.logs);
        let shares = outcomes.map_values(|o: LogShares<T>| o.shares);
        assert(logs.drop_last() =~= outcomes.drop_last().map_values(|o: LogShares<T>| o.logs));
        assert(shares.drop_last() =~= outcomes.drop_last().map_values(
            |o: LogShares<T>| o.shares,
        ));
    }
}

/// Each row of the result holds the logarithms of the shares of the same row of the scores.
pub proof fn law_each_row_has_its_logarithms<T: Number>(
    reading: Reading<T>,
    data: Seq<T>,
    dims: Seq<usize>,
    found: LogShares<T>,
    r: int,
)
    requires
        reading.is_faithful(),
        has_rows(dims, data.len()),
        reading.all_finite(data),
        rows::row_len(dims, data.len()) > 0,
        are_row_logs(data, dims, found),
        0 <= r < rows::sample_count(dims),
    ensures
        found.logs@.len() == rows::sample_count(dims) * rows::row_len(dims, data.len()),
        found.shares@.len() == found.logs@.len(),
        are_real_logs(
            reading,
            linalg::piece(data, r, rows::row_len(dims, data.len())),
            linalg::piece(found.logs@, r, rows::row_len(dims, data.len())),
            linalg::piece(found.shares@, r, rows::row_len(dims, data.len())),
        ),
{
    let cols = rows::row_len(dims, data.len());
    let outcomes = choose|outcomes: Seq<LogShares<T>>|
        {
            &&& outcomes.len() == rows::sample_count(dims)
            &&& forall|r: int|
                0 <= r < outcomes.len() ==> is_log_softmax(
                    linalg::piece(data, r, rows::row_len(dims, data.len())),
                    #[trigger] outcomes[r],
                )
            &&& found.logs@ == #[trigger] all_logs(outcomes)
            &&& found.shares@ == all_log_shares(outcomes)
        };
    lemma_joined_logs(outcomes);
    let logs = outcomes.map_values(|o: LogShares<T>| o.logs);
    let shares = outcomes.map_values(|o: LogShares<T>| o.shares);
    assert forall|i: int| 0 <= i < outcomes.len() implies {
        &&& (#[trigger] logs[i])@.len() == cols
        &&& shares[i]@.len() == cols
        &&& are_real_logs(reading, linalg::piece(data, i, cols), logs[i]@, shares[i]@)
    } by {
        lemma_real_row(reading, data, outcomes.len(), cols, i);
        assert(is_log_softmax(linalg::piece(data, i, cols), outcomes[i]));
        law_logarithms_of_shares_lead_back(reading, linalg::piece(data, i, cols), outcomes[i]);
    }
    assert forall|i: int| 0 <= i < shares.len() implies (#[trigger] shares[i])@.len() == cols by {
        assert(logs[i]@.len() == cols);
    }
    lemma_joined_len(logs, cols);
    lemma_joined_len(shares, cols);
    lemma_joined(logs, cols, r);
    lemma_joined(shares, cols, r);
    assert(logs[r]@.len() == cols);
}

proof fn lemma_joined_losses<T>(outcomes: Seq<RowLoss<T>>)
    ensures
        all_shares(outcomes) == rows::joined(outcomes.map_values(|o: RowLoss<T>| o.shares)),
    decreases outcomes.len(),
{
    if outcomes.len() > 0 {
        lemma_joined_losses(outcomes.drop_last());
        let shares = outcomes.map_values(|o: RowLoss<T>| o.shares);
        assert(shares.drop_last() =~= outcomes.drop_last().map_values(
            |o: RowLoss<T>| o.shares,
        ));
    }
}

/// Whether `surprises` are the losses of all samples: the exponential of the opposite of each is
/// the share that the class of the sample gets.
pub open spec fn are_surprises<T>(
    reading: Reading<T>,
    shares: Seq<T>,
    classes: nat,
    targets: Seq<usize>,
    surprises: Seq<real>,
) -> bool {
    forall|r: int|
        0 <= r < surprises.len() ==> (reading.exp)(-(#[trigger] surprises[r])) == reading.at(
            linalg::piece(shares, r, classes),
            targets[r] as int,
        )
}

/// The loss of a classification is the mean of how surprising the classes of all samples are,
/// and the shares kept are those of the scores, row by row.
pub proof fn law_the_loss_is_the_mean_surprise<T: Number>(
    reading: Reading<T>,
    scores: Seq<T>,
    dims: Seq<usize>,
    targets: Seq<usize>,
    all: CrossEntropy<T>,
)
    requires
        reading.is_faithful(),
        has_rows(dims, scores.len()),
        reading.all_finite(scores),
        rows::sample_count(dims) > 0,
        rows::sample_count(dims) <= targets.len(),
        forall|r: int|
            0 <= r < rows::sample_count(dims) ==> (#[trigger] targets[r]) < rows::row_len(
                dims,
                scores.len(),
            ),
        is_cross_entropy(scores, dims, targets, all),
    ensures
        (reading.finite)(all.loss),
        all.op.classes == rows::row_len(dims, scores.len()),
        all.op.targets@ == targets.take(rows::sample_count(dims) as int),
        all.shares@.len() == rows::sample_count(dims) * rows::row_len(dims, scores.len()),
        forall|r: int|
            0 <= r < rows::sample_count(dims) ==> are_real_shares(
                reading,
                #[trigger] linalg::piece(scores, r, rows::row_len(dims, scores.len())),
                linalg::piece(all.shares@, r, rows::row_len(dims, scores.len())),
            ),
        exists|surprises: Seq<real>|
            {
                &&& surprises.len() == rows::sample_count(dims)
                &&& #[trigger] are_surprises(
                    reading,
                    all.shares@,
                    rows::row_len(dims, scores.len()),
                    targets,
                    surprises,
                )
                &&& reading.of(all.loss) * (rows::sample_count(dims) as real) == reals::sum_to(
                    surprises.len(),
                    |r: int| surprises[r],
                )
            },
{
    let cols = rows::row_len(dims, scores.len());
    let n = rows::sample_count(dims);
    let outcomes = choose|outcomes: Seq<RowLoss<T>>|
        {
            &&& outcomes.len() == rows::sample_count(dims)
            &&& forall|r: int|
                0 <= r < outcomes.len() ==> is_row_loss(
                    linalg::piece(scores, r, rows::row_len(dims, scores.len())),
                    targets[r],
                    #[trigger] outcomes[r],
                )
            &&& #[trigger] is_loss_of_all(dims, outcomes, all)
        };
    lemma_joined_losses(outcomes);
    let shares = outcomes.map_values(|o: RowLoss<T>| o.shares);
    assert forall|i: int| 0 <= i < n implies {
        &&& (#[trigger] shares[i])@.len() == cols
        &&& are_real_shares(reading, linalg::piece(scores, i, cols), shares[i]@)
        &&& (reading.finite)(outcomes[i].loss)
        &&& (reading.exp)(-reading.of(outcomes[i].loss)) == reading.at(
            shares[i]@,
            targets[i] as int,
        )
    } by {
        lemma_real_row(reading, scores, n, cols, i);
        assert(targets[i] < cols);
        assert(is_row_loss(linalg::piece(scores, i, cols), targets[i], outcomes[i]));
        law_a_loss_is_the_surprise_at_the_class(
            reading,
            linalg::piece(scores, i, cols),
            targets[i],
            outcomes[i],
        );
    }
    lemma_joined_len(shares, cols);
    let surprises = Seq::new(n, |r: int| reading.of(outcomes[r].loss));
    assert forall|r: int| 0 <= r < n implies {
        &&& linalg::piece(all.shares@, r, cols) == #[trigger] shares[r]@
        &&& (reading.exp)(-surprises[r]) == reading.at(
            linalg::piece(all.shares@, r, cols),
            targets[r] as int,
        )
    } by {
        lemma_joined(shares, cols, r);
    }
    assert forall|r: int| 0 <= r < n implies are_real_shares(
        reading,
        #[trigger] linalg::piece(scores, r, cols),
        linalg::piece(all.shares@, r, cols),
    ) by {
        assert(shares[r]@.len() == cols);
    }
    assert(are_surprises(reading, all.shares@, cols, targets, surprises)) by {
        assert forall|r: int| 0 <= r < surprises.len() implies (reading.exp)(
            -(#[trigger] surprises[r]),
        ) == reading.at(linalg::piece(all.shares@, r, cols), targets[r] as int) by {
            assert(shares[r]@.len() == cols);
        }
    }
    let list = losses(outcomes);
    assert forall|r: int| 0 <= r < list.len() implies (reading.finite)(#[trigger] list[r]) by {
        assert(shares[r]@.len() == cols);
    }
    reals::lemma_same_sum(n, |r: int| reading.at(list, r), |r: int| surprises[r]);
    assert(shares[0]@.len() == cols);
    if dims.len() == 1 {
        let one = |r: int| surprises[r];
        assert(reals::sum_to(1, one) == reals::sum_to(0, one) + one(0));
        assert(1nat as real == 1real);
        let l = reading.of(all.loss);
        assert(l * 1real == l);
    } else {
        reading.lemma_total(list);
        reading.lemma_part(arith::total(list), n, all.loss);
        reals::lemma_quotient(reading.sum(list), n as real);
    }
}

} // verus!
