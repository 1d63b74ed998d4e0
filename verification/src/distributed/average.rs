//! Averaging the gradients of all workers.

use crate::tensor::arith::Scalar;
use crate::tensor::number;
use crate::tensor::number::{part, Number};
use crate::tensor::reals;
use crate::tensor::reals::Reading;
use vstd::prelude::*;

verus! {

/// The sum of element `j` over those of the first `n` workers that have one.
pub open spec fn sum_over<T: Scalar>(grads: Seq<Vec<T>>, j: int, n: nat) -> T
    decreases n,
{
    if n == 0 {
        T::nought()
    } else if j < grads[n - 1]@.len() {
        sum_over(grads, j, (n - 1) as nat).sum(grads[n - 1]@[j])
    } else {
        sum_over(grads, j, (n - 1) as nat)
    }
}

/// Whether `out` holds the sums over all workers, each over the number of workers.
pub open spec fn is_average<T: Number>(grads: Seq<Vec<T>>, out: Seq<T>) -> bool {
    &&& grads.len() == 0 ==> out.len() == 0
    &&& grads.len() > 0 ==> out.len() == grads[0]@.len()
    &&& forall|j: int|
        0 <= j < out.len() ==> number::is_part(
            sum_over(grads, j, grads.len()),
            grads.len(),
            #[trigger] out[j],
        )
}

/// Averages gradients, element by element: their sum over the number of workers. The first one
/// says how many elements there are; one that is shorter adds nothing where it ends. Without
/// workers there is nothing.
pub fn average_gradients<T: Number>(grads: &Vec<Vec<T>>) -> (out: Vec<T>)
    ensures
        is_average(grads@, out@),
{
    let mut out: Vec<T> = Vec::new();
    if grads.len() == 0 {
        return out;
    }
    let n: usize = grads[0].len();
    for j in 0..n
        invariant
            grads@.len() > 0,
            n == grads@[0]@.len(),
            out@.len() == j,
            forall|k: int|
                0 <= k < j ==> number::is_part(
                    sum_over(grads@, k, grads@.len()),
                    grads@.len(),
                    #[trigger] out@[k],
                ),
    {
        let mut sum: T = T::zero();
        for x in 0..grads.len()
            invariant
                sum == sum_over(grads@, j as int, x as nat),
        {
            if j < grads[x].len() {
                sum = sum.plus(grads[x][j]);
            }
        }
        out.push(part(sum, grads.len() as u64));
    }
    out
}

/// The sum of element `j` over all workers, as a real number. A worker that has none adds
/// nothing.
pub open spec fn real_sum_over<T>(reading: Reading<T>, grads: Seq<Vec<T>>, j: int, n: nat) -> real {
    reals::sum_to(
        n,
        |x: int|
            if j < grads[x]@.len() {
                reading.at(grads[x]@, j)
            } else {
                0real
            },
    )
}

proof fn lemma_real_sum_over<T: Scalar>(
    reading: Reading<T>,
    grads: Seq<Vec<T>>,
    j: int,
    n: nat,
)
    requires
        reading.is_ring(),
        0 <= j,
        n <= grads.len(),
        forall|x: int| 0 <= x < grads.len() ==> reading.all_finite((#[trigger] grads[x])@),
    ensures
        reading.reads(sum_over(grads, j, n), real_sum_over(reading, grads, j, n)),
    decreases n,
{
    if n > 0 {
        lemma_real_sum_over(reading, grads, j, (n - 1) as nat);
        assert(reading.all_finite(grads[n - 1]@));
        if j < grads[n - 1]@.len() {
            assert((reading.finite)(grads[n - 1]@[j]));
        }
    }
}

/// The average, over real numbers: as often as there are workers it makes up the sum over them.
pub proof fn law_averages_make_up_the_sum<T: Number>(
    reading: Reading<T>,
    grads: Seq<Vec<T>>,
    out: Seq<T>,
    j: int,
)
    requires
        reading.is_faithful(),
        forall|x: int| 0 <= x < grads.len() ==> reading.all_finite((#[trigger] grads[x])@),
        0 < grads.len() <= u64::MAX,
        is_average(grads, out),
        0 <= j < grads[0]@.len(),
    ensures
        out.len() == grads[0]@.len(),
        (reading.finite)(out[j]),
        reading.at(out, j) * (grads.len() as real) == real_sum_over(
            reading,
            grads,
            j,
            grads.len(),
        ),
{
    lemma_real_sum_over(reading, grads, j, grads.len());
    reading.lemma_part(sum_over(grads, j, grads.len()), grads.len(), out[j]);
    reals::lemma_quotient(real_sum_over(reading, grads, j, grads.len()), grads.len() as real);
}

} // verus!
