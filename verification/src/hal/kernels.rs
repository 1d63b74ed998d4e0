//! The kernels of a backend, and those of the host, by which all others are measured.

use super::backend::{Backend, CpuBackend};
use crate::optim::adamw;
use crate::optim::adamw::{descend_one, Blend, StepNumbers};
use crate::tensor::arith;
use crate::tensor::arith::sum;
use crate::tensor::linalg;
use crate::tensor::linalg::matmul;
use crate::tensor::number;
use crate::tensor::number::{gelu_numbers, GeluNumbers, Number};
use crate::tensor::reals;
use crate::tensor::reals::Reading;
use crate::tensor::softmax;
use crate::tensor::softmax::exponential_shares;
use vstd::prelude::*;
use vstd::slice::{slice_subrange, slice_to_vec};

verus! {

/// What a backend computes on lists of numbers.
pub trait KernelProvider<T: Number>: Backend {
    /// The sums, element by element.
    fn add_f32(&self, a: &[T], b: &[T], out: &mut [T])
        requires
            a@.len() >= old(out)@.len(),
            b@.len() >= old(out)@.len(),
    ;

    /// The products, element by element.
    fn mul_f32(&self, a: &[T], b: &[T], out: &mut [T])
        requires
            a@.len() >= old(out)@.len(),
            b@.len() >= old(out)@.len(),
    ;

    /// The elements with the other sign.
    fn neg_f32(&self, a: &[T], out: &mut [T])
        requires
            a@.len() >= old(out)@.len(),
    ;

    /// The exponentials.
    fn exp_f32(&self, a: &[T], out: &mut [T])
        requires
            a@.len() >= old(out)@.len(),
    ;

    /// The natural logarithms.
    fn log_f32(&self, a: &[T], out: &mut [T])
        requires
            a@.len() >= old(out)@.len(),
    ;

    /// The elements that are greater than zero, and zero for the others.
    fn relu_f32(&self, a: &[T], out: &mut [T])
        requires
            a@.len() >= old(out)@.len(),
    ;

    /// The Gaussian error linear units.
    fn gelu_f32(&self, a: &[T], out: &mut [T])
        requires
            a@.len() >= old(out)@.len(),
    ;

    /// The multiples.
    fn scale_f32(&self, a: &[T], scalar: T, out: &mut [T])
        requires
            a@.len() >= old(out)@.len(),
    ;

    /// The product of an `m` by `k` and a `k` by `n` matrix.
    fn matmul_f32(&self, a: &[T], b: &[T], out: &mut [T], m: usize, k: usize, n: usize)
        requires
            m * k <= a@.len(),
            k * n <= b@.len(),
            m * n <= old(out)@.len(),
    ;

    /// The products of two batches of matrices.
    #[allow(clippy::too_many_arguments)]
    fn batch_matmul_f32(
        &self,
        a: &[T],
        b: &[T],
        out: &mut [T],
        batch: usize,
        m: usize,
        k: usize,
        n: usize,
    )
        requires
            batch * (m * k) <= a@.len(),
            batch * (k * n) <= b@.len(),
            batch * (m * n) <= old(out)@.len(),
    ;

    /// The sum of all elements.
    fn sum_f32(&self, a: &[T]) -> T;

    /// The shares of every row.
    fn softmax_f32(&self, a: &[T], out: &mut [T], rows: usize, cols: usize)
        requires
            rows * cols <= a@.len(),
            rows * cols <= old(out)@.len(),
    ;

    /// The elements, with `fill_value` wherever the mask holds.
    fn masked_fill_f32(&self, a: &[T], mask: &[bool], fill_value: T, out: &mut [T])
        requires
            mask@.len() >= a@.len(),
            old(out)@.len() >= a@.len(),
    ;

    /// The sums of the first `a_len` elements with the first `b_len` others, which are used over
    /// and over.
    fn broadcast_add_f32(&self, a: &[T], b: &[T], out: &mut [T], a_len: usize, b_len: usize)
        requires
            a_len <= a@.len(),
            a_len <= old(out)@.len(),
            a_len > 0 ==> 0 < b_len <= b@.len(),
    ;

    /// The rows of `dim` elements with these numbers.
    fn embedding_lookup_f32(
        &self,
        weight: &[T],
        indices: &[usize],
        out: &mut [T],
        vocab: usize,
        dim: usize,
    )
        requires
            indices@.len() * dim <= old(out)@.len(),
            forall|i: int|
                0 <= i < indices@.len() ==> (#[trigger] indices@[i] + 1) * dim <= weight@.len(),
    ;

    /// A step down along a gradient.
    fn sgd_update_f32(&self, params: &mut [T], grad: &[T], lr: T);

    /// A step down along averages of a gradient and of its square.
    #[allow(clippy::too_many_arguments)]
    fn adam_update_f32(
        &self,
        params: &mut [T],
        grad: &[T],
        m: &mut [T],
        v: &mut [T],
        lr: T,
        beta1: T,
        beta2: T,
        eps: T,
        weight_decay: T,
        bc1: T,
        bc2: T,
    )
        requires
            grad@.len() >= old(params)@.len(),
            old(m)@.len() >= old(params)@.len(),
            old(v)@.len() >= old(params)@.len(),
    ;
}

/// Whether `y` is `x` where it is greater than zero, and else zero.
pub open spec fn is_rectified<T: Number>(x: T, y: T) -> bool {
    exists|positive: bool|
        {
            &&& #[trigger] T::is_positive.ensures((x,), positive)
            &&& y == if positive {
                x
            } else {
                T::nought()
            }
        }
}

/// The element where it is greater than zero, and else zero.
fn rectified<T: Number>(x: T) -> (y: T)
    ensures
        is_rectified(x, y),
{
    let positive: bool = x.is_positive();
    assert(T::is_positive.ensures((x,), positive));
    if positive {
        x
    } else {
        T::zero()
    }
}

/// What the hyperbolic tangent of the Gaussian error linear unit is taken of.
pub open spec fn bend<T: Number>(c: GeluNumbers<T>, x: T) -> T {
    c.root.product(x.sum(c.cube.product(x).product(x).product(x)))
}

/// Whether `y` is the Gaussian error linear unit of `x`.
pub open spec fn is_gelu<T: Number>(c: GeluNumbers<T>, x: T, y: T) -> bool {
    exists|t: T|
        {
            &&& #[trigger] T::tangent.ensures((bend(c, x),), t)
            &&& y == c.half.product(x).product(c.one.sum(t))
        }
}

/// The Gaussian error linear unit.
fn gelu_of<T: Number>(c: GeluNumbers<T>, x: T) -> (y: T)
    ensures
        is_gelu(c, x, y),
{
    let inner: T = c.root.times(x.plus(c.cube.times(x).times(x).times(x)));
    let t: T = inner.tangent();
    assert(T::tangent.ensures((bend(c, x),), t));
    c.half.times(x).times(c.one.plus(t))
}

/// Writes values over the elements from place `at`.
fn store<T: Copy>(out: &mut [T], at: usize, values: &Vec<T>)
    requires
        at + values@.len() <= old(out)@.len(),
    ensures
        final(out)@ == old(out)@.take(at as int) + values@ + old(out)@.skip(at + values@.len()),
{
    let ghost before = out@;
    let _size: usize = out.len();
    for i in 0..values.len()
        invariant
            out@.len() == before.len() == _size,
            at + values@.len() <= before.len(),
            forall|j: int| 0 <= j < at ==> #[trigger] out@[j] == before[j],
            forall|j: int| 0 <= j < i ==> #[trigger] out@[at + j] == values@[j],
            forall|j: int| at + i <= j < before.len() ==> #[trigger] out@[j] == before[j],
    {
        let ghost earlier = out@;
        out[at + i] = values[i];
        assert(out@ =~= earlier.update(at + i, values@[i as int]));
    }
    assert(out@ =~= before.take(at as int) + values@ + before.skip(at + values@.len())) by {
        assert forall|j: int| at <= j < at + values@.len() implies out@[j] == values@[j - at] by {
            assert(out@[at + (j - at)] == values@[j - at]);
        }
    }
}

/// Whether the first rows of `out` hold the shares of those of `a`, and the rest is as before.
pub open spec fn are_shared_rows<T: Number>(
    a: Seq<T>,
    before: Seq<T>,
    rows: int,
    cols: nat,
    out: Seq<T>,
) -> bool {
    &&& out.len() == before.len()
    &&& forall|r: int|
        0 <= r < rows ==> softmax::is_shared(
            linalg::piece(a, r, cols),
            #[trigger] linalg::piece(out, r, cols),
        )
    &&& out.skip(rows * cols) == before.skip(rows * cols)
}

/// The numbers of one step, but for how much is made up for their start from nothing.
pub open spec fn are_given_numbers<T: Number>(
    lr: T,
    beta1: T,
    beta2: T,
    weight_decay: T,
    bc1: T,
    bc2: T,
    numbers: StepNumbers<T>,
) -> bool {
    &&& adamw::is_blend(beta1, numbers.first)
    &&& adamw::is_blend(beta2, numbers.second)
    &&& adamw::is_decay(lr, weight_decay, numbers.decay)
    &&& numbers.bias1 == bc1
    &&& numbers.bias2 == bc2
}

/// The average of the gradient with one more.
pub open spec fn next_first<T: Number>(numbers: StepNumbers<T>, m: T, g: T) -> T {
    numbers.first.kept.product(m).sum(numbers.first.added.product(g))
}

/// The average of the square with one more.
pub open spec fn next_second<T: Number>(numbers: StepNumbers<T>, v: T, g: T) -> T {
    numbers.second.kept.product(v).sum(numbers.second.added.product(g).product(g))
}

/// A parameter after its decay.
pub open spec fn decayed_one<T: Number>(numbers: StepNumbers<T>, w: T) -> T {
    match numbers.decay {
        Some(factor) => w.product(factor),
        None => w,
    }
}

impl<T: Number> KernelProvider<T> for CpuBackend {
    fn add_f32(&self, a: &[T], b: &[T], out: &mut [T])
        ensures
            final(out)@ == Seq::new(old(out)@.len(), |i: int| a@[i].sum(b@[i])),
    {
        let n: usize = out.len();
        for i in 0..n
            invariant
                n == out@.len() == old(out)@.len(),
                n <= a@.len(),
                n <= b@.len(),
                forall|j: int| 0 <= j < i ==> #[trigger] out@[j] == a@[j].sum(b@[j]),
        {
            out[i] = a[i].plus(b[i]);
        }
        assert(out@ =~= Seq::new(n as nat, |i: int| a@[i].sum(b@[i])));
    }

    fn mul_f32(&self, a: &[T], b: &[T], out: &mut [T])
        ensures
            final(out)@ == Seq::new(old(out)@.len(), |i: int| a@[i].product(b@[i])),
    {
        let n: usize = out.len();
        for i in 0..n
            invariant
                n == out@.len() == old(out)@.len(),
                n <= a@.len(),
                n <= b@.len(),
                forall|j: int| 0 <= j < i ==> #[trigger] out@[j] == a@[j].product(b@[j]),
        {
            out[i] = a[i].times(b[i]);
        }
        assert(out@ =~= Seq::new(n as nat, |i: int| a@[i].product(b@[i])));
    }

    fn neg_f32(&self, a: &[T], out: &mut [T])
        ensures
            final(out)@.len() == old(out)@.len(),
            forall|i: int|
                0 <= i < final(out)@.len() ==> T::opposite.ensures((a@[i],), #[trigger] final(out)@[i]),
    {
        let n: usize = out.len();
        for i in 0..n
            invariant
                n == out@.len() == old(out)@.len(),
                n <= a@.len(),
                forall|j: int|
                    0 <= j < i ==> T::opposite.ensures((a@[j],), #[trigger] out@[j]),
        {
            let x: T = a[i];
            out[i] = x.opposite();
        }
    }

    fn exp_f32(&self, a: &[T], out: &mut [T])
        ensures
            final(out)@.len() == old(out)@.len(),
            forall|i: int|
                0 <= i < final(out)@.len() ==> T::exponential.ensures((a@[i],), #[trigger] final(out)@[i]),
    {
        let n: usize = out.len();
        for i in 0..n
            invariant
                n == out@.len() == old(out)@.len(),
                n <= a@.len(),
                forall|j: int|
                    0 <= j < i ==> T::exponential.ensures((a@[j],), #[trigger] out@[j]),
        {
            let x: T = a[i];
            out[i] = x.exponential();
        }
    }

    fn log_f32(&self, a: &[T], out: &mut [T])
        ensures
            final(out)@.len() == old(out)@.len(),
            forall|i: int|
                0 <= i < final(out)@.len() ==> T::logarithm.ensures((a@[i],), #[trigger] final(out)@[i]),
    {
        let n: usize = out.len();
        for i in 0..n
            invariant
                n == out@.len() == old(out)@.len(),
                n <= a@.len(),
                forall|j: int|
                    0 <= j < i ==> T::logarithm.ensures((a@[j],), #[trigger] out@[j]),
        {
            let x: T = a[i];
            out[i] = x.logarithm();
        }
    }

    fn relu_f32(&self, a: &[T], out: &mut [T])
        ensures
            final(out)@.len() == old(out)@.len(),
            forall|i: int|
                0 <= i < final(out)@.len() ==> is_rectified(a@[i], #[trigger] final(out)@[i]),
    {
        let n: usize = out.len();
        for i in 0..n
            invariant
                n == out@.len() == old(out)@.len(),
                n <= a@.len(),
                forall|j: int|
                    0 <= j < i ==> is_rectified(a@[j], #[trigger] out@[j]),
        {
            let x: T = a[i];
            out[i] = rectified(x);
        }
    }

    fn gelu_f32(&self, a: &[T], out: &mut [T])
        ensures
            final(out)@.len() == old(out)@.len(),
            exists|c: GeluNumbers<T>|
                {
                    &&& #[trigger] number::are_gelu_numbers(c)
                    &&& forall|i: int|
                        0 <= i < final(out)@.len() ==> is_gelu(c, a@[i], #[trigger] final(out)@[i])
                },
    {
        let n: usize = out.len();
        let c: GeluNumbers<T> = gelu_numbers();
        assert(number::are_gelu_numbers(c));
        for i in 0..n
            invariant
                n == out@.len() == old(out)@.len(),
                n <= a@.len(),
                forall|j: int| 0 <= j < i ==> is_gelu(c, a@[j], #[trigger] out@[j]),
        {
            out[i] = gelu_of(c, a[i]);
        }
    }

    fn scale_f32(&self, a: &[T], scalar: T, out: &mut [T])
        ensures
            final(out)@ == Seq::new(old(out)@.len(), |i: int| a@[i].product(scalar)),
    {
        let n: usize = out.len();
        for i in 0..n
            invariant
                n == out@.len() == old(out)@.len(),
                n <= a@.len(),
                forall|j: int| 0 <= j < i ==> #[trigger] out@[j] == a@[j].product(scalar),
        {
            out[i] = a[i].times(scalar);
        }
        assert(out@ =~= Seq::new(n as nat, |i: int| a@[i].product(scalar)));
    }

    fn matmul_f32(&self, a: &[T], b: &[T], out: &mut [T], m: usize, k: usize, n: usize)
        ensures
            final(out)@ == linalg::matrix_product(a@, b@, m, k, n) + old(out)@.skip(m * n),
    {
        let _size: usize = out.len();
        let product: Vec<T> = matmul(a, b, m, k, n);
        assert(product@.len() == m * n);
        store(out, 0, &product);
        assert(out@ =~= product@ + old(out)@.skip(m * n));
    }

    fn batch_matmul_f32(
        &self,
        a: &[T],
        b: &[T],
        out: &mut [T],
        batch: usize,
        m: usize,
        k: usize,
        n: usize,
    )
        ensures
            final(out)@.len() == old(out)@.len(),
            forall|i: int|
                0 <= i < batch ==> #[trigger] linalg::piece(final(out)@, i, (m * n) as nat)
                    == linalg::matrix_product(
                    linalg::piece(a@, i, (m * k) as nat),
                    linalg::piece(b@, i, (k * n) as nat),
                    m,
                    k,
                    n,
                ),
            final(out)@.skip(batch * (m * n)) == old(out)@.skip(batch * (m * n)),
    {
        let _size: usize = out.len();
        let product: Vec<T> = linalg::batch_matmul(a, b, batch, m, k, n);
        store(out, 0, &product);
        proof {
            assert(out@ =~= product@ + old(out)@.skip(batch * (m * n)));
            assert forall|i: int| 0 <= i < batch implies #[trigger] linalg::piece(
                out@,
                i,
                (m * n) as nat,
            ) == linalg::piece(product@, i, (m * n) as nat) by {
                assert(0 <= i * (m * n) && i * (m * n) + m * n <= batch * (m * n))
                    by (nonlinear_arith)
                    requires
                        0 <= i < batch,
                        0 <= m * n,
                ;
                assert(linalg::piece(out@, i, (m * n) as nat) =~= linalg::piece(
                    product@,
                    i,
                    (m * n) as nat,
                ));
            }
            assert(out@.skip(batch * (m * n)) =~= old(out)@.skip(batch * (m * n)));
        }
    }

    fn sum_f32(&self, a: &[T]) -> (number: T)
        ensures
            number == arith::total(a@),
    {
        sum(a)
    }

    fn softmax_f32(&self, a: &[T], out: &mut [T], rows: usize, cols: usize)
        ensures
            are_shared_rows(a@, old(out)@, rows as int, cols as nat, final(out)@),
    {
        let _sizes: (usize, usize) = (a.len(), out.len());
        assert(out@.skip(0) =~= old(out)@.skip(0));
        for r in 0..rows
            invariant
                rows * cols <= a@.len() == _sizes.0,
                rows * cols <= out@.len() == _sizes.1,
                old(out)@.len() == out@.len(),
                are_shared_rows(a@, old(out)@, r as int, cols as nat, out@),
        {
            proof {
                lemma_row_place(rows as int, cols as int, r as int);
            }
            let row = slice_subrange(a, r * cols, r * cols + cols);
            assert(row@ =~= linalg::piece(a@, r as int, cols as nat));
            let shares: Vec<T> = exponential_shares(row);
            let ghost before = out@;
            store(out, r * cols, &shares);
            proof {
                assert(linalg::piece(out@, r as int, cols as nat) =~= shares@);
                assert forall|q: int| 0 <= q < r implies #[trigger] linalg::piece(
                    out@,
                    q,
                    cols as nat,
                ) == linalg::piece(before, q, cols as nat) by {
                    lemma_row_place(r as int, cols as int, q);
                    assert(linalg::piece(out@, q, cols as nat) =~= linalg::piece(
                        before,
                        q,
                        cols as nat,
                    ));
                }
                assert(out@.skip((r + 1) * cols) =~= old(out)@.skip((r + 1) * cols)) by {
                    assert((r + 1) * cols == r * cols + cols) by (nonlinear_arith);
                    assert forall|j: int| (r + 1) * cols <= j < out@.len() implies out@[j]
                        == old(out)@[j] by {
                        assert(before.skip(r * cols)[j - r * cols] == old(out)@.skip(
                            r * cols,
                        )[j - r * cols]);
                    }
                }
            }
        }
    }

    fn masked_fill_f32(&self, a: &[T], mask: &[bool], fill_value: T, out: &mut [T])
        ensures
            final(out)@ == Seq::new(
                a@.len(),
                |i: int|
                    if mask@[i] {
                        fill_value
                    } else {
                        a@[i]
                    },
            ) + old(out)@.skip(a@.len() as int),
    {
        let n: usize = a.len();
        for i in 0..n
            invariant
                n == a@.len() <= mask@.len(),
                n <= out@.len() == old(out)@.len(),
                forall|j: int|
                    0 <= j < i ==> #[trigger] out@[j] == if mask@[j] {
                        fill_value
                    } else {
                        a@[j]
                    },
                forall|j: int| i <= j < out@.len() ==> #[trigger] out@[j] == old(out)@[j],
        {
            out[i] = if mask[i] {
                fill_value
            } else {
                a[i]
            };
        }
        assert(out@ =~= Seq::new(
            a@.len(),
            |i: int|
                if mask@[i] {
                    fill_value
                } else {
                    a@[i]
                },
        ) + old(out)@.skip(a@.len() as int));
    }

    fn broadcast_add_f32(&self, a: &[T], b: &[T], out: &mut [T], a_len: usize, b_len: usize)
        ensures
            final(out)@ == Seq::new(
                a_len as nat,
                |i: int| a@[i].sum(b@[i % b_len as int]),
            ) + old(out)@.skip(a_len as int),
    {
        for i in 0..a_len
            invariant
                a_len <= a@.len(),
                a_len <= out@.len() == old(out)@.len(),
                a_len > 0 ==> 0 < b_len <= b@.len(),
                forall|j: int|
                    0 <= j < i ==> #[trigger] out@[j] == a@[j].sum(b@[j % b_len as int]),
                forall|j: int| i <= j < out@.len() ==> #[trigger] out@[j] == old(out)@[j],
        {
            out[i] = a[i].plus(b[i % b_len]);
        }
        assert(out@ =~= Seq::new(
            a_len as nat,
            |i: int| a@[i].sum(b@[i % b_len as int]),
        ) + old(out)@.skip(a_len as int));
    }

    fn embedding_lookup_f32(
        &self,
        weight: &[T],
        indices: &[usize],
        out: &mut [T],
        vocab: usize,
        dim: usize,
    )
        ensures
            final(out)@.len() == old(out)@.len(),
            forall|i: int|
                0 <= i < indices@.len() ==> #[trigger] linalg::piece(final(out)@, i, dim as nat)
                    == linalg::piece(weight@, indices@[i] as int, dim as nat),
            final(out)@.skip(indices@.len() * dim) == old(out)@.skip(indices@.len() * dim),
    {
        let _sizes: (usize, usize) = (weight.len(), out.len());
        let count: usize = indices.len();
        assert(out@.skip(0) =~= old(out)@.skip(0));
        for i in 0..count
            invariant
                count == indices@.len(),
                count * dim <= out@.len() == _sizes.1,
                old(out)@.len() == out@.len(),
                weight@.len() == _sizes.0,
                forall|i: int|
                    0 <= i < indices@.len() ==> (#[trigger] indices@[i] + 1) * dim <= weight@.len(),
                forall|j: int|
                    0 <= j < i ==> #[trigger] linalg::piece(out@, j, dim as nat) == linalg::piece(
                        weight@,
                        indices@[j] as int,
                        dim as nat,
                    ),
                out@.skip(i * dim) == old(out)@.skip(i * dim),
        {
            let index: usize = indices[i];
            proof {
                lemma_row_place(count as int, dim as int, i as int);
                assert((indices@[i as int] + 1) * dim <= weight@.len());
                assert((index + 1) * dim == index * dim + dim && index * dim >= 0)
                    by (nonlinear_arith);
            }
            let row = slice_subrange(weight, index * dim, index * dim + dim);
            let copy: Vec<T> = slice_to_vec(row);
            let ghost before = out@;
            store(out, i * dim, &copy);
            proof {
                assert(linalg::piece(out@, i as int, dim as nat) =~= linalg::piece(
                    weight@,
                    index as int,
                    dim as nat,
                ));
                assert forall|q: int| 0 <= q < i implies #[trigger] linalg::piece(
                    out@,
                    q,
                    dim as nat,
                ) == linalg::piece(before, q, dim as nat) by {
                    lemma_row_place(i as int, dim as int, q);
                    assert(linalg::piece(out@, q, dim as nat) =~= linalg::piece(
                        before,
                        q,
                        dim as nat,
                    ));
                }
                assert((i + 1) * dim == i * dim + dim) by (nonlinear_arith);
                assert forall|j: int| (i + 1) * dim <= j < out@.len() implies out@[j] == old(
                    out,
                )@[j] by {
                    assert(before.skip(i * dim)[j - i * dim] == old(out)@.skip(i * dim)[j - i
                        * dim]);
                }
                assert(out@.skip((i + 1) * dim) =~= old(out)@.skip((i + 1) * dim));
            }
        }
    }

    fn sgd_update_f32(&self, params: &mut [T], grad: &[T], lr: T)
        ensures
            final(params)@ == Seq::new(
                old(params)@.len(),
                |i: int|
                    if i < grad@.len() {
                        old(params)@[i].difference(lr.product(grad@[i]))
                    } else {
                        old(params)@[i]
                    },
            ),
    {
        let n: usize = if params.len() < grad.len() {
            params.len()
        } else {
            grad.len()
        };
        let ghost before = params@;
        for i in 0..n
            invariant
                n <= grad@.len(),
                n <= params@.len() == before.len(),
                forall|j: int|
                    0 <= j < i ==> #[trigger] params@[j] == before[j].difference(
                        lr.product(grad@[j]),
                    ),
                forall|j: int| i <= j < before.len() ==> #[trigger] params@[j] == before[j],
        {
            params[i] = params[i].minus(lr.times(grad[i]));
        }
        assert(params@ =~= Seq::new(
            before.len(),
            |i: int|
                if i < grad@.len() {
                    before[i].difference(lr.product(grad@[i]))
                } else {
                    before[i]
                },
        ));
    }

    fn adam_update_f32(
        &self,
        params: &mut [T],
        grad: &[T],
        m: &mut [T],
        v: &mut [T],
        lr: T,
        beta1: T,
        beta2: T,
        eps: T,
        weight_decay: T,
        bc1: T,
        bc2: T,
    )
        ensures
            final(params)@.len() == old(params)@.len(),
            exists|numbers: StepNumbers<T>|
                {
                    &&& #[trigger] are_given_numbers(
                        lr,
                        beta1,
                        beta2,
                        weight_decay,
                        bc1,
                        bc2,
                        numbers,
                    )
                    &&& final(m)@ == Seq::new(
                        old(m)@.len(),
                        |j: int|
                            if j < old(params)@.len() {
                                next_first(numbers, old(m)@[j], grad@[j])
                            } else {
                                old(m)@[j]
                            },
                    )
                    &&& final(v)@ == Seq::new(
                        old(v)@.len(),
                        |j: int|
                            if j < old(params)@.len() {
                                next_second(numbers, old(v)@[j], grad@[j])
                            } else {
                                old(v)@[j]
                            },
                    )
                    &&& forall|j: int|
                        0 <= j < final(params)@.len() ==> adamw::is_descended(
                            lr,
                            eps,
                            numbers,
                            decayed_one(numbers, old(params)@[j]),
                            final(m)@[j],
                            final(v)@[j],
                            #[trigger] final(params)@[j],
                        )
                },
    {
        let one: T = number::one();
        let nothing: bool = weight_decay.is_zero();
        let numbers: StepNumbers<T> = StepNumbers {
            first: Blend { kept: beta1, added: one.minus(beta1) },
            second: Blend { kept: beta2, added: one.minus(beta2) },
            decay: if nothing {
                None
            } else {
                Some(one.minus(lr.times(weight_decay)))
            },
            bias1: bc1,
            bias2: bc2,
        };
        proof {
            assert(T::one.ensures((), one));
            assert(T::is_zero.ensures((weight_decay,), nothing));
            assert(are_given_numbers(lr, beta1, beta2, weight_decay, bc1, bc2, numbers));
        }
        let ghost w0 = params@;
        let ghost m0 = m@;
        let ghost v0 = v@;
        let n: usize = params.len();
        for j in 0..n
            invariant
                n == params@.len() == w0.len(),
                n <= grad@.len(),
                n <= m@.len() == m0.len(),
                n <= v@.len() == v0.len(),
                forall|q: int| 0 <= q < j ==> #[trigger] m@[q] == next_first(numbers, m0[q], grad@[q]),
                forall|q: int| j <= q < m@.len() ==> #[trigger] m@[q] == m0[q],
                forall|q: int|
                    0 <= q < j ==> #[trigger] v@[q] == next_second(numbers, v0[q], grad@[q]),
                forall|q: int| j <= q < v@.len() ==> #[trigger] v@[q] == v0[q],
                forall|q: int|
                    0 <= q < j ==> adamw::is_descended(
                        lr,
                        eps,
                        numbers,
                        decayed_one(numbers, w0[q]),
                        m@[q],
                        v@[q],
                        #[trigger] params@[q],
                    ),
                forall|q: int| j <= q < n ==> #[trigger] params@[q] == w0[q],
        {
            let g: T = grad[j];
            let w: T = match numbers.decay {
                Some(factor) => params[j].times(factor),
                None => params[j],
            };
            let first: T = numbers.first.kept.times(m[j]).plus(numbers.first.added.times(g));
            let second: T = numbers.second.kept.times(v[j]).plus(
                numbers.second.added.times(g).times(g),
            );
            m[j] = first;
            v[j] = second;
            params[j] = descend_one(lr, eps, numbers, w, first, second);
        }
        proof {
            assert(m@ =~= Seq::new(
                m0.len(),
                |j: int|
                    if j < w0.len() {
                        next_first(numbers, m0[j], grad@[j])
                    } else {
                        m0[j]
                    },
            ));
            assert(v@ =~= Seq::new(
                v0.len(),
                |j: int|
                    if j < w0.len() {
                        next_second(numbers, v0[j], grad@[j])
                    } else {
                        v0[j]
                    },
            ));
        }
    }
}

/// A row lies within the rows.
proof fn lemma_row_place(rows: int, cols: int, r: int)
    requires
        0 <= r < rows,
        cols >= 0,
    ensures
        0 <= r * cols,
        r * cols + cols <= rows * cols,
{
    assert(0 <= r * cols && r * cols + cols <= rows * cols) by (nonlinear_arith)
        requires
            0 <= r < rows,
            cols >= 0,
    ;
}

/// What the host makes of an element when it rectifies it, over real numbers: it stays where it is
/// positive, and is nothing where it is not.
pub proof fn law_host_rectifies<T: Number>(reading: Reading<T>, x: T, y: T)
    requires
        reading.is_faithful(),
        (reading.finite)(x),
        is_rectified(x, y),
    ensures
        (reading.finite)(y),
        reading.of(x) > 0real ==> reading.of(y) == reading.of(x),
        reading.of(x) <= 0real ==> reading.of(y) == 0real,
{
    let positive = choose|positive: bool|
        {
            &&& #[trigger] T::is_positive.ensures((x,), positive)
            &&& y == if positive {
                x
            } else {
                T::nought()
            }
        };
}

/// The Gaussian error linear unit of the host, over real numbers: an element is let through in
/// proportion to the exponential of its argument, against that of the opposite.
pub proof fn law_host_gelu_weighs_both_signs<T: Number>(
    reading: Reading<T>,
    c: GeluNumbers<T>,
    x: T,
    y: T,
)
    requires
        reading.is_faithful(),
        number::are_gelu_numbers(c),
        (reading.finite)(x),
        is_gelu(c, x, y),
    ensures
        (reading.finite)(y),
        reading.of(c.root) >= 0real,
        reading.of(c.root) * reading.of(c.root) * reading.half_turn == 2real,
        ({
            let u = number::real_argument(reading.of(c.root), reading.of(x));
            reading.of(y) * ((reading.exp)(u) + (reading.exp)(-u)) == reading.of(x) * (
            reading.exp)(u)
        }),
{
    let t = choose|t: T|
        {
            &&& #[trigger] T::tangent.ensures((bend(c, x),), t)
            &&& y == c.half.product(x).product(c.one.sum(t))
        };
    c.lemma_real_constants(reading);
    let r = reading.of(x);
    let u = number::real_argument(reading.of(c.root), r);
    let k = 44_715real / 1_000_000real;
    assert(((k * r) * r) * r == k * (r * r * r)) by (nonlinear_arith);
    assert(reading.reads(bend(c, x), u));
    let (up, down) = GeluNumbers::<T>::lemma_real_tangent(reading, u, bend(c, x), t);
    let z = reading.of(t);
    let half = 1real / 2real;
    let both = up + down;
    let h = half * r;
    assert((h * (1real + z)) * both == h * (both + z * both)) by (nonlinear_arith);
    assert(both + z * both == 2real * up);
    assert(h * (2real * up) == (2real * h) * up) by (nonlinear_arith);
}

/// One step of the host down along averages, over real numbers. Each average goes towards what is
/// new by what its rate leaves of one; the parameter shrinks by the decay; and it goes back by the
/// step length times the one average, over the root of the other and a small number more, both
/// made up for their start from nothing.
pub proof fn law_host_steps_follow_the_averages<T: Number>(
    reading: Reading<T>,
    lr: T,
    beta1: T,
    beta2: T,
    eps: T,
    weight_decay: T,
    bc1: T,
    bc2: T,
    numbers: StepNumbers<T>,
    w: T,
    g: T,
    m: T,
    v: T,
    after: T,
) -> (found: (real, real))
    requires
        reading.is_faithful(),
        (reading.finite)(lr),
        (reading.finite)(beta1),
        (reading.finite)(beta2),
        (reading.finite)(eps),
        (reading.finite)(weight_decay),
        (reading.finite)(bc1),
        (reading.finite)(bc2),
        (reading.finite)(w),
        (reading.finite)(g),
        (reading.finite)(m),
        (reading.finite)(v),
        0real <= reading.of(beta2) <= 1real,
        reading.of(v) >= 0real,
        reading.of(eps) > 0real,
        reading.of(bc1) > 0real,
        reading.of(bc2) > 0real,
        are_given_numbers(lr, beta1, beta2, weight_decay, bc1, bc2, numbers),
        adamw::is_descended(
            lr,
            eps,
            numbers,
            decayed_one(numbers, w),
            next_first(numbers, m, g),
            next_second(numbers, v, g),
            after,
        ),
    ensures
        (reading.finite)(after),
        reading.of(next_first(numbers, m, g)) == reading.of(beta1) * reading.of(m) + (1real
            - reading.of(beta1)) * reading.of(g),
        reading.of(next_second(numbers, v, g)) == reading.of(beta2) * reading.of(v) + (1real
            - reading.of(beta2)) * reading.of(g) * reading.of(g),
        ({
            let (first, root) = found;
            &&& first * reading.of(bc1) == reading.of(next_first(numbers, m, g))
            &&& root >= 0real
            &&& (root * root) * reading.of(bc2) == reading.of(next_second(numbers, v, g))
            &&& (reading.of(w) * (1real - reading.of(lr) * reading.of(weight_decay)) - reading.of(
                after,
            )) * (root + reading.of(eps)) == reading.of(lr) * first
        }),
{
    let one1 = choose|one: T| #[trigger]
        T::one.ensures((), one) && numbers.first.added == one.difference(beta1);
    let one2 = choose|one: T| #[trigger]
        T::one.ensures((), one) && numbers.second.added == one.difference(beta2);
    let (one3, nothing) = choose|one: T, nothing: bool|
        {
            &&& #[trigger] T::one.ensures((), one)
            &&& #[trigger] T::is_zero.ensures((weight_decay,), nothing)
            &&& numbers.decay == if nothing {
                None
            } else {
                Some(one.difference(lr.product(weight_decay)))
            }
        };
    let shrunk = decayed_one(numbers, w);
    let (first, second) = (next_first(numbers, m, g), next_second(numbers, v, g));
    let (x, l, d) = (reading.of(w), reading.of(lr), reading.of(weight_decay));
    assert(reading.reads(shrunk, x * (1real - l * d))) by {
        if nothing {
            assert(l * 0real == 0real) by (nonlinear_arith);
            assert(x * 1real == x);
        }
    }
    let (b, y, z) = (reading.of(beta2), reading.of(v), reading.of(g));
    assert(reading.reads(second, b * y + (1real - b) * z * z));
    assert(b * y >= 0real) by (nonlinear_arith)
        requires
            b >= 0real,
            y >= 0real,
    ;
    assert((1real - b) * z * z >= 0real) by {
        let (c, q) = (1real - b, z * z);
        assert(q >= 0real) by {
            assert(z * z >= 0real) by (nonlinear_arith);
        }
        assert(c * q >= 0real) by (nonlinear_arith)
            requires
                c >= 0real,
                q >= 0real,
        ;
        assert(c * z * z == c * (z * z)) by (nonlinear_arith);
    }
    let (m_hat, v_hat, root, way) = choose|m_hat: T, v_hat: T, root: T, way: T|
        {
            &&& #[trigger] T::over.ensures((first, numbers.bias1), m_hat)
            &&& #[trigger] T::over.ensures((second, numbers.bias2), v_hat)
            &&& #[trigger] T::root.ensures((v_hat,), root)
            &&& #[trigger] T::over.ensures((lr.product(m_hat), root.sum(eps)), way)
            &&& after == shrunk.difference(way)
        };
    let (c1, c2, s) = (reading.of(bc1), reading.of(bc2), reading.of(second));
    reals::lemma_quotient(reading.of(first), c1);
    reals::lemma_quotient(s, c2);
    assert(s / c2 >= 0real) by (nonlinear_arith)
        requires
            s >= 0real,
            c2 > 0real,
    ;
    let r = reading.of(root);
    reals::lemma_quotient(l * reading.of(m_hat), r + reading.of(eps));
    (reading.of(m_hat), r)
}

} // verus!
