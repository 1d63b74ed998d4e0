//! Operators that work row by row: normalisations, and the loss of a classification.

use super::arith;
use super::arith::{sum, Scalar};
use super::linalg;
use super::linalg::{dot_of, Vectors};
use super::ops;
use super::reals;
use super::reals::Reading;
use vstd::arithmetic::mul::{lemma_mul_inequality, lemma_mul_is_distributive_add_other_way};
use vstd::prelude::*;
use vstd::slice::slice_subrange;

verus! {

/// A normalisation of rows into shares that add up to one, seen from its result. A tensor with
/// one dimension is a single row, whatever its length.
#[derive(Debug, Clone, Copy, PartialEq, Eq, Structural)]
pub struct SoftmaxOp {
    pub rows: usize,
    pub cols: usize,
    pub single: bool,
}

impl SoftmaxOp {
    /// The gradient of a single row, as far as shares and gradient go.
    pub open spec fn row_gradient<T: Scalar>(&self, shares: Seq<T>, grad: Seq<T>) -> Seq<T> {
        let average = arith::total(arith::products(shares, grad));
        Seq::new(
            arith::both(shares, grad),
            |q: int| shares[q].product(grad[q].difference(average)),
        )
    }

    /// The gradient of a single row.
    fn pull_row<T: Scalar>(&self, shares: &[T], grad: &[T]) -> (out: Vec<T>)
        ensures
            out@ == self.row_gradient(shares@, grad@),
    {
        let average: T = sum(arith::mul(shares, grad).as_slice());
        let mut out: Vec<T> = Vec::new();
        let mut q: usize = 0;
        while q < shares.len() && q < grad.len()
            invariant
                q <= arith::both(shares@, grad@),
                average == arith::total(arith::products(shares@, grad@)),
                out@ == self.row_gradient(shares@, grad@).take(q as int),
            decreases shares@.len() - q,
        {
            out.push(shares[q].times(grad[q].minus(average)));
            q = q + 1;
            assert(out@ =~= self.row_gradient(shares@, grad@).take(q as int));
        }
        assert(out@ =~= self.row_gradient(shares@, grad@));
        out
    }

    /// The gradient at place `q`: the share there, times by how much the gradient of the result
    /// differs from its average over the row, weighted by the shares.
    pub open spec fn grad_at<T: Scalar>(&self, shares: Seq<T>, grad: Seq<T>, q: int) -> T {
        let r = q / self.cols as int;
        let row = linalg::rows_of(self.cols);
        shares[q].product(
            grad[q].difference(linalg::dot(shares, row, r, grad, row, r, self.cols as nat)),
        )
    }

    /// The gradient of what was normalised.
    pub open spec fn gradient<T: Scalar>(&self, shares: Seq<T>, grad: Seq<T>) -> Seq<T> {
        if self.single {
            self.row_gradient(shares, grad)
        } else {
            Seq::new(
                self.rows as nat * self.cols as nat,
                |q: int| self.grad_at(shares, grad, q),
            )
        }
    }

    /// The gradient of what was normalised.
    pub fn backward<T: Scalar>(&self, shares: &[T], grad: &[T]) -> (out: Vec<T>)
        requires
            !self.single ==> self.rows * self.cols <= arith::both(shares@, grad@),
        ensures
            out@ == self.gradient(shares@, grad@),
    {
        if self.single {
            return self.pull_row(shares, grad);
        }
        let _size: (usize, usize) = (shares.len(), grad.len());
        let row = Vectors { start: 0, outer: self.cols, inner: 1 };
        let mut out: Vec<T> = Vec::new();
        let mut r: usize = 0;
        while r < self.rows
            invariant
                r <= self.rows,
                row == linalg::rows_of(self.cols),
                self.rows * self.cols <= arith::both(shares@, grad@),
                shares@.len() == _size.0,
                grad@.len() == _size.1,
                out@.len() == r * self.cols,
                forall|q: int|
                    0 <= q < out@.len() ==> #[trigger] out@[q] == self.grad_at(shares@, grad@, q),
            decreases self.rows - r,
        {
            proof {
                lemma_row_within(self.rows as int, self.cols as int, r as int);
                assert forall|p: int| 0 <= p < self.cols implies 0 <= #[trigger] row.at(
                    r as int,
                    p,
                ) < arith::both(shares@, grad@) by {
                    ops::lemma_split_position(r as int, p, self.rows as int, self.cols as int);
                }
            }
            let average = dot_of(shares, row, r, grad, row, r, self.cols);
            let mut c: usize = 0;
            while c < self.cols
                invariant
                    c <= self.cols,
                    r < self.rows,
                    row == linalg::rows_of(self.cols),
                    shares@.len() == _size.0,
                    grad@.len() == _size.1,
                    r * self.cols + self.cols <= arith::both(shares@, grad@),
                    out@.len() == r * self.cols + c,
                    average == linalg::dot(
                        shares@,
                        row,
                        r as int,
                        grad@,
                        row,
                        r as int,
                        self.cols as nat,
                    ),
                    forall|q: int|
                        0 <= q < out@.len() ==> #[trigger] out@[q] == self.grad_at(
                            shares@,
                            grad@,
                            q,
                        ),
                decreases self.cols - c,
            {
                proof {
                    ops::lemma_split_position(
                        r as int,
                        c as int,
                        self.rows as int,
                        self.cols as int,
                    );
                }
                let q: usize = out.len();
                out.push(shares[q].times(grad[q].minus(average)));
                c = c + 1;
            }
            r = r + 1;
        }
        assert(out@ =~= Seq::new(
            self.rows as nat * self.cols as nat,
            |q: int| self.grad_at(shares@, grad@, q),
        ));
        out
    }
}

/// A row lies within its matrix, and the next one begins where it ends.
proof fn lemma_row_within(rows: int, cols: int, r: int)
    requires
        0 <= r < rows,
        0 <= cols,
    ensures
        0 <= r * cols,
        r * cols + cols == (r + 1) * cols,
        r * cols + cols <= rows * cols,
{
    lemma_mul_inequality(r + 1, rows, cols);
    lemma_mul_inequality(0, r, cols);
    lemma_mul_is_distributive_add_other_way(cols, r, 1);
}

/// The logarithm of a normalisation, seen from its result. A tensor with one dimension is a
/// single row, whatever its length.
#[derive(Debug, Clone, Copy, PartialEq, Eq, Structural)]
pub struct LogSoftmaxOp {
    pub rows: usize,
    pub cols: usize,
    pub single: bool,
}

impl LogSoftmaxOp {
    /// The gradient of a single row, as far as shares and gradient go.
    pub open spec fn row_gradient<T: Scalar>(&self, shares: Seq<T>, grad: Seq<T>) -> Seq<T> {
        Seq::new(
            arith::both(shares, grad),
            |q: int| grad[q].difference(shares[q].product(arith::total(grad))),
        )
    }

    /// The gradient of a single row.
    fn pull_row<T: Scalar>(&self, shares: &[T], grad: &[T]) -> (out: Vec<T>)
        ensures
            out@ == self.row_gradient(shares@, grad@),
    {
        let whole: T = sum(grad);
        let mut out: Vec<T> = Vec::new();
        let mut q: usize = 0;
        while q < shares.len() && q < grad.len()
            invariant
                q <= arith::both(shares@, grad@),
                whole == arith::total(grad@),
                out@ == self.row_gradient(shares@, grad@).take(q as int),
            decreases shares@.len() - q,
        {
            out.push(grad[q].minus(shares[q].times(whole)));
            q = q + 1;
            assert(out@ =~= self.row_gradient(shares@, grad@).take(q as int));
        }
        assert(out@ =~= self.row_gradient(shares@, grad@));
        out
    }

    /// The gradient at place `q`: that of the result, less the share there of the sum of the
    /// row's gradients.
    pub open spec fn grad_at<T: Scalar>(&self, shares: Seq<T>, grad: Seq<T>, q: int) -> T {
        let row = linalg::piece(grad, q / self.cols as int, self.cols as nat);
        grad[q].difference(shares[q].product(arith::total(row)))
    }

    /// The gradient of what was normalised.
    pub open spec fn gradient<T: Scalar>(&self, shares: Seq<T>, grad: Seq<T>) -> Seq<T> {
        if self.single {
            self.row_gradient(shares, grad)
        } else {
            Seq::new(
                self.rows as nat * self.cols as nat,
                |q: int| self.grad_at(shares, grad, q),
            )
        }
    }

    /// The gradient of what was normalised.
    pub fn backward<T: Scalar>(&self, shares: &[T], grad: &[T]) -> (out: Vec<T>)
        requires
            !self.single ==> self.rows * self.cols <= arith::both(shares@, grad@),
        ensures
            out@ == self.gradient(shares@, grad@),
    {
        if self.single {
            return self.pull_row(shares, grad);
        }
        let _size: (usize, usize) = (shares.len(), grad.len());
        let mut out: Vec<T> = Vec::new();
        let mut r: usize = 0;
        while r < self.rows
            invariant
                r <= self.rows,
                self.rows * self.cols <= arith::both(shares@, grad@),
                shares@.len() == _size.0,
                grad@.len() == _size.1,
                out@.len() == r * self.cols,
                forall|q: int|
                    0 <= q < out@.len() ==> #[trigger] out@[q] == self.grad_at(shares@, grad@, q),
            decreases self.rows - r,
        {
            proof {
                lemma_row_within(self.rows as int, self.cols as int, r as int);
            }
            let start: usize = out.len();
            let whole = sum(slice_subrange(grad, start, start + self.cols));
            let mut c: usize = 0;
            while c < self.cols
                invariant
                    c <= self.cols,
                    r < self.rows,
                    shares@.len() == _size.0,
                    grad@.len() == _size.1,
                    r * self.cols + self.cols <= arith::both(shares@, grad@),
                    out@.len() == r * self.cols + c,
                    whole == arith::total(linalg::piece(grad@, r as int, self.cols as nat)),
                    forall|q: int|
                        0 <= q < out@.len() ==> #[trigger] out@[q] == self.grad_at(
                            shares@,
                            grad@,
                            q,
                        ),
                decreases self.cols - c,
            {
                proof {
                    ops::lemma_split_position(
                        r as int,
                        c as int,
                        self.rows as int,
                        self.cols as int,
                    );
                }
                let q: usize = out.len();
                out.push(grad[q].minus(shares[q].times(whole)));
                c = c + 1;
            }
            r = r + 1;
        }
        assert(out@ =~= Seq::new(
            self.rows as nat * self.cols as nat,
            |q: int| self.grad_at(shares@, grad@, q),
        ));
        out
    }
}

/// The loss of a classification, seen from its result: sample `r` belongs to class
/// `targets[r]`.
#[derive(Debug, Clone, PartialEq, Eq)]
pub struct CrossEntropyLossOp {
    pub targets: Vec<usize>,
    pub classes: usize,
}

impl CrossEntropyLossOp {
    /// The gradient at place `q`: by how much the share there is off, times `factor`.
    pub open spec fn grad_at<T: Scalar>(&self, shares: Seq<T>, one: T, factor: T, q: int) -> T {
        let off = if q % self.classes as int == self.targets@[q / self.classes as int] {
            shares[q].difference(one)
        } else {
            shares[q]
        };
        off.product(factor)
    }

    /// The gradient of the scores.
    pub open spec fn gradient<T: Scalar>(&self, shares: Seq<T>, one: T, factor: T) -> Seq<T> {
        Seq::new(shares.len(), |q: int| self.grad_at(shares, one, factor, q))
    }

    /// The gradient of the scores. The wanted share is `one` for the class of the sample, and
    /// nothing for all others.
    pub fn backward<T: Scalar>(&self, shares: &[T], one: T, factor: T) -> (out: Vec<T>)
        requires
            shares@.len() == self.targets@.len() * self.classes,
        ensures
            out@ == self.gradient(shares@, one, factor),
    {
        let _size: usize = shares.len();
        let mut out: Vec<T> = Vec::new();
        let mut r: usize = 0;
        while r < self.targets.len()
            invariant
                r <= self.targets@.len(),
                shares@.len() == self.targets@.len() * self.classes,
                shares@.len() == _size,
                out@.len() == r * self.classes,
                forall|q: int|
                    0 <= q < out@.len() ==> #[trigger] out@[q] == self.grad_at(
                        shares@,
                        one,
                        factor,
                        q,
                    ),
            decreases self.targets@.len() - r,
        {
            proof {
                lemma_row_within(self.targets@.len() as int, self.classes as int, r as int);
            }
            let mut c: usize = 0;
            while c < self.classes
                invariant
                    c <= self.classes,
                    r < self.targets@.len(),
                    shares@.len() == _size,
                    r * self.classes + self.classes <= shares@.len(),
                    out@.len() == r * self.classes + c,
                    forall|q: int|
                        0 <= q < out@.len() ==> #[trigger] out@[q] == self.grad_at(
                            shares@,
                            one,
                            factor,
                            q,
                        ),
                decreases self.classes - c,
            {
                proof {
                    ops::lemma_split_position(
                        r as int,
                        c as int,
                        self.targets@.len() as int,
                        self.classes as int,
                    );
                }
                let q: usize = out.len();
                let off = if c == self.targets[r] {
                    shares[q].minus(one)
                } else {
                    shares[q]
                };
                out.push(off.times(factor));
                c = c + 1;
            }
            r = r + 1;
        }
        assert(out@ =~= Seq::new(
            shares@.len(),
            |q: int| self.grad_at(shares@, one, factor, q),
        ));
        out
    }
}

/// Why class numbers do not belong to some scores.
#[derive(Debug, Clone, Copy, PartialEq, Eq, Structural)]
pub enum TargetFault {
    Missing,
    CountMismatch { expected: usize, got: usize },
    OutOfRange { target: usize, classes: usize },
}

/// The number of samples that scores of the given dimensions are for. Scores of a single
/// sample have one dimension.
pub open spec fn sample_count(dims: Seq<usize>) -> nat {
    if dims.len() == 1 {
        1
    } else {
        dims[0] as nat
    }
}

/// The number of classes that scores of the given dimensions are for.
pub open spec fn class_count(dims: Seq<usize>) -> usize {
    if dims.len() == 1 {
        dims[0]
    } else {
        dims[1]
    }
}

/// The number of elements in each row of a tensor of the given dimensions with `len` elements.
/// A tensor with one dimension is one row of everything that it holds.
pub open spec fn row_len(dims: Seq<usize>, len: nat) -> nat {
    if dims.len() == 1 {
        len
    } else {
        dims[1] as nat
    }
}

/// The first of `targets` that is no class.
pub open spec fn first_outside(targets: Seq<usize>, classes: usize) -> Option<usize>
    decreases targets.len(),
{
    if targets.len() == 0 {
        None
    } else if first_outside(targets.drop_last(), classes) is Some {
        first_outside(targets.drop_last(), classes)
    } else if targets.last() >= classes {
        Some(targets.last())
    } else {
        None
    }
}

/// Why `targets` do not belong to scores of the given dimensions, if they do not. Of the class
/// numbers for a single sample only the first one counts.
pub open spec fn target_fault(dims: Seq<usize>, targets: Seq<usize>) -> Option<TargetFault> {
    let classes = class_count(dims);
    if dims.len() == 1 && targets.len() == 0 {
        Some(TargetFault::Missing)
    } else if dims.len() > 1 && targets.len() != dims[0] {
        Some(TargetFault::CountMismatch { expected: dims[0], got: targets.len() as usize })
    } else {
        match first_outside(targets.take(sample_count(dims) as int), classes) {
            Some(target) => Some(TargetFault::OutOfRange { target, classes }),
            None => None,
        }
    }
}

/// The classes of all samples.
pub fn wanted_classes(dims: &[usize], targets: &[usize]) -> (result: Result<
    Vec<usize>,
    TargetFault,
>)
    requires
        dims@.len() >= 1,
    ensures
        result is Ok <==> target_fault(dims@, targets@) is None,
        result matches Err(e) ==> target_fault(dims@, targets@) == Some(e),
        result matches Ok(wanted) ==> {
            &&& wanted@ == targets@.take(sample_count(dims@) as int)
            &&& wanted@.len() == sample_count(dims@)
            &&& forall|r: int|
                0 <= r < wanted@.len() ==> (#[trigger] wanted@[r]) < class_count(dims@)
        },
{
    let single: bool = dims.len() == 1;
    if single && targets.len() == 0 {
        return Err(TargetFault::Missing);
    }
    if !single && targets.len() != dims[0] {
        return Err(TargetFault::CountMismatch { expected: dims[0], got: targets.len() });
    }
    let samples: usize = if single {
        1
    } else {
        dims[0]
    };
    let classes: usize = if single {
        dims[0]
    } else {
        dims[1]
    };
    let ghost relevant = targets@.take(samples as int);
    let mut wanted: Vec<usize> = Vec::new();
    let mut r: usize = 0;
    assert(relevant.take(0) =~= Seq::<usize>::empty());
    while r < samples
        invariant
            r <= samples <= targets@.len(),
            dims@.len() >= 1,
            samples == sample_count(dims@),
            classes == class_count(dims@),
            dims@.len() > 1 ==> targets@.len() == dims@[0],
            relevant == targets@.take(samples as int),
            first_outside(relevant.take(r as int), classes) is None,
            wanted@ == relevant.take(r as int),
            forall|j: int| 0 <= j < r ==> (#[trigger] wanted@[j]) < classes,
        ensures
            r == samples,
        decreases samples - r,
    {
        assert(relevant.take(r + 1).drop_last() =~= relevant.take(r as int));
        if targets[r] >= classes {
            proof {
                lemma_outside_stays(relevant, classes, r + 1);
            }
            return Err(TargetFault::OutOfRange { target: targets[r], classes });
        }
        wanted.push(targets[r]);
        r = r + 1;
        assert(wanted@ =~= relevant.take(r as int));
    }
    assert(relevant.take(r as int) =~= relevant);
    Ok(wanted)
}

/// What comes later does not change the first number that is no class.
proof fn lemma_outside_stays(targets: Seq<usize>, classes: usize, n: int)
    requires
        0 <= n <= targets.len(),
        first_outside(targets.take(n), classes) is Some,
    ensures
        first_outside(targets, classes) == first_outside(targets.take(n), classes),
    decreases targets.len(),
{
    if n == targets.len() {
        assert(targets.take(n) =~= targets);
    } else {
        assert(targets.drop_last().take(n) =~= targets.take(n));
        lemma_outside_stays(targets.drop_last(), classes, n);
    }
}

/// Some lists, one after the other.
pub open spec fn joined<T>(parts: Seq<Vec<T>>) -> Seq<T>
    decreases parts.len(),
{
    if parts.len() == 0 {
        Seq::empty()
    } else {
        joined(parts.drop_last()) + parts.last()@
    }
}

/// Whether `f` can make `image` of row `r`.
pub open spec fn is_row_image<T, F: Fn(&[T]) -> Vec<T>>(
    f: F,
    data: Seq<T>,
    cols: usize,
    r: int,
    image: Vec<T>,
) -> bool {
    exists|row: &[T]|
        {
            &&& row@ == linalg::piece(data, r, cols as nat)
            &&& #[trigger] f.ensures((row,), image)
        }
}

/// Hands each of `rows` rows to `f`, and joins what comes back.
pub fn map_rows<T: Copy, F: Fn(&[T]) -> Vec<T>>(
    data: &[T],
    rows: usize,
    cols: usize,
    f: &F,
) -> (out: Vec<T>)
    requires
        rows * cols <= data@.len(),
        forall|row: &[T]| row@.len() == cols ==> #[trigger] f.requires((row,)),
    ensures
        exists|images: Seq<Vec<T>>|
            {
                &&& images.len() == rows
                &&& forall|r: int|
                    0 <= r < rows ==> is_row_image(*f, data@, cols, r, #[trigger] images[r])
                &&& out@ == #[trigger] joined(images)
            },
{
    let _size: usize = data.len();
    let mut out: Vec<T> = Vec::new();
    let ghost mut images: Seq<Vec<T>> = Seq::empty();
    let mut r: usize = 0;
    while r < rows
        invariant
            r <= rows,
            rows * cols <= data@.len() == _size,
            forall|row: &[T]| row@.len() == cols ==> #[trigger] f.requires((row,)),
            images.len() == r,
            forall|j: int|
                0 <= j < r ==> is_row_image(*f, data@, cols, j, #[trigger] images[j]),
            out@ == joined(images),
        decreases rows - r,
    {
        proof {
            lemma_row_within(rows as int, cols as int, r as int);
        }
        let row = slice_subrange(data, r * cols, r * cols + cols);
        let image: Vec<T> = f(row);
        proof {
            assert(row@ =~= linalg::piece(data@, r as int, cols as nat));
            assert(is_row_image(*f, data@, cols, r as int, image));
            assert(images.push(image).drop_last() =~= images);
        }
        let mut c: usize = 0;
        while c < image.len()
            invariant
                c <= image@.len(),
                out@ == joined(images) + image@.take(c as int),
            decreases image@.len() - c,
        {
            out.push(image[c]);
            c = c + 1;
            assert(out@ =~= joined(images) + image@.take(c as int));
        }
        proof {
            assert(image@.take(c as int) =~= image@);
            images = images.push(image);
        }
        r = r + 1;
    }
    out
}

/// Sums over a row of a gradient that was spread by shares.
proof fn lemma_share_pulls(
    n: nat,
    s: spec_fn(int) -> real,
    g: spec_fn(int) -> real,
    o: spec_fn(int) -> real,
)
    requires
        reals::sum_to(n, s) == 1real,
        forall|i: int|
            0 <= i < n ==> #[trigger] o(i) == s(i) * (g(i) - reals::sum_to(
                n,
                |j: int| s(j) * g(j),
            )),
    ensures
        reals::sum_to(n, o) == 0real,
        forall|i: int, j: int|
            0 <= i < n && 0 <= j < n ==> #[trigger] o(i) * s(j) - #[trigger] o(j) * s(i) == (s(i)
                * s(j)) * (g(i) - g(j)),
{
    let both = |j: int| s(j) * g(j);
    let a = reals::sum_to(n, both);
    let less = |j: int| (-a) * s(j);
    reals::lemma_same_sum(n, both, |j: int| s(j) * g(j));
    reals::lemma_sum_of_multiples(n, -a, s, less);
    assert forall|i: int| 0 <= i < n implies #[trigger] o(i) == both(i) + less(i) by {
        let (x, y) = (s(i), g(i));
        assert(x * (y - a) == x * y + (-a) * x) by (nonlinear_arith);
    }
    reals::lemma_sum_of_sums(n, both, less, o);
    assert((-a) * 1real == -a);
    assert forall|i: int, j: int| 0 <= i < n && 0 <= j < n implies #[trigger] o(i) * s(j)
        - #[trigger] o(j) * s(i) == (s(i) * s(j)) * (g(i) - g(j)) by {
        let (x, y, u, v) = (s(i), s(j), g(i), g(j));
        assert((x * (u - a)) * y - (y * (v - a)) * x == (x * y) * (u - v)) by (nonlinear_arith);
    }
}

/// Sums over a row of a gradient of the logarithms of shares.
proof fn lemma_log_pulls(
    n: nat,
    s: spec_fn(int) -> real,
    g: spec_fn(int) -> real,
    o: spec_fn(int) -> real,
)
    requires
        reals::sum_to(n, s) == 1real,
        forall|i: int| 0 <= i < n ==> #[trigger] o(i) == g(i) - s(i) * reals::sum_to(n, g),
    ensures
        reals::sum_to(n, o) == 0real,
        forall|i: int, j: int|
            0 <= i < n && 0 <= j < n ==> (g(i) - #[trigger] o(i)) * s(j) == (g(j) - #[trigger] o(
                j,
            )) * s(i),
{
    let a = reals::sum_to(n, g);
    let less = |j: int| (-a) * s(j);
    reals::lemma_sum_of_multiples(n, -a, s, less);
    assert forall|i: int| 0 <= i < n implies #[trigger] o(i) == g(i) + less(i) by {
        let x = s(i);
        assert(x * a == -((-a) * x)) by (nonlinear_arith);
    }
    reals::lemma_sum_of_sums(n, g, less, o);
    assert((-a) * 1real == -a);
    assert forall|i: int, j: int| 0 <= i < n && 0 <= j < n implies (g(i) - #[trigger] o(i)) * s(j)
        == (g(j) - #[trigger] o(j)) * s(i) by {
        let (x, y) = (s(i), s(j));
        assert((x * a) * y == (y * a) * x) by (nonlinear_arith);
    }
}

/// Where a row starts: a single row starts at the beginning.
pub open spec fn row_start(single: bool, cols: usize, r: int) -> int {
    if single {
        0
    } else {
        r * cols
    }
}

/// The length of a row: that of the whole list, where there is a single row.
pub open spec fn row_size(single: bool, cols: usize, len: nat) -> nat {
    if single {
        len
    } else {
        cols as nat
    }
}

/// The real numbers of a list from some place on.
pub open spec fn reals_from<T>(reading: Reading<T>, list: Seq<T>, start: int) -> spec_fn(
    int,
) -> real {
    |c: int| reading.at(list, start + c)
}

/// A row lies where it should.
proof fn lemma_row_place(single: bool, rows: usize, cols: usize, len: nat, r: int)
    requires
        !single ==> rows * cols <= len,
        0 <= r < rows,
        single ==> r == 0,
    ensures
        0 <= row_start(single, cols, r),
        row_start(single, cols, r) + row_size(single, cols, len) <= len,
        !single ==> forall|c: int|
            #![trigger row_start(single, cols, r) + c]
            0 <= c < cols ==> 0 <= row_start(single, cols, r) + c < rows * cols && (row_start(
                single,
                cols,
                r,
            ) + c) / (cols as int) == r,
{
    if !single {
        lemma_row_within(rows as int, cols as int, r);
        assert forall|c: int|
            #![trigger row_start(single, cols, r) + c]
            0 <= c < cols implies 0 <= row_start(single, cols, r) + c < rows * cols && (row_start(
            single,
            cols,
            r,
        ) + c) / (cols as int) == r by {
            ops::lemma_split_position(r, c, rows as int, cols as int);
        }
    }
}

/// The gradient of scores that were shared out, over real numbers: within a row it adds up to
/// nothing, since the shares always add up to one; and a score gains on another as far as the
/// gradient of its share does, by both shares.
pub proof fn law_shares_gain_at_the_cost_of_others<T: Scalar>(
    reading: Reading<T>,
    op: SoftmaxOp,
    shares: Seq<T>,
    grad: Seq<T>,
    r: int,
)
    requires
        reading.is_ring(),
        shares.len() == grad.len(),
        !op.single ==> op.rows * op.cols <= shares.len(),
        reading.all_finite(shares),
        reading.all_finite(grad),
        0 <= r < op.rows,
        op.single ==> r == 0,
        reals::sum_to(
            row_size(op.single, op.cols, shares.len()),
            reals_from(reading, shares, row_start(op.single, op.cols, r)),
        ) == 1real,
    ensures
        op.gradient(shares, grad).len() == if op.single {
            shares.len()
        } else {
            op.rows as nat * op.cols as nat
        },
        ({
            let (start, n) = (
                row_start(op.single, op.cols, r),
                row_size(op.single, op.cols, shares.len()),
            );
            let (s, g, o) = (
                reals_from(reading, shares, start),
                reals_from(reading, grad, start),
                reals_from(reading, op.gradient(shares, grad), start),
            );
            &&& reals::sum_to(n, o) == 0real
            &&& forall|i: int, j: int|
                0 <= i < n && 0 <= j < n ==> #[trigger] o(i) * s(j) - #[trigger] o(j) * s(i) == (
                s(i) * s(j)) * (g(i) - g(j))
        }),
{
    let out = op.gradient(shares, grad);
    let (start, n) = (
        row_start(op.single, op.cols, r),
        row_size(op.single, op.cols, shares.len()),
    );
    lemma_row_place(op.single, op.rows, op.cols, shares.len(), r);
    let (s, g, o) = (
        reals_from(reading, shares, start),
        reals_from(reading, grad, start),
        reals_from(reading, out, start),
    );
    let whole = reals::sum_to(n, |j: int| s(j) * g(j));
    let average = if op.single {
        arith::total(arith::products(shares, grad))
    } else {
        linalg::dot(
            shares,
            linalg::rows_of(op.cols),
            r,
            grad,
            linalg::rows_of(op.cols),
            r,
            op.cols as nat,
        )
    };
    assert(reading.reads(average, whole)) by {
        if op.single {
            let list = arith::products(shares, grad);
            assert forall|j: int| 0 <= j < list.len() implies reading.reads(
                #[trigger] list[j],
                s(j) * g(j),
            ) by {
                assert((reading.finite)(shares[j]) && (reading.finite)(grad[j]));
            }
            reading.lemma_total(list);
            reals::lemma_same_sum(
                n,
                |j: int| reading.at(list, j),
                |j: int| s(j) * g(j),
            );
        } else {
            let row = linalg::rows_of(op.cols);
            assert forall|p: int| 0 <= p < n implies (#[trigger] row.at(r, p)) == start + p
                && 0 <= start + p < shares.len() by {}
            assert forall|p: int| 0 <= p < n implies (reading.finite)(
                shares[#[trigger] row.at(r, p)],
            ) by {}
            assert forall|p: int| 0 <= p < n implies (reading.finite)(
                grad[#[trigger] row.at(r, p)],
            ) by {}
            reading.lemma_dot(shares, row, r, grad, row, r, n);
            let named = |p: int| reading.at(shares, row.at(r, p)) * reading.at(grad, row.at(r, p));
            assert forall|j: int| 0 <= j < n implies #[trigger] named(j) == s(j) * g(j) by {
                assert(row.at(r, j) == start + j);
            }
            reals::lemma_same_sum(n, named, |j: int| s(j) * g(j));
        }
    }
    assert forall|i: int| 0 <= i < n implies #[trigger] o(i) == s(i) * (g(i) - whole) by {
        let q = start + i;
        assert((reading.finite)(shares[q]) && (reading.finite)(grad[q]));
        assert(out[q] == shares[q].product(grad[q].difference(average)));
    }
    lemma_share_pulls(n, s, g, o);
}

/// The gradient of scores whose shares were taken the logarithm of, over real numbers: within a
/// row it adds up to nothing; and what each score loses of its own gradient is in proportion to
/// its share.
pub proof fn law_logarithms_lose_in_proportion<T: Scalar>(
    reading: Reading<T>,
    op: LogSoftmaxOp,
    shares: Seq<T>,
    grad: Seq<T>,
    r: int,
)
    requires
        reading.is_ring(),
        shares.len() == grad.len(),
        !op.single ==> op.rows * op.cols <= shares.len(),
        reading.all_finite(shares),
        reading.all_finite(grad),
        0 <= r < op.rows,
        op.single ==> r == 0,
        reals::sum_to(
            row_size(op.single, op.cols, shares.len()),
            reals_from(reading, shares, row_start(op.single, op.cols, r)),
        ) == 1real,
    ensures
        op.gradient(shares, grad).len() == if op.single {
            shares.len()
        } else {
            op.rows as nat * op.cols as nat
        },
        ({
            let (start, n) = (
                row_start(op.single, op.cols, r),
                row_size(op.single, op.cols, shares.len()),
            );
            let (s, g, o) = (
                reals_from(reading, shares, start),
                reals_from(reading, grad, start),
                reals_from(reading, op.gradient(shares, grad), start),
            );
            &&& reals::sum_to(n, o) == 0real
            &&& forall|i: int, j: int|
                0 <= i < n && 0 <= j < n ==> (g(i) - #[trigger] o(i)) * s(j) == (g(j)
                    - #[trigger] o(j)) * s(i)
        }),
{
    let out = op.gradient(shares, grad);
    let (start, n) = (
        row_start(op.single, op.cols, r),
        row_size(op.single, op.cols, shares.len()),
    );
    lemma_row_place(op.single, op.rows, op.cols, shares.len(), r);
    let (s, g, o) = (
        reals_from(reading, shares, start),
        reals_from(reading, grad, start),
        reals_from(reading, out, start),
    );
    let row = if op.single {
        grad
    } else {
        linalg::piece(grad, r, op.cols as nat)
    };
    assert(row.len() == n);
    assert forall|j: int| 0 <= j < n implies #[trigger] row[j] == grad[start + j] && (
    reading.finite)(row[j]) by {
        assert((reading.finite)(grad[start + j]));
    }
    reading.lemma_total(row);
    reals::lemma_same_sum(n, |j: int| reading.at(row, j), g);
    assert forall|i: int| 0 <= i < n implies #[trigger] o(i) == g(i) - s(i) * reals::sum_to(
        n,
        g,
    ) by {
        let q = start + i;
        assert((reading.finite)(shares[q]) && (reading.finite)(grad[q]));
        assert(out[q] == grad[q].difference(shares[q].product(arith::total(row))));
    }
    lemma_log_pulls(n, s, g, o);
}

/// The gradient of the scores of a classification, over real numbers: every class is pushed by
/// its share times `factor`, and that of the sample is pulled back by `factor` as a whole.
pub proof fn law_scores_are_pushed_by_their_shares<T: Scalar>(
    reading: Reading<T>,
    op: CrossEntropyLossOp,
    shares: Seq<T>,
    one: T,
    factor: T,
    r: int,
    c: int,
)
    requires
        reading.is_ring(),
        shares.len() == op.targets@.len() * op.classes,
        reading.all_finite(shares),
        reading.reads(one, 1real),
        (reading.finite)(factor),
        0 <= r < op.targets@.len(),
        0 <= c < op.classes,
    ensures
        op.gradient(shares, one, factor).len() == shares.len(),
        reading.at(op.gradient(shares, one, factor), r * op.classes + c) == reading.at(
            shares,
            r * op.classes + c,
        ) * reading.of(factor) - if c == op.targets@[r] {
            reading.of(factor)
        } else {
            0real
        },
{
    ops::lemma_split_position(r, c, op.targets@.len() as int, op.classes as int);
    let q = r * op.classes + c;
    assert((reading.finite)(shares[q]));
    let (s, f) = (reading.at(shares, q), reading.of(factor));
    assert((s - 1real) * f == s * f - f) by (nonlinear_arith);
}

} // verus!
