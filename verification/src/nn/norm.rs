//! Normalisation of rows: each is brought to a common spread, around its mean or around zero.

use crate::tensor::arith;
use crate::tensor::arith::{add_up_at, sum, Scalar};
use crate::tensor::linalg;
use crate::tensor::number;
use crate::tensor::number::{inverse_root, part, Number};
use crate::tensor::reals;
use crate::tensor::reals::Reading;
use vstd::prelude::*;
use vstd::slice::slice_subrange;

verus! {

/// What one row is normalised by.
#[derive(Debug, Clone, Copy, PartialEq, Eq)]
pub struct RowSpread<T> {
    /// What is taken away from each element.
    pub center: T,
    /// The mean of the squares of what is left.
    pub variance: T,
    /// What is left is multiplied by this.
    pub inverse: T,
}

/// Rows of `dim` elements; whether they are moved to their mean before they are spread.
#[derive(Debug, Clone, Copy, PartialEq, Eq, Structural)]
pub struct RowNorm {
    pub dim: usize,
    pub centred: bool,
}

/// Normalised rows, and what each was normalised by.
#[derive(Debug, Clone, PartialEq, Eq)]
pub struct Normalized<T> {
    pub values: Vec<T>,
    pub spreads: Vec<RowSpread<T>>,
}

/// The gradients of the rows, of the gain and of the shift.
#[derive(Debug, Clone, PartialEq, Eq)]
pub struct NormGradients<T> {
    pub input: Vec<T>,
    pub gain: Vec<T>,
    pub shift: Vec<T>,
}

/// How far the gradient of a row points to all its elements alike, and along the row.
pub struct RowPull<T> {
    pub mean: T,
    pub along: T,
}

/// The squares of the distances from `center`.
pub open spec fn squares<T: Scalar>(row: Seq<T>, center: T) -> Seq<T> {
    row.map_values(|x: T| x.difference(center).product(x.difference(center)))
}

impl RowNorm {
    /// How many of `len` elements lie in whole rows.
    pub open spec fn whole(self, len: nat) -> nat {
        len / self.dim as nat * self.dim as nat
    }

    /// Whether a row is normalised by `spread`: what is left of it without its mean, or without
    /// anything, is multiplied by one over the root of the variance and a small number more.
    pub open spec fn is_spread<T: Number>(self, row: Seq<T>, eps: T, spread: RowSpread<T>) -> bool {
        &&& if self.centred {
            number::is_part(arith::total(row), row.len(), spread.center)
        } else {
            spread.center == T::nought()
        }
        &&& number::is_part(
            arith::total(squares(row, spread.center)),
            row.len(),
            spread.variance,
        )
        &&& number::is_inverse_root(spread.variance.sum(eps), spread.inverse)
    }

    /// The normalised element at place `q`.
    pub open spec fn normalized_at<T: Scalar>(
        self,
        data: Seq<T>,
        spreads: Seq<RowSpread<T>>,
        q: int,
    ) -> T {
        let spread = spreads[q / self.dim as int];
        data[q].difference(spread.center).product(spread.inverse)
    }

    /// Whether `out` holds the rows of `data` normalised. Elements behind the last whole row become
    /// zero.
    pub open spec fn normalizes<T: Number>(
        self,
        data: Seq<T>,
        eps: T,
        out: Normalized<T>,
    ) -> bool {
        &&& out.spreads@.len() == data.len() / self.dim as nat
        &&& forall|r: int|
            0 <= r < out.spreads@.len() ==> self.is_spread(
                linalg::piece(data, r, self.dim as nat),
                eps,
                #[trigger] out.spreads@[r],
            )
        &&& out.values@ == Seq::new(
            data.len(),
            |q: int|
                if q < self.whole(data.len()) {
                    self.normalized_at(data, out.spreads@, q)
                } else {
                    T::nought()
                },
        )
    }

    /// Normalises rows.
    pub fn normalize<T: Number>(&self, data: &[T], eps: T) -> (out: Normalized<T>)
        requires
            self.dim > 0,
        ensures
            self.normalizes(data@, eps, out),
    {
        let size: usize = data.len();
        let dim: usize = self.dim;
        let rows: usize = size / dim;
        let mut spreads: Vec<RowSpread<T>> = Vec::new();
        for r in 0..rows
            invariant
                dim == self.dim > 0,
                rows == size / dim,
                size == data@.len(),
                spreads@.len() == r,
                forall|i: int|
                    0 <= i < r ==> self.is_spread(
                        linalg::piece(data@, i, dim as nat),
                        eps,
                        #[trigger] spreads@[i],
                    ),
        {
            proof {
                lemma_row_within(size as int, dim as int, r as int);
            }
            let row = slice_subrange(data, r * dim, r * dim + dim);
            assert(row@ =~= linalg::piece(data@, r as int, dim as nat));
            let center: T = if self.centred {
                part(sum(row), dim as u64)
            } else {
                T::zero()
            };
            let mut list: Vec<T> = Vec::new();
            for i in 0..row.len()
                invariant
                    list@ == squares(row@, center).take(i as int),
            {
                let distance: T = row[i].minus(center);
                list.push(distance.times(distance));
                assert(list@ =~= squares(row@, center).take(i + 1));
            }
            assert(list@ =~= squares(row@, center));
            let variance: T = part(sum(list.as_slice()), dim as u64);
            let inverse: T = inverse_root(variance.plus(eps));
            spreads.push(RowSpread { center, variance, inverse });
        }
        proof {
            lemma_whole_rows(size as int, dim as int);
        }
        let whole: usize = rows * dim;
        let mut values: Vec<T> = Vec::new();
        for q in 0..size
            invariant
                dim == self.dim > 0,
                size == data@.len(),
                whole == self.whole(size as nat),
                spreads@.len() == size / dim,
                values@.len() == q,
                forall|p: int|
                    0 <= p < q ==> #[trigger] values@[p] == if p < whole {
                        self.normalized_at(data@, spreads@, p)
                    } else {
                        T::nought()
                    },
        {
            if q < whole {
                proof {
                    lemma_row_of_place(size as int, dim as int, q as int);
                }
                let spread: RowSpread<T> = spreads[q / dim];
                values.push(data[q].minus(spread.center).times(spread.inverse));
            } else {
                values.push(T::zero());
            }
        }
        let out = Normalized { values, spreads };
        assert(out.values@ =~= Seq::new(
            data@.len(),
            |q: int|
                if q < self.whole(data@.len()) {
                    self.normalized_at(data@, out.spreads@, q)
                } else {
                    T::nought()
                },
        ));
        out
    }

    /// The element at place `q` of normalised rows that are stretched by `gain` and moved by
    /// `shift`.
    pub open spec fn stretched<T: Scalar>(
        self,
        values: Seq<T>,
        gain: Seq<T>,
        shift: Seq<T>,
        q: int,
    ) -> T {
        let c = q % self.dim as int;
        gain[c].product(values[q]).sum(shift[c])
    }

    /// Normalised rows, stretched and moved. Elements behind the last whole row become zero.
    pub open spec fn all_stretched<T: Scalar>(
        self,
        values: Seq<T>,
        gain: Seq<T>,
        shift: Seq<T>,
    ) -> Seq<T> {
        Seq::new(
            values.len(),
            |q: int|
                if q < self.whole(values.len()) {
                    self.stretched(values, gain, shift, q)
                } else {
                    T::nought()
                },
        )
    }

    /// Normalises rows, and stretches and moves them. Elements behind the last whole row become
    /// zero.
    pub fn layer_norm<T: Number>(&self, data: &[T], gain: &[T], shift: &[T], eps: T) -> (out: (
        Vec<T>,
        Normalized<T>,
    ))
        requires
            self.dim > 0,
            data@.len() >= self.dim ==> self.dim <= gain@.len() && self.dim <= shift@.len(),
        ensures
            self.normalizes(data@, eps, out.1),
            out.0@ == self.all_stretched(out.1.values@, gain@, shift@),
    {
        let normalized: Normalized<T> = self.normalize(data, eps);
        let size: usize = data.len();
        let dim: usize = self.dim;
        proof {
            lemma_whole_rows(size as int, dim as int);
        }
        let whole: usize = size / dim * dim;
        let mut stretched: Vec<T> = Vec::new();
        for q in 0..size
            invariant
                dim == self.dim > 0,
                size == data@.len() == normalized.values@.len(),
                whole == self.whole(size as nat) <= size,
                size >= dim ==> dim <= gain@.len() && dim <= shift@.len(),
                size < dim ==> whole == 0,
                stretched@.len() == q,
                forall|p: int|
                    0 <= p < q ==> #[trigger] stretched@[p] == if p < whole {
                        self.stretched(normalized.values@, gain@, shift@, p)
                    } else {
                        T::nought()
                    },
        {
            if q < whole {
                let c: usize = q % dim;
                stretched.push(gain[c].times(normalized.values[q]).plus(shift[c]));
            } else {
                stretched.push(T::zero());
            }
        }
        assert(stretched@ =~= self.all_stretched(normalized.values@, gain@, shift@));
        (stretched, normalized)
    }

    /// The gradient of the normalised elements of whole rows: that of the result by the gain.
    pub open spec fn pulled<T: Scalar>(self, grad: Seq<T>, gain: Seq<T>) -> Seq<T> {
        Seq::new(self.whole(grad.len()), |q: int| grad[q].product(gain[q % self.dim as int]))
    }

    /// Whether `pull` is that of row `r`.
    pub open spec fn is_pull<T: Number>(
        self,
        pulled: Seq<T>,
        values: Seq<T>,
        r: int,
        pull: RowPull<T>,
    ) -> bool {
        let row = linalg::piece(pulled, r, self.dim as nat);
        &&& if self.centred {
            number::is_part(arith::total(row), self.dim as nat, pull.mean)
        } else {
            pull.mean == T::nought()
        }
        &&& number::is_part(
            arith::total(arith::products(row, linalg::piece(values, r, self.dim as nat))),
            self.dim as nat,
            pull.along,
        )
    }

    /// The gradient of the element at place `q`: what is left of its own without what points
    /// to all elements alike and without what points along the row.
    pub open spec fn input_gradient<T: Scalar>(
        self,
        pulled: Seq<T>,
        values: Seq<T>,
        spreads: Seq<RowSpread<T>>,
        pulls: Seq<RowPull<T>>,
        q: int,
    ) -> T {
        let r = q / self.dim as int;
        spreads[r].inverse.product(
            pulled[q].difference(pulls[r].mean).difference(values[q].product(pulls[r].along)),
        )
    }

    /// The gradients of `len` elements: zero behind the last whole row.
    pub open spec fn input_gradients<T: Scalar>(
        self,
        len: nat,
        pulled: Seq<T>,
        values: Seq<T>,
        spreads: Seq<RowSpread<T>>,
        pulls: Seq<RowPull<T>>,
    ) -> Seq<T> {
        Seq::new(
            len,
            |q: int|
                if q < pulled.len() {
                    self.input_gradient(pulled, values, spreads, pulls, q)
                } else {
                    T::nought()
                },
        )
    }

    /// The place within its row of each of `len` elements.
    pub open spec fn columns(self, len: nat) -> Seq<usize> {
        Seq::new(len, |q: int| (q % self.dim as int) as usize)
    }

    /// The sum of the elements at place `p` of the rows that the first `n` elements make up.
    pub open spec fn landed<T: Scalar>(self, list: Seq<T>, n: nat, p: int) -> T {
        arith::landed(list.take(n as int), self.columns(n), p, n)
    }

    /// Whether `out` holds the gradients of the input, the gain and the shift.
    pub open spec fn pulls_back<T: Number>(
        self,
        grad: Seq<T>,
        normalized: Normalized<T>,
        gain: Seq<T>,
        out: NormGradients<T>,
    ) -> bool {
        &&& out.gain@ == Seq::new(
            self.dim as nat,
            |p: int|
                self.landed(
                    arith::products(grad, normalized.values@),
                    self.whole(grad.len()),
                    p,
                ),
        )
        &&& out.shift@ == Seq::new(
            self.dim as nat,
            |p: int| self.landed(grad, self.whole(grad.len()), p),
        )
        &&& exists|pulls: Seq<RowPull<T>>|
            {
                &&& pulls.len() == grad.len() / self.dim as nat
                &&& forall|r: int|
                    0 <= r < pulls.len() ==> self.is_pull(
                        self.pulled(grad, gain),
                        normalized.values@,
                        r,
                        #[trigger] pulls[r],
                    )
                &&& out.input@ == #[trigger] self.input_gradients(
                    grad.len(),
                    self.pulled(grad, gain),
                    normalized.values@,
                    normalized.spreads@,
                    pulls,
                )
            }
    }

    /// The gradients of the input, the gain and the shift, from that of the result, which was
    /// the normalised rows by the gain and with the shift added.
    pub fn backward<T: Number>(
        &self,
        grad: &[T],
        normalized: &Normalized<T>,
        gain: &[T],
    ) -> (out: NormGradients<T>)
        requires
            self.dim > 0,
            grad@.len() >= self.dim ==> self.dim <= gain@.len(),
            self.whole(grad@.len()) <= normalized.values@.len(),
            grad@.len() / self.dim as nat <= normalized.spreads@.len(),
        ensures
            self.pulls_back(grad@, *normalized, gain@, out),
    {
        let size: usize = grad.len();
        let dim: usize = self.dim;
        let rows: usize = size / dim;
        let values: &Vec<T> = &normalized.values;
        let spreads: &Vec<RowSpread<T>> = &normalized.spreads;
        proof {
            lemma_whole_rows(size as int, dim as int);
        }
        let whole: usize = rows * dim;
        let mut pulled: Vec<T> = Vec::new();
        let mut columns: Vec<usize> = Vec::new();
        for q in 0..whole
            invariant
                dim == self.dim > 0,
                size == grad@.len(),
                whole == self.whole(size as nat) <= size,
                whole > 0 ==> dim <= gain@.len(),
                pulled@ == self.pulled(grad@, gain@).take(q as int),
                columns@ == self.columns(whole as nat).take(q as int),
        {
            let c: usize = q % dim;
            pulled.push(grad[q].times(gain[c]));
            columns.push(c);
            assert(pulled@ =~= self.pulled(grad@, gain@).take(q + 1));
            assert(columns@ =~= self.columns(whole as nat).take(q + 1));
        }
        assert(pulled@ =~= self.pulled(grad@, gain@));
        assert(columns@ =~= self.columns(whole as nat));
        let mut pulls: Vec<RowPull<T>> = Vec::new();
        for r in 0..rows
            invariant
                dim == self.dim > 0,
                rows == size / dim,
                whole == rows * dim == pulled@.len(),
                whole <= values@.len(),
                pulls@.len() == r,
                forall|i: int|
                    0 <= i < r ==> self.is_pull(pulled@, values@, i, #[trigger] pulls@[i]),
        {
            proof {
                lemma_row_within(size as int, dim as int, r as int);
            }
            let row = slice_subrange(pulled.as_slice(), r * dim, r * dim + dim);
            let held = slice_subrange(values.as_slice(), r * dim, r * dim + dim);
            assert(row@ =~= linalg::piece(pulled@, r as int, dim as nat));
            assert(held@ =~= linalg::piece(values@, r as int, dim as nat));
            let mean: T = if self.centred {
                part(sum(row), dim as u64)
            } else {
                T::zero()
            };
            let along: T = part(sum(arith::mul(row, held).as_slice()), dim as u64);
            pulls.push(RowPull { mean, along });
        }
        let mut input: Vec<T> = Vec::new();
        for q in 0..size
            invariant
                dim == self.dim > 0,
                rows == size / dim,
                whole == rows * dim == pulled@.len(),
                whole <= values@.len(),
                rows <= spreads@.len(),
                pulls@.len() == rows,
                input@.len() == q,
                forall|p: int|
                    0 <= p < q ==> #[trigger] input@[p] == if p < whole {
                        self.input_gradient(pulled@, values@, spreads@, pulls@, p)
                    } else {
                        T::nought()
                    },
        {
            if q < whole {
                proof {
                    lemma_row_of_place(size as int, dim as int, q as int);
                }
                let r: usize = q / dim;
                let own: T = pulled[q].minus(pulls[r].mean).minus(values[q].times(pulls[r].along));
                input.push(spreads[r].inverse.times(own));
            } else {
                input.push(T::zero());
            }
        }
        let along: Vec<T> = arith::mul(grad, values.as_slice());
        let gain_part = slice_subrange(along.as_slice(), 0, whole);
        let shift_part = slice_subrange(grad, 0, whole);
        let gain_grad: Vec<T> = add_up_at(gain_part, columns.as_slice(), dim);
        let shift_grad: Vec<T> = add_up_at(shift_part, columns.as_slice(), dim);
        proof {
            assert(pulls@.len() == grad@.len() / self.dim as nat);
            assert(gain_part@ =~= arith::products(grad@, values@).take(whole as int));
            assert(shift_part@ =~= grad@.take(whole as int));
            assert(input@ =~= self.input_gradients(
                grad@.len(),
                self.pulled(grad@, gain@),
                normalized.values@,
                normalized.spreads@,
                pulls@,
            ));
            assert(gain_grad@ =~= Seq::new(
                self.dim as nat,
                |p: int| self.landed(arith::products(grad@, normalized.values@), whole as nat, p),
            ));
            assert(shift_grad@ =~= Seq::new(
                self.dim as nat,
                |p: int| self.landed(grad@, whole as nat, p),
            ));
        }
        NormGradients { input, gain: gain_grad, shift: shift_grad }
    }
}

/// A whole row lies within the data.
proof fn lemma_row_within(size: int, dim: int, r: int)
    requires
        size >= 0,
        dim > 0,
        0 <= r < size / dim,
    ensures
        0 <= r * dim,
        r * dim + dim <= size / dim * dim <= size,
{
    assert(size / dim * dim <= size) by (nonlinear_arith)
        requires
            size >= 0,
            dim > 0,
    ;
    assert(0 <= r * dim && r * dim + dim <= size / dim * dim) by (nonlinear_arith)
        requires
            dim > 0,
            0 <= r < size / dim,
    ;
}

/// Whole rows lie within the data; there is none where there is less than a row.
proof fn lemma_whole_rows(size: int, dim: int)
    requires
        size >= 0,
        dim > 0,
    ensures
        0 <= size / dim * dim <= size,
        size < dim ==> size / dim * dim == 0,
{
    assert(0 <= size / dim * dim <= size) by (nonlinear_arith)
        requires
            size >= 0,
            dim > 0,
    ;
    if size < dim {
        assert(size / dim == 0) by (nonlinear_arith)
            requires
                0 <= size < dim,
        ;
    }
}

/// A place in whole rows lies in one of them.
proof fn lemma_row_of_place(size: int, dim: int, q: int)
    requires
        dim > 0,
        0 <= q < size / dim * dim,
    ensures
        0 <= q / dim < size / dim,
{
    assert(0 <= q / dim < size / dim) by (nonlinear_arith)
        requires
            dim > 0,
            0 <= q < size / dim * dim,
    ;
}

/// The mean of the squares of the distances of a row from `center`.
pub open spec fn mean_square<T>(reading: Reading<T>, row: Seq<T>, center: real) -> real {
    reals::sum_to(
        row.len(),
        |c: int| (reading.at(row, c) - center) * (reading.at(row, c) - center),
    ) / (row.len() as real)
}

impl RowNorm {
    /// What is taken away from each element of a row of real numbers.
    pub open spec fn real_center<T>(self, reading: Reading<T>, row: Seq<T>) -> real {
        if self.centred {
            reading.mean(row)
        } else {
            0real
        }
    }

    /// Whether `scale` is the root of the spread of a row and a small number more.
    pub open spec fn is_scale<T>(
        self,
        reading: Reading<T>,
        row: Seq<T>,
        eps: T,
        scale: real,
    ) -> bool {
        &&& scale > 0real
        &&& scale * scale == mean_square(reading, row, self.real_center(reading, row))
            + reading.of(eps)
    }

    /// Whether what row `r` is normalised by is made of real numbers.
    proof fn lemma_real_spread<T: Number>(
        self,
        reading: Reading<T>,
        row: Seq<T>,
        eps: T,
        spread: RowSpread<T>,
    ) -> (scale: real)
        requires
            reading.is_faithful(),
            reading.all_finite(row),
            0 < row.len() <= u64::MAX,
            (reading.finite)(eps),
            reading.of(eps) > 0real,
            self.is_spread(row, eps, spread),
        ensures
            reading.reads(spread.center, self.real_center(reading, row)),
            self.is_scale(reading, row, eps, scale),
            (reading.finite)(spread.inverse),
            reading.of(spread.inverse) * scale == 1real,
    {
        reading.lemma_total(row);
        if self.centred {
            reading.lemma_part(arith::total(row), row.len(), spread.center);
        }
        let m = self.real_center(reading, row);
        let list = squares(row, spread.center);
        let own = |c: int| (reading.at(row, c) - m) * (reading.at(row, c) - m);
        assert forall|c: int| 0 <= c < list.len() implies reading.reads(
            #[trigger] list[c],
            own(c),
        ) && own(c) >= 0real by {
            assert((reading.finite)(row[c]));
            let d = reading.at(row, c) - m;
            assert(d * d >= 0real) by (nonlinear_arith);
        }
        reading.lemma_total(list);
        reals::lemma_same_sum(row.len(), |c: int| reading.at(list, c), own);
        assert forall|c: int| 0 <= c < row.len() implies #[trigger] own(c) >= 0real by {
            assert(reading.reads(list[c], own(c)));
        }
        reals::lemma_sum_is_not_negative(row.len(), own);
        reading.lemma_part(arith::total(list), row.len(), spread.variance);
        let (total, n) = (reals::sum_to(row.len(), own), row.len() as real);
        assert(total / n >= 0real) by (nonlinear_arith)
            requires
                total >= 0real,
                n > 0real,
        ;
        let (one, root) = choose|one: T, root: T|
            {
                &&& #[trigger] T::one.ensures((), one)
                &&& #[trigger] T::root.ensures((spread.variance.sum(eps),), root)
                &&& T::over.ensures((one, root), spread.inverse)
            };
        let scale = reading.of(root);
        if scale == 0real {
            assert(0real * 0real == 0real);
        }
        reals::lemma_quotient(1real, scale);
        scale
    }
}

/// Normalised rows of real numbers: there is a scale, the root of the spread around the mean, or
/// around zero, and a small number more; by it each element is as far from the centre of its row
/// as it was before.
pub proof fn law_rows_are_scaled_by_their_spread<T: Number>(
    reading: Reading<T>,
    norm: RowNorm,
    data: Seq<T>,
    eps: T,
    out: Normalized<T>,
    r: int,
) -> (scale: real)
    requires
        reading.is_faithful(),
        norm.dim > 0,
        reading.all_finite(data),
        (reading.finite)(eps),
        reading.of(eps) > 0real,
        norm.normalizes(data, eps, out),
        0 <= r < data.len() / norm.dim as nat,
    ensures
        out.values@.len() == data.len(),
        norm.is_scale(reading, linalg::piece(data, r, norm.dim as nat), eps, scale),
        reading.of(out.spreads@[r].inverse) * scale == 1real,
        forall|c: int|
            0 <= c < norm.dim ==> {
                let q = r * norm.dim + c;
                &&& (reading.finite)(#[trigger] out.values@[r * norm.dim + c])
                &&& reading.at(out.values@, q) * scale == reading.at(data, q) - norm.real_center(
                    reading,
                    linalg::piece(data, r, norm.dim as nat),
                )
            },
        norm.centred ==> reals::sum_to(
            norm.dim as nat,
            |c: int| reading.at(out.values@, r * norm.dim + c),
        ) == 0real,
{
    let dim = norm.dim as nat;
    let row = linalg::piece(data, r, dim);
    lemma_row_within(data.len() as int, dim as int, r);
    assert forall|c: int| 0 <= c < row.len() implies (reading.finite)(#[trigger] row[c]) by {
        assert(row[c] == data[r * dim + c]);
    }
    let spread = out.spreads@[r];
    assert(norm.is_spread(row, eps, spread));
    let scale = norm.lemma_real_spread(reading, row, eps, spread);
    let m = norm.real_center(reading, row);
    let inverse = reading.of(spread.inverse);
    assert forall|c: int| 0 <= c < norm.dim implies {
        let q = r * norm.dim + c;
        &&& (reading.finite)(#[trigger] out.values@[r * norm.dim + c])
        &&& reading.at(out.values@, q) * scale == reading.at(data, q) - m
        &&& reading.at(out.values@, q) == inverse * (reading.at(row, c) - m)
    } by {
        let q = r * norm.dim + c;
        lemma_place(data.len() as int, dim as int, r, c);
        assert((reading.finite)(data[q]));
        let d = reading.at(data, q) - m;
        assert((d * inverse) * scale == d * (inverse * scale)) by (nonlinear_arith);
        assert(d * 1real == d);
        assert(d * inverse == inverse * d) by (nonlinear_arith);
        assert(row[c] == data[q]);
    }
    if norm.centred {
        let kept = |c: int| reading.at(row, c);
        let gone = |c: int| -m;
        let moved = |c: int| reading.at(row, c) - m;
        assert forall|c: int| 0 <= c < dim implies #[trigger] moved(c) == kept(c) + gone(c) by {}
        reals::lemma_sum_of_sums(dim, kept, gone, moved);
        lemma_sum_of_same(dim, -m);
        reals::lemma_quotient(reading.sum(row), dim as real);
        let n = dim as real;
        assert(n * (-m) == -(m * n)) by (nonlinear_arith);
        let values = |c: int| reading.at(out.values@, r * norm.dim + c);
        assert forall|c: int| 0 <= c < dim implies #[trigger] values(c) == inverse * moved(c) by {
            assert((reading.finite)(out.values@[r * norm.dim + c]));
        }
        reals::lemma_sum_of_multiples(dim, inverse, moved, values);
        assert(inverse * 0real == 0real) by (nonlinear_arith);
    }
    scale
}

/// A sum of the same number, over and over.
proof fn lemma_sum_of_same(n: nat, x: real)
    ensures
        reals::sum_to(n, |c: int| x) == n as real * x,
    decreases n,
{
    if n > 0 {
        lemma_sum_of_same((n - 1) as nat, x);
        let before = (n - 1) as real;
        assert(n as real == before + 1real);
        assert((before + 1real) * x == before * x + x) by (nonlinear_arith);
    } else {
        assert(0real * x == 0real) by (nonlinear_arith);
    }
}

/// Place `c` of row `r`.
proof fn lemma_place(size: int, dim: int, r: int, c: int)
    requires
        size >= 0,
        dim > 0,
        0 <= r < size / dim,
        0 <= c < dim,
    ensures
        0 <= r * dim + c < size / dim * dim <= size,
        (r * dim + c) / dim == r,
        (r * dim + c) % dim == c,
{
    lemma_row_within(size, dim, r);
    vstd::arithmetic::div_mod::lemma_fundamental_div_mod_converse(r * dim + c, dim, r, c);
}

/// Normalised rows are stretched and moved column by column, over real numbers.
pub proof fn law_columns_are_stretched_and_moved<T: Number>(
    reading: Reading<T>,
    norm: RowNorm,
    values: Seq<T>,
    gain: Seq<T>,
    shift: Seq<T>,
    r: int,
    c: int,
)
    requires
        reading.is_ring(),
        norm.dim > 0,
        reading.all_finite(values),
        reading.all_finite(gain),
        reading.all_finite(shift),
        norm.dim <= gain.len(),
        norm.dim <= shift.len(),
        0 <= r < values.len() / norm.dim as nat,
        0 <= c < norm.dim,
    ensures
        norm.all_stretched(values, gain, shift).len() == values.len(),
        reading.at(norm.all_stretched(values, gain, shift), r * norm.dim + c) == reading.at(gain, c)
            * reading.at(values, r * norm.dim + c) + reading.at(shift, c),
{
    lemma_place(values.len() as int, norm.dim as int, r, c);
    let q = r * norm.dim + c;
    assert((reading.finite)(values[q]) && (reading.finite)(gain[c]) && (reading.finite)(shift[c]));
}

/// The sum of what stands in column `p` of the whole rows of a list.
pub open spec fn column_sum(
    norm: RowNorm,
    f: spec_fn(int) -> real,
    whole: nat,
    p: int,
) -> real {
    reals::sum_to(
        whole,
        |q: int|
            if q % norm.dim as int == p {
                f(q)
            } else {
                0real
            },
    )
}

proof fn lemma_column<T: Scalar>(
    reading: Reading<T>,
    norm: RowNorm,
    list: Seq<T>,
    f: spec_fn(int) -> real,
    whole: nat,
    p: int,
)
    requires
        reading.is_ring(),
        norm.dim > 0,
        whole <= list.len(),
        forall|q: int| 0 <= q < whole ==> reading.reads(#[trigger] list[q], f(q)),
    ensures
        reading.reads(norm.landed(list, whole, p), column_sum(norm, f, whole, p)),
{
    let part = list.take(whole as int);
    let places = norm.columns(whole);
    assert forall|q: int| 0 <= q < part.len() implies (reading.finite)(#[trigger] part[q]) by {
        assert(reading.reads(list[q], f(q)));
    }
    reading.lemma_landed(part, places, p, whole);
    let left = |q: int|
        if places[q] == p {
            reading.at(part, q)
        } else {
            0real
        };
    let right = |q: int|
        if q % norm.dim as int == p {
            f(q)
        } else {
            0real
        };
    assert forall|q: int| 0 <= q < whole implies #[trigger] left(q) == right(q) by {
        assert(reading.reads(list[q], f(q)));
        assert(0 <= q % norm.dim as int && q % (norm.dim as int) < norm.dim) by (nonlinear_arith)
            requires
                norm.dim > 0,
        ;
    }
    reals::lemma_same_sum(whole, left, right);
}

/// The gradients of a normalisation, over real numbers. That of the gain is the sum over all rows
/// of the gradient by the normalised element of its column, that of the shift the sum of the
/// gradients of its column. That of an element, by the scale of its row, is the gradient by the
/// gain, less its mean over the row where rows are moved to their mean, and less the normalised
/// element by the mean of both products.
pub proof fn law_normalisation_gradients<T: Number>(
    reading: Reading<T>,
    norm: RowNorm,
    grad: Seq<T>,
    normalized: Normalized<T>,
    gain: Seq<T>,
    out: NormGradients<T>,
    r: int,
    c: int,
)
    requires
        reading.is_faithful(),
        norm.dim > 0,
        reading.all_finite(grad),
        reading.all_finite(gain),
        reading.all_finite(normalized.values@),
        norm.dim <= gain.len(),
        normalized.values@.len() == grad.len(),
        grad.len() / norm.dim as nat <= normalized.spreads@.len(),
        norm.pulls_back(grad, normalized, gain, out),
        0 <= r < grad.len() / norm.dim as nat,
        (reading.finite)(normalized.spreads@[r].inverse),
        0 <= c < norm.dim,
    ensures
        out.input@.len() == grad.len(),
        out.gain@.len() == norm.dim,
        out.shift@.len() == norm.dim,
        reading.at(out.gain@, c) == column_sum(
            norm,
            |q: int| reading.at(grad, q) * reading.at(normalized.values@, q),
            norm.whole(grad.len()),
            c,
        ),
        reading.at(out.shift@, c) == column_sum(
            norm,
            |q: int| reading.at(grad, q),
            norm.whole(grad.len()),
            c,
        ),
        ({
            let start = r * norm.dim;
            let n = norm.dim as real;
            let pulled = |k: int| reading.at(grad, start + k) * reading.at(gain, k);
            let held = |k: int| reading.at(normalized.values@, start + k);
            let mean = if norm.centred {
                reals::sum_to(norm.dim as nat, pulled) / n
            } else {
                0real
            };
            let along = reals::sum_to(norm.dim as nat, |k: int| pulled(k) * held(k)) / n;
            reading.at(out.input@, start + c) == reading.of(normalized.spreads@[r].inverse) * (
            pulled(c) - mean - held(c) * along)
        }),
{
    let dim = norm.dim as nat;
    let whole = norm.whole(grad.len());
    let values = normalized.values@;
    lemma_whole_rows(grad.len() as int, dim as int);
    let both = arith::products(grad, values);
    assert forall|q: int| 0 <= q < whole implies reading.reads(
        #[trigger] both[q],
        reading.at(grad, q) * reading.at(values, q),
    ) by {
        assert((reading.finite)(grad[q]) && (reading.finite)(values[q]));
    }
    let products = |q: int| reading.at(grad, q) * reading.at(values, q);
    let own = |q: int| reading.at(grad, q);
    assert forall|q: int| 0 <= q < whole implies reading.reads(#[trigger] grad[q], own(q)) by {}
    assert forall|q: int| 0 <= q < whole implies reading.reads(
        #[trigger] both[q],
        products(q),
    ) by {}
    lemma_column(reading, norm, both, products, whole, c);
    lemma_column(reading, norm, grad, own, whole, c);
    let pulls = choose|pulls: Seq<RowPull<T>>|
        {
            &&& pulls.len() == grad.len() / norm.dim as nat
            &&& forall|r: int|
                0 <= r < pulls.len() ==> norm.is_pull(
                    norm.pulled(grad, gain),
                    normalized.values@,
                    r,
                    #[trigger] pulls[r],
                )
            &&& out.input@ == #[trigger] norm.input_gradients(
                grad.len(),
                norm.pulled(grad, gain),
                normalized.values@,
                normalized.spreads@,
                pulls,
            )
        };
    let list = norm.pulled(grad, gain);
    let start = r * norm.dim;
    lemma_row_within(grad.len() as int, dim as int, r);
    let pulled = |k: int| reading.at(grad, start + k) * reading.at(gain, k);
    let held = |k: int| reading.at(values, start + k);
    let row = linalg::piece(list, r, dim);
    let kept = linalg::piece(values, r, dim);
    assert forall|k: int| 0 <= k < dim implies {
        &&& reading.reads(#[trigger] row[k], pulled(k))
        &&& reading.reads(kept[k], held(k))
        &&& row[k] == list[start + k]
    } by {
        lemma_place(grad.len() as int, dim as int, r, k);
        assert((reading.finite)(grad[start + k]) && (reading.finite)(gain[k]));
        assert((reading.finite)(values[start + k]));
    }
    reading.lemma_total(row);
    reals::lemma_same_sum(dim, |k: int| reading.at(row, k), pulled);
    let pull = pulls[r];
    assert(norm.is_pull(list, values, r, pull));
    if norm.centred {
        reading.lemma_part(arith::total(row), dim, pull.mean);
    }
    let mixed = arith::products(row, kept);
    let mix = |k: int| pulled(k) * held(k);
    assert forall|k: int| 0 <= k < mixed.len() implies reading.reads(
        #[trigger] mixed[k],
        mix(k),
    ) by {
        assert(reading.reads(row[k], pulled(k)));
    }
    reading.lemma_total(mixed);
    reals::lemma_same_sum(dim, |k: int| reading.at(mixed, k), mix);
    reading.lemma_part(arith::total(mixed), dim, pull.along);
    lemma_place(grad.len() as int, dim as int, r, c);
    assert(reading.reads(row[c], pulled(c)));
}

} // verus!
