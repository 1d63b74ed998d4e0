//! Operators that move elements, and where their gradients go.

use super::arith;
use super::arith::{add_up_at, Scalar};
use super::layout::element_count;
use super::reals;
use super::reals::Reading;
use super::shape;
use vstd::arithmetic::div_mod::{
    lemma_fundamental_div_mod, lemma_fundamental_div_mod_converse, lemma_mod_bound,
};
use vstd::prelude::*;
use vstd::slice::{slice_subrange, slice_to_vec};

verus! {

/// The sum of two tensors.
#[derive(Debug, Clone, Copy, PartialEq, Eq, Structural)]
pub struct AddOp;

impl AddOp {
    /// The gradient goes to both inputs as it is.
    pub fn backward<T: Copy>(&self, grad: &[T]) -> (grads: (Vec<T>, Vec<T>))
        ensures
            grads.0@ == grad@,
            grads.1@ == grad@,
    {
        (slice_to_vec(grad), slice_to_vec(grad))
    }
}

/// The bits of a single precision number with the other sign.
pub open spec fn sign_flipped(bits: u32) -> u32 {
    if bits < 0x8000_0000 {
        (bits + 0x8000_0000) as u32
    } else {
        (bits - 0x8000_0000) as u32
    }
}

/// The negative of a tensor of single precision numbers, given by their bits.
#[derive(Debug, Clone, Copy, PartialEq, Eq, Structural)]
pub struct NegOp;

/// Flips the sign of every number.
pub fn neg(data: &[u32]) -> (out: Vec<u32>)
    ensures
        out@ == data@.map_values(|bits: u32| sign_flipped(bits)),
{
    let mut out: Vec<u32> = Vec::new();
    let mut i: usize = 0;
    while i < data.len()
        invariant
            i <= data@.len(),
            out@.len() == i,
            forall|j: int| 0 <= j < i ==> out@[j] == sign_flipped(data@[j]),
        decreases data@.len() - i,
    {
        let bits: u32 = data[i];
        out.push(if bits < 0x8000_0000 { bits + 0x8000_0000 } else { bits - 0x8000_0000 });
        i = i + 1;
    }
    assert(out@ =~= data@.map_values(|bits: u32| sign_flipped(bits)));
    out
}

impl NegOp {
    /// The gradient goes to the input with the other sign.
    pub fn backward(&self, grad: &[u32]) -> (out: Vec<u32>)
        ensures
            out@ == grad@.map_values(|bits: u32| sign_flipped(bits)),
    {
        neg(grad)
    }
}

/// Negating twice changes nothing.
pub proof fn law_neg_is_an_involution(data: Seq<u32>)
    ensures
        data.map_values(|bits: u32| sign_flipped(bits)).map_values(
            |bits: u32| sign_flipped(bits),
        ) == data,
{
    assert(data.map_values(|bits: u32| sign_flipped(bits)).map_values(
        |bits: u32| sign_flipped(bits),
    ) =~= data);
}

/// The sum of all elements of a tensor.
#[derive(Debug, Clone, PartialEq, Eq)]
pub struct SumOp {
    pub input_shape: Vec<usize>,
}

impl SumOp {
    /// The one gradient goes to every element of the input.
    pub fn backward<T: Copy>(&self, grad: T) -> (out: Vec<T>)
        requires
            shape::strides_fit(self.input_shape@),
            shape::volume(self.input_shape@) <= usize::MAX,
        ensures
            out@ == Seq::new(shape::volume(self.input_shape@), |i: int| grad),
    {
        let count: usize = element_count(self.input_shape.as_slice());
        let mut out: Vec<T> = Vec::new();
        while out.len() < count
            invariant
                out@.len() <= count,
                forall|j: int| 0 <= j < out@.len() ==> out@[j] == grad,
            decreases count - out@.len(),
        {
            out.push(grad);
        }
        assert(out@ =~= Seq::new(shape::volume(self.input_shape@), |i: int| grad));
        out
    }
}

/// A tensor under another shape of the same volume.
#[derive(Debug, Clone, PartialEq, Eq)]
pub struct ReshapeOp {
    pub input_shape: Vec<usize>,
}

/// Reshapes from `old_shape` to `new_shape`, if both have the same number of elements.
pub fn reshape(old_shape: &[usize], new_shape: &[usize]) -> (op: Option<ReshapeOp>)
    requires
        shape::strides_fit(old_shape@) && shape::volume(old_shape@) <= usize::MAX,
        shape::strides_fit(new_shape@) && shape::volume(new_shape@) <= usize::MAX,
    ensures
        op is Some <==> shape::volume(old_shape@) == shape::volume(new_shape@),
        op matches Some(op) ==> op.input_shape@ == old_shape@,
{
    if element_count(old_shape) == element_count(new_shape) {
        Some(ReshapeOp { input_shape: slice_to_vec(old_shape) })
    } else {
        None
    }
}

impl ReshapeOp {
    /// The gradient goes to the input in the same order, under the input's shape.
    pub fn backward<T: Copy>(&self, grad: &[T]) -> (out: (Vec<T>, Vec<usize>))
        ensures
            out.0@ == grad@,
            out.1@ == self.input_shape@,
    {
        (slice_to_vec(grad), slice_to_vec(self.input_shape.as_slice()))
    }
}

/// A matrix with rows and columns exchanged.
#[derive(Debug, Clone, Copy, PartialEq, Eq, Structural)]
pub struct TransposeOp;

/// The elements of a `rows` by `cols` matrix, column by column.
pub open spec fn transposed<T>(data: Seq<T>, rows: nat, cols: nat) -> Seq<T> {
    Seq::new(
        rows * cols,
        |p: int| data[(p % rows as int) * cols + p / rows as int],
    )
}

/// Both halves of a position `a * n + b` with `b < n`.
pub proof fn lemma_split_position(a: int, b: int, m: int, n: int)
    requires
        0 <= a < m,
        0 <= b < n,
    ensures
        0 <= a * n + b < m * n,
        (a * n + b) / n == a,
        (a * n + b) % n == b,
{
    lemma_fundamental_div_mod_converse(a * n + b, n, a, b);
    assert(0 <= a * n + b < m * n) by (nonlinear_arith)
        requires
            0 <= a < m,
            0 <= b < n,
    ;
}

/// A position below `m * n` is made of two halves.
pub proof fn lemma_join_position(p: int, m: int, n: int)
    requires
        0 <= p < m * n,
        0 <= n,
    ensures
        0 < n,
        0 <= p / n < m,
        0 <= p % n < n,
        p == (p / n) * n + p % n,
{
    assert(n > 0) by (nonlinear_arith)
        requires
            0 <= p < m * n,
            0 <= n,
    ;
    lemma_fundamental_div_mod(p, n);
    lemma_mod_bound(p, n);
    let q = p / n;
    let r = p % n;
    assert(n * q == q * n) by (nonlinear_arith);
    assert(0 <= q < m) by (nonlinear_arith)
        requires
            0 <= p < m * n,
            p == q * n + r,
            0 <= r < n,
    ;
}

/// Exchanges rows and columns.
pub fn transpose<T: Copy>(data: &[T], rows: usize, cols: usize) -> (out: Vec<T>)
    requires
        rows * cols <= data@.len(),
    ensures
        out@ == transposed(data@, rows as nat, cols as nat),
{
    let len: usize = data.len();
    let mut out: Vec<T> = Vec::new();
    let mut j: usize = 0;
    assert(0 * rows == 0);
    while j < cols
        invariant
            j <= cols,
            rows * cols <= len == data@.len(),
            out@.len() == j * rows,
            forall|p: int|
                0 <= p < out@.len() ==> out@[p] == transposed(data@, rows as nat, cols as nat)[p],
        decreases cols - j,
    {
        let mut i: usize = 0;
        while i < rows
            invariant
                i <= rows,
                j < cols,
                rows * cols <= len == data@.len(),
                out@.len() == j * rows + i,
                forall|p: int|
                    0 <= p < out@.len() ==> out@[p] == transposed(
                        data@,
                        rows as nat,
                        cols as nat,
                    )[p],
            decreases rows - i,
        {
            proof {
                lemma_split_position(j as int, i as int, cols as int, rows as int);
                lemma_split_position(i as int, j as int, rows as int, cols as int);
                assert(cols * rows == rows * cols) by (nonlinear_arith);
                assert(i * cols <= i * cols + j);
            }
            out.push(data[i * cols + j]);
            i = i + 1;
        }
        assert(j * rows + rows == (j + 1) * rows) by (nonlinear_arith);
        j = j + 1;
    }
    assert(cols * rows == rows * cols) by (nonlinear_arith);
    assert(out@ =~= transposed(data@, rows as nat, cols as nat));
    out
}

impl TransposeOp {
    /// The gradient of a `rows` by `cols` result goes back transposed.
    pub fn backward<T: Copy>(&self, grad: &[T], rows: usize, cols: usize) -> (out: Vec<T>)
        requires
            rows * cols <= grad@.len(),
        ensures
            out@ == transposed(grad@, rows as nat, cols as nat),
    {
        transpose(grad, rows, cols)
    }
}

/// Transposing back and forth changes nothing.
pub proof fn law_transpose_is_an_involution<T>(data: Seq<T>, rows: nat, cols: nat)
    requires
        data.len() == rows * cols,
    ensures
        transposed(transposed(data, rows, cols), cols, rows) == data,
{
    let once = transposed(data, rows, cols);
    let twice = transposed(once, cols, rows);
    assert(cols * rows == rows * cols) by (nonlinear_arith);
    assert forall|p: int| 0 <= p < data.len() implies twice[p] == data[p] by {
        let (r, c) = (rows as int, cols as int);
        lemma_join_position(p, r, c);
        let i = p / c;
        let j = p % c;
        lemma_split_position(j, i, c, r);
        assert(twice[p] == once[j * r + i]);
    }
    assert(twice =~= data);
}

/// Rows of a table, picked by number.
#[derive(Debug, Clone, PartialEq, Eq)]
pub struct EmbeddingLookupOp {
    pub indices: Vec<usize>,
    pub num_embeddings: usize,
    pub embedding_dim: usize,
}

impl EmbeddingLookupOp {
    /// Whether every picked row exists, and the table and the result can be counted.
    pub open spec fn fits(self) -> bool {
        &&& forall|i: int|
            0 <= i < self.indices@.len() ==> #[trigger] self.indices@[i] < self.num_embeddings
        &&& self.num_embeddings * self.embedding_dim <= usize::MAX
        &&& self.indices@.len() * self.embedding_dim <= usize::MAX
    }

    /// The place in the table that element `p` of the result comes from.
    pub open spec fn source(self, p: int) -> int {
        self.indices@[p / self.embedding_dim as int] * self.embedding_dim + p
            % self.embedding_dim as int
    }

    /// For every element of the result its place in the table.
    pub open spec fn sources(self) -> Seq<usize> {
        Seq::new(
            self.indices@.len() * self.embedding_dim as nat,
            |p: int| self.source(p) as usize,
        )
    }

    /// The gradient of the table.
    pub open spec fn gradient<T: Scalar>(self, grad: Seq<T>) -> Seq<T> {
        Seq::new(
            self.num_embeddings as nat * self.embedding_dim as nat,
            |p: int| arith::landed(grad, self.sources(), p, self.sources().len()),
        )
    }

    /// The gradient of the table: that of the result, added up row by row.
    pub fn backward<T: Scalar>(&self, grad: &[T]) -> (out: Vec<T>)
        requires
            self.fits(),
            self.indices@.len() * self.embedding_dim <= grad@.len(),
        ensures
            out@ == self.gradient(grad@),
    {
        let places: Vec<usize> = self.places();
        assert(places@ =~= self.sources());
        let out = add_up_at(grad, places.as_slice(), self.num_embeddings * self.embedding_dim);
        assert(out@ =~= Seq::new(
            self.num_embeddings as nat * self.embedding_dim as nat,
            |p: int| arith::landed(grad@, self.sources(), p, self.sources().len()),
        ));
        out
    }

    /// For every element of the result its place in the table. Looking up reads there, and
    /// the gradient is added up there.
    pub fn places(&self) -> (places: Vec<usize>)
        requires
            self.fits(),
        ensures
            places@.len() == self.indices@.len() * self.embedding_dim,
            forall|p: int| 0 <= p < places@.len() ==> #[trigger] places@[p] == self.source(p),
            forall|p: int|
                0 <= p < places@.len() ==> #[trigger] places@[p] < self.num_embeddings
                    * self.embedding_dim,
    {
        let dim: usize = self.embedding_dim;
        let n: usize = self.indices.len();
        let mut places: Vec<usize> = Vec::new();
        let mut i: usize = 0;
        assert(0 * dim == 0);
        while i < n
            invariant
                i <= n == self.indices@.len(),
                dim == self.embedding_dim,
                self.fits(),
                places@.len() == i * dim,
                forall|p: int| 0 <= p < places@.len() ==> #[trigger] places@[p] == self.source(p),
                forall|p: int|
                    0 <= p < places@.len() ==> #[trigger] places@[p] < self.num_embeddings
                        * self.embedding_dim,
            decreases n - i,
        {
            let row: usize = self.indices[i];
            let mut d: usize = 0;
            assert(self.indices@[i as int] < self.num_embeddings);
            while d < dim
                invariant
                    d <= dim == self.embedding_dim,
                    i < n == self.indices@.len(),
                    self.fits(),
                    row == self.indices@[i as int] < self.num_embeddings,
                    places@.len() == i * dim + d,
                    forall|p: int|
                        0 <= p < places@.len() ==> #[trigger] places@[p] == self.source(p),
                    forall|p: int|
                        0 <= p < places@.len() ==> #[trigger] places@[p] < self.num_embeddings
                            * self.embedding_dim,
                decreases dim - d,
            {
                proof {
                    lemma_split_position(i as int, d as int, n as int, dim as int);
                    lemma_split_position(
                        row as int,
                        d as int,
                        self.num_embeddings as int,
                        dim as int,
                    );
                }
                places.push(row * dim + d);
                d = d + 1;
            }
            assert(i * dim + dim == (i + 1) * dim) by (nonlinear_arith);
            i = i + 1;
        }
        places
    }
}

/// Picks elements by place.
pub fn pick<T: Copy>(data: &[T], places: &Vec<usize>) -> (out: Vec<T>)
    requires
        forall|p: int| 0 <= p < places@.len() ==> #[trigger] places@[p] < data@.len(),
    ensures
        out@ == places@.map_values(|at: usize| data@[at as int]),
{
    let mut out: Vec<T> = Vec::new();
    let mut p: usize = 0;
    while p < places.len()
        invariant
            p <= places@.len(),
            forall|p: int| 0 <= p < places@.len() ==> #[trigger] places@[p] < data@.len(),
            out@.len() == p,
            forall|j: int| 0 <= j < p ==> out@[j] == data@[places@[j] as int],
        decreases places@.len() - p,
    {
        assert(places@[p as int] < data@.len());
        out.push(data[places[p]]);
        p = p + 1;
    }
    assert(out@ =~= places@.map_values(|at: usize| data@[at as int]));
    out
}

/// Looks up rows of a table: row `i` of the result is the row of the table that the `i`-th
/// index names.
pub fn embedding_lookup<T: Copy>(
    weight: &[T],
    num_embeddings: usize,
    embedding_dim: usize,
    indices: &[usize],
) -> (result: Option<(Vec<T>, EmbeddingLookupOp)>)
    requires
        num_embeddings * embedding_dim <= usize::MAX,
        indices@.len() * embedding_dim <= usize::MAX,
        forall|i: int|
            0 <= i < indices@.len() && (#[trigger] indices@[i]) < num_embeddings ==> (indices@[i]
                + 1) * embedding_dim <= weight@.len(),
    ensures
        result is Some <==> forall|i: int|
            0 <= i < indices@.len() ==> #[trigger] indices@[i] < num_embeddings,
        result matches Some((out, op)) ==> {
            &&& op.indices@ == indices@
            &&& op.num_embeddings == num_embeddings
            &&& op.embedding_dim == embedding_dim
            &&& op.fits()
            &&& out@.len() == indices@.len() * embedding_dim
            &&& forall|p: int| 0 <= p < out@.len() ==> #[trigger] out@[p] == weight@[op.source(p)]
        },
{
    let mut i: usize = 0;
    while i < indices.len()
        invariant
            i <= indices@.len(),
            forall|j: int| 0 <= j < i ==> #[trigger] indices@[j] < num_embeddings,
        decreases indices@.len() - i,
    {
        if indices[i] >= num_embeddings {
            return None;
        }
        i = i + 1;
    }
    let op = EmbeddingLookupOp { indices: slice_to_vec(indices), num_embeddings, embedding_dim };
    let places: Vec<usize> = op.places();
    assert forall|p: int| 0 <= p < places@.len() implies #[trigger] places@[p] < weight@.len() by {
        lemma_join_position(p, indices@.len() as int, embedding_dim as int);
        let at = indices@[p / embedding_dim as int];
        assert(op.source(p) == at * embedding_dim + p % embedding_dim as int);
        assert((at + 1) * embedding_dim == at * embedding_dim + embedding_dim) by (nonlinear_arith);
        assert(indices@[p / embedding_dim as int] < num_embeddings);
    }
    let out: Vec<T> = pick(weight, &places);
    assert forall|p: int| 0 <= p < out@.len() implies #[trigger] out@[p] == weight@[op.source(
        p,
    )] by {
        assert(places@[p] == op.source(p));
    }
    Some((out, op))
}

/// What stays of each element: the element itself, or `fill` where the mask says so. Elements
/// behind the mask are left out.
pub open spec fn filled<T>(data: Seq<T>, mask: Seq<bool>, fill: T) -> Seq<T> {
    Seq::new(
        arith::both(data, mask),
        |i: int|
            if mask[i] {
                fill
            } else {
                data[i]
            },
    )
}

/// Replaces the masked elements by `fill`, as far as there is a mask.
fn fill_under<T: Copy>(data: &[T], mask: &[bool], fill: T) -> (out: Vec<T>)
    ensures
        out@ == filled(data@, mask@, fill),
{
    let mut out: Vec<T> = Vec::new();
    let mut i: usize = 0;
    while i < data.len() && i < mask.len()
        invariant
            i <= arith::both(data@, mask@),
            out@ == filled(data@, mask@, fill).take(i as int),
        decreases data@.len() - i,
    {
        out.push(if mask[i] { fill } else { data[i] });
        i = i + 1;
        assert(out@ =~= filled(data@, mask@, fill).take(i as int));
    }
    assert(out@ =~= filled(data@, mask@, fill));
    out
}

/// Replaces the masked elements by `fill`.
pub fn masked_fill<T: Copy>(data: &[T], mask: &[bool], fill: T) -> (out: Vec<T>)
    requires
        data@.len() == mask@.len(),
    ensures
        out@ == filled(data@, mask@, fill),
        out@.len() == data@.len(),
{
    fill_under(data, mask, fill)
}

/// A tensor with some elements replaced by a constant.
#[derive(Debug, Clone, PartialEq, Eq)]
pub struct MaskedFillOp {
    pub mask: Vec<bool>,
}

impl MaskedFillOp {
    /// No gradient goes to the replaced elements.
    pub fn backward<T: Copy>(&self, grad: &[T], zero: T) -> (out: Vec<T>)
        ensures
            out@ == filled(grad@, self.mask@, zero),
    {
        fill_under(grad, self.mask.as_slice(), zero)
    }
}

/// A tensor with everything but the positive elements replaced by zero. The mask marks the
/// positive elements.
#[derive(Debug, Clone, PartialEq, Eq)]
pub struct ReluOp {
    pub mask: Vec<bool>,
}

impl ReluOp {
    /// What goes to the positive elements of a gradient, as far as there is a mask.
    pub open spec fn passed<T>(self, grad: Seq<T>, zero: T) -> Seq<T> {
        Seq::new(
            arith::both(grad, self.mask@),
            |i: int|
                if self.mask@[i] {
                    grad[i]
                } else {
                    zero
                },
        )
    }

    /// The gradient goes to the positive elements only.
    pub fn backward<T: Copy>(&self, grad: &[T], zero: T) -> (out: Vec<T>)
        ensures
            out@ == self.passed(grad@, zero),
    {
        let mut out: Vec<T> = Vec::new();
        let mut i: usize = 0;
        while i < grad.len() && i < self.mask.len()
            invariant
                i <= arith::both(grad@, self.mask@),
                out@ == self.passed(grad@, zero).take(i as int),
            decreases grad@.len() - i,
        {
            out.push(if self.mask[i] { grad[i] } else { zero });
            i = i + 1;
            assert(out@ =~= self.passed(grad@, zero).take(i as int));
        }
        assert(out@ =~= self.passed(grad@, zero));
        out
    }
}

/// The sum of a tensor and a shorter one that is repeated along it.
#[derive(Debug, Clone, PartialEq, Eq)]
pub struct BroadcastAddOp {
    pub b_shape: Vec<usize>,
}

impl BroadcastAddOp {
    /// The places that gradients of `len` elements are added up at.
    pub open spec fn targets(self, len: nat) -> Seq<usize> {
        Seq::new(len, |i: int| (i as nat % shape::volume(self.b_shape@)) as usize)
    }

    /// For each of `len` elements the element of the shorter tensor that it meets. The
    /// gradient of the shorter tensor is added up at these places.
    pub fn places(&self, len: usize) -> (places: Vec<usize>)
        requires
            shape::strides_fit(self.b_shape@),
            shape::volume(self.b_shape@) <= usize::MAX,
            len > 0 ==> shape::volume(self.b_shape@) > 0,
        ensures
            places@ == self.targets(len as nat),
            forall|i: int|
                0 <= i < len ==> #[trigger] places@[i] == i as nat % shape::volume(self.b_shape@),
    {
        let period: usize = element_count(self.b_shape.as_slice());
        let mut places: Vec<usize> = Vec::new();
        let mut i: usize = 0;
        while i < len
            invariant
                i <= len,
                period == shape::volume(self.b_shape@),
                len > 0 ==> period > 0,
                places@.len() == i,
                forall|j: int|
                    0 <= j < i ==> #[trigger] places@[j] == j as nat % shape::volume(
                        self.b_shape@,
                    ),
            decreases len - i,
        {
            places.push(i % period);
            i = i + 1;
        }
        assert(places@ =~= self.targets(len as nat));
        places
    }

    /// The gradient of the shorter tensor.
    pub open spec fn short_gradient<T: Scalar>(self, grad: Seq<T>) -> Seq<T> {
        Seq::new(
            shape::volume(self.b_shape@),
            |p: int| arith::landed(grad, self.targets(grad.len()), p, grad.len()),
        )
    }

    /// The gradients of both tensors: the longer one gets that of the result, the shorter one
    /// the sum over its repetitions, the last of which may be cut short.
    pub fn backward<T: Scalar>(&self, grad: &[T]) -> (grads: (Vec<T>, Vec<T>))
        requires
            shape::strides_fit(self.b_shape@),
            shape::volume(self.b_shape@) <= usize::MAX,
            grad@.len() > 0 ==> shape::volume(self.b_shape@) > 0,
        ensures
            grads.0@ == grad@,
            grads.1@ == self.short_gradient(grad@),
    {
        let places: Vec<usize> = self.places(grad.len());
        let period: usize = element_count(self.b_shape.as_slice());
        let short = add_up_at(grad, places.as_slice(), period);
        assert(short@ =~= Seq::new(
            shape::volume(self.b_shape@),
            |p: int| arith::landed(grad@, self.targets(grad@.len()), p, grad@.len()),
        ));
        (slice_to_vec(grad), short)
    }
}

/// Adds a shorter list to a longer one, over and over. Nothing if it does not fit a whole
/// number of times.
pub fn broadcast_add<T: Scalar>(a: &[T], b: &[T]) -> (out: Option<Vec<T>>)
    requires
        b@.len() > 0,
    ensures
        out is Some <==> a@.len() % b@.len() == 0,
        out matches Some(out) ==> out@ == Seq::new(
            a@.len(),
            |i: int| a@[i].sum(b@[i % b@.len() as int]),
        ),
{
    if a.len() % b.len() != 0 {
        return None;
    }
    let mut out: Vec<T> = Vec::new();
    let mut i: usize = 0;
    while i < a.len()
        invariant
            i <= a@.len(),
            b@.len() > 0,
            out@.len() == i,
            forall|j: int|
                0 <= j < i ==> #[trigger] out@[j] == a@[j].sum(b@[j % b@.len() as int]),
        decreases a@.len() - i,
    {
        out.push(a[i].plus(b[i % b.len()]));
        i = i + 1;
    }
    assert(out@ =~= Seq::new(a@.len(), |i: int| a@[i].sum(b@[i % b@.len() as int])));
    Some(out)
}

/// Several tensors, one behind the other along the first dimension.
#[derive(Debug, Clone, PartialEq, Eq)]
pub struct ConcatOp {
    pub split_sizes: Vec<usize>,
    pub shapes: Vec<Vec<usize>>,
}

/// All parts, one behind the other.
pub open spec fn joined_parts<T>(parts: Seq<Vec<T>>) -> Seq<T>
    decreases parts.len(),
{
    if parts.len() == 0 {
        seq![]
    } else {
        joined_parts(parts.drop_last()) + parts.last()@
    }
}

/// The numbers added up.
pub open spec fn total(sizes: Seq<usize>) -> nat
    decreases sizes.len(),
{
    if sizes.len() == 0 {
        0
    } else {
        total(sizes.drop_last()) + sizes.last() as nat
    }
}

/// The first dimensions added up.
pub open spec fn total_rows(shapes: Seq<Vec<usize>>) -> nat
    decreases shapes.len(),
{
    if shapes.len() == 0 {
        0
    } else {
        total_rows(shapes.drop_last()) + shapes.last()@[0] as nat
    }
}

/// Whether two shapes differ in nothing but the first dimension.
pub open spec fn same_tail(a: Seq<usize>, b: Seq<usize>) -> bool {
    a.len() == b.len() && forall|d: int| 1 <= d < a.len() ==> #[trigger] a[d] == b[d]
}

/// The shape of tensors put one behind the other along the first dimension; nothing if they
/// do not fit together.
pub fn concat_shape(shapes: &Vec<Vec<usize>>) -> (result: Option<Vec<usize>>)
    requires
        shapes@.len() > 0,
        shapes@[0]@.len() > 0,
        forall|n: int| 0 <= n <= shapes@.len() ==> #[trigger] total_rows(shapes@.take(n))
            <= usize::MAX,
    ensures
        result is Some <==> forall|i: int|
            0 <= i < shapes@.len() ==> same_tail(shapes@[0]@, (#[trigger] shapes@[i])@),
        result matches Some(shape) ==> shape@ == shapes@[0]@.update(
            0,
            total_rows(shapes@) as usize,
        ),
{
    let first: &Vec<usize> = &shapes[0];
    let mut rows: usize = 0;
    let mut i: usize = 0;
    while i < shapes.len()
        invariant
            i <= shapes@.len(),
            first@ == shapes@[0]@,
            first@.len() > 0,
            forall|n: int| 0 <= n <= shapes@.len() ==> #[trigger] total_rows(shapes@.take(n))
                <= usize::MAX,
            rows == total_rows(shapes@.take(i as int)),
            forall|j: int| 0 <= j < i ==> same_tail(first@, (#[trigger] shapes@[j])@),
        decreases shapes@.len() - i,
    {
        let shape: &Vec<usize> = &shapes[i];
        if shape.len() != first.len() {
            assert(!same_tail(first@, shapes@[i as int]@));
            return None;
        }
        let mut d: usize = 1;
        while d < first.len()
            invariant
                1 <= d <= first@.len() == shape@.len(),
                i < shapes@.len(),
                shape@ == shapes@[i as int]@,
                first@ == shapes@[0]@,
                forall|e: int| 1 <= e < d ==> #[trigger] first@[e] == shape@[e],
            decreases first@.len() - d,
        {
            if first[d] != shape[d] {
                assert(!same_tail(first@, shapes@[i as int]@));
                return None;
            }
            d = d + 1;
        }
        proof {
            assert(shapes@.take(i + 1).drop_last() =~= shapes@.take(i as int));
            assert(total_rows(shapes@.take(i + 1)) <= usize::MAX);
        }
        rows = rows + shape[0];
        i = i + 1;
    }
    assert(shapes@.take(i as int) =~= shapes@);
    let mut shape: Vec<usize> = slice_to_vec(first.as_slice());
    shape.set(0, rows);
    Some(shape)
}

/// Puts all parts one behind the other, and remembers how long each was.
pub fn concat<T: Copy>(parts: &Vec<Vec<T>>, shapes: Vec<Vec<usize>>) -> (result: (Vec<T>, ConcatOp))
    ensures
        result.0@ == joined_parts(parts@),
        result.1.shapes == shapes,
        result.1.split_sizes@.len() == parts@.len(),
        forall|i: int|
            0 <= i < parts@.len() ==> #[trigger] result.1.split_sizes@[i] == parts@[i]@.len(),
{
    let mut out: Vec<T> = Vec::new();
    let mut split_sizes: Vec<usize> = Vec::new();
    let mut i: usize = 0;
    while i < parts.len()
        invariant
            i <= parts@.len(),
            out@ == joined_parts(parts@.take(i as int)),
            split_sizes@.len() == i,
            forall|j: int| 0 <= j < i ==> #[trigger] split_sizes@[j] == parts@[j]@.len(),
        decreases parts@.len() - i,
    {
        let part: &Vec<T> = &parts[i];
        let ghost before = out@;
        assert(parts@.take(i + 1).drop_last() =~= parts@.take(i as int));
        let mut j: usize = 0;
        assert(before + part@.take(0) =~= before);
        while j < part.len()
            invariant
                j <= part@.len(),
                out@ == before + part@.take(j as int),
            decreases part@.len() - j,
        {
            out.push(part[j]);
            assert(part@.take(j + 1) =~= part@.take(j as int).push(part@[j as int]));
            assert(out@ =~= before + part@.take(j + 1));
            j = j + 1;
        }
        assert(part@.take(j as int) =~= part@);
        split_sizes.push(part.len());
        i = i + 1;
    }
    assert(parts@.take(i as int) =~= parts@);
    (out, ConcatOp { split_sizes, shapes })
}

impl ConcatOp {
    /// Cuts the gradient into the parts of the inputs.
    pub fn backward<T: Copy>(&self, grad: &[T]) -> (grads: Vec<Vec<T>>)
        requires
            total(self.split_sizes@) <= grad@.len(),
        ensures
            grads@.len() == self.split_sizes@.len(),
            joined_parts(grads@) == grad@.take(total(self.split_sizes@) as int),
            forall|i: int|
                0 <= i < grads@.len() ==> (#[trigger] grads@[i])@.len() == self.split_sizes@[i],
    {
        let len: usize = grad.len();
        let mut grads: Vec<Vec<T>> = Vec::new();
        let mut offset: usize = 0;
        let mut i: usize = 0;
        assert(joined_parts(grads@) =~= grad@.take(0));
        while i < self.split_sizes.len()
            invariant
                i <= self.split_sizes@.len(),
                len == grad@.len(),
                total(self.split_sizes@) <= grad@.len(),
                offset == total(self.split_sizes@.take(i as int)) <= len,
                grads@.len() == i,
                joined_parts(grads@) == grad@.take(offset as int),
                forall|j: int|
                    0 <= j < i ==> (#[trigger] grads@[j])@.len() == self.split_sizes@[j],
            decreases self.split_sizes@.len() - i,
        {
            let size: usize = self.split_sizes[i];
            let ghost before = grads@;
            proof {
                assert(self.split_sizes@.take(i + 1).drop_last() =~= self.split_sizes@.take(
                    i as int,
                ));
                lemma_total_prefix(self.split_sizes@, i + 1);
            }
            let part: Vec<T> = slice_to_vec(slice_subrange(grad, offset, offset + size));
            grads.push(part);
            proof {
                assert(grads@.drop_last() =~= before);
                assert(grad@.take(offset as int) + grad@.subrange(offset as int, offset + size)
                    =~= grad@.take(offset + size));
            }
            offset = offset + size;
            i = i + 1;
        }
        assert(self.split_sizes@.take(i as int) =~= self.split_sizes@);
        grads
    }
}

proof fn lemma_total_prefix(sizes: Seq<usize>, n: int)
    requires
        0 <= n <= sizes.len(),
    ensures
        total(sizes.take(n)) <= total(sizes),
    decreases sizes.len(),
{
    if n < sizes.len() {
        lemma_total_prefix(sizes.drop_last(), n);
        assert(sizes.drop_last().take(n) =~= sizes.take(n));
    } else {
        assert(sizes.take(n) =~= sizes);
    }
}

/// Parts are determined by what they make together and by their lengths: cutting what was
/// joined gives back the parts.
pub proof fn law_parts_come_back<T>(a: Seq<Vec<T>>, b: Seq<Vec<T>>)
    requires
        a.len() == b.len(),
        forall|i: int| 0 <= i < a.len() ==> (#[trigger] a[i])@.len() == b[i]@.len(),
        joined_parts(a) == joined_parts(b),
    ensures
        forall|i: int| 0 <= i < a.len() ==> (#[trigger] a[i])@ == b[i]@,
    decreases a.len(),
{
    if a.len() > 0 {
        let (x, y) = (joined_parts(a.drop_last()), joined_parts(b.drop_last()));
        assert(a.last()@.len() == b.last()@.len()) by {
            assert(a[a.len() - 1]@.len() == b[a.len() - 1]@.len());
        }
        assert(x.len() == y.len()) by {
            assert((x + a.last()@).len() == (y + b.last()@).len());
        }
        assert(x =~= (x + a.last()@).take(x.len() as int));
        assert(y =~= (y + b.last()@).take(y.len() as int));
        assert(a.last()@ =~= (x + a.last()@).skip(x.len() as int));
        assert(b.last()@ =~= (y + b.last()@).skip(y.len() as int));
        assert forall|i: int| 0 <= i < a.drop_last().len() implies (#[trigger] a.drop_last()[i])@.len()
            == b.drop_last()[i]@.len() by {
            assert(a[i]@.len() == b[i]@.len());
        }
        law_parts_come_back(a.drop_last(), b.drop_last());
        assert forall|i: int| 0 <= i < a.len() implies (#[trigger] a[i])@ == b[i]@ by {
            if i < a.len() - 1 {
                assert(a.drop_last()[i]@ == b.drop_last()[i]@);
            }
        }
    }
}

/// The gradient of a table of rows, over real numbers: every element of a row gets the gradients of
/// all places of the result that its row was picked for, at its own place within the row.
pub proof fn law_picked_rows_get_all_their_gradients<T: Scalar>(
    reading: Reading<T>,
    op: EmbeddingLookupOp,
    grad: Seq<T>,
    row: int,
    c: int,
)
    requires
        reading.is_ring(),
        op.fits(),
        reading.all_finite(grad),
        op.indices@.len() * op.embedding_dim <= grad.len(),
        0 <= row < op.num_embeddings,
        0 <= c < op.embedding_dim,
    ensures
        op.gradient(grad).len() == op.num_embeddings as nat * op.embedding_dim as nat,
        reading.reads(
            op.gradient(grad)[row * op.embedding_dim + c],
            reals::sum_to(
                op.indices@.len() * op.embedding_dim as nat,
                |q: int|
                    if op.indices@[q / op.embedding_dim as int] == row && q
                        % op.embedding_dim as int == c {
                        reading.at(grad, q)
                    } else {
                        0real
                    },
            ),
        ),
{
    let dim = op.embedding_dim as int;
    let n = op.indices@.len() * op.embedding_dim as nat;
    let p = row * dim + c;
    lemma_split_position(row, c, op.num_embeddings as int, dim);
    let places = op.sources();
    reading.lemma_landed(grad, places, p, n);
    let left = |q: int|
        if places[q] == p {
            reading.at(grad, q)
        } else {
            0real
        };
    let right = |q: int|
        if op.indices@[q / op.embedding_dim as int] == row && q % op.embedding_dim as int == c {
            reading.at(grad, q)
        } else {
            0real
        };
    assert forall|q: int| 0 <= q < n implies #[trigger] left(q) == right(q) by {
        let (i, d) = (q / dim, q % dim);
        lemma_fundamental_div_mod(q, dim);
        assert(0 <= d < dim) by (nonlinear_arith)
            requires
                dim > 0,
                d == q % dim,
        ;
        assert(0 <= i && i < op.indices@.len()) by (nonlinear_arith)
            requires
                dim > 0,
                0 <= q < op.indices@.len() * dim,
                i == q / dim,
        ;
        let index = op.indices@[i] as int;
        lemma_split_position(index, d, op.num_embeddings as int, dim);
    }
    reals::lemma_same_sum(n, left, right);
}

/// The gradient of a shorter tensor that was added over and over, over real numbers: each element
/// gets the gradients of all places that it was added to.
pub proof fn law_repeated_elements_get_all_their_gradients<T: Scalar>(
    reading: Reading<T>,
    op: BroadcastAddOp,
    grad: Seq<T>,
    p: int,
)
    requires
        reading.is_ring(),
        reading.all_finite(grad),
        shape::volume(op.b_shape@) <= usize::MAX,
        0 <= p < shape::volume(op.b_shape@),
    ensures
        op.short_gradient(grad).len() == shape::volume(op.b_shape@),
        reading.reads(
            op.short_gradient(grad)[p],
            reals::sum_to(
                grad.len(),
                |q: int|
                    if q % shape::volume(op.b_shape@) as int == p {
                        reading.at(grad, q)
                    } else {
                        0real
                    },
            ),
        ),
{
    let period = shape::volume(op.b_shape@) as int;
    let places = op.targets(grad.len());
    reading.lemma_landed(grad, places, p, grad.len());
    let left = |q: int|
        if places[q] == p {
            reading.at(grad, q)
        } else {
            0real
        };
    let right = |q: int|
        if q % shape::volume(op.b_shape@) as int == p {
            reading.at(grad, q)
        } else {
            0real
        };
    assert forall|q: int| 0 <= q < grad.len() implies #[trigger] left(q) == right(q) by {
        let d = q % period;
        assert(0 <= d < period) by (nonlinear_arith)
            requires
                period > 0,
                d == q % period,
        ;
    }
    reals::lemma_same_sum(grad.len(), left, right);
}

} // verus!
