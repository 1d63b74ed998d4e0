//! Operands read as arrays of real numbers, which laws about layers are stated over.

use super::operand::Operand;
use crate::tensor::number;
use crate::tensor::ops;
use crate::tensor::reals;
use crate::tensor::reals::Reading;
use crate::tensor::shape;
use vstd::prelude::*;

verus! {

/// A way to read operands: their dimensions and, row by row, the real numbers in their cells. A
/// hidden cell holds no real number but less than all of them.
#[verifier::reject_recursive_types(V)]
pub struct ArrayReading<V: Operand> {
    pub numbers: Reading<V::Num>,
    pub dims: spec_fn(V) -> Seq<usize>,
    pub cells: spec_fn(V) -> Seq<real>,
    pub hidden: spec_fn(V, int) -> bool,
}

impl<V: Operand> ArrayReading<V> {
    /// Whether an operand holds nothing but real numbers.
    pub open spec fn is_plain(self, x: V) -> bool {
        forall|p: int| 0 <= p < (self.cells)(x).len() ==> !(#[trigger] (self.hidden)(x, p))
    }

    /// Whether an operand is a list of `n` real numbers.
    pub open spec fn is_list(self, x: V, n: int) -> bool {
        &&& (self.dims)(x).len() == 1
        &&& (self.dims)(x)[0] == n
        &&& (self.cells)(x).len() == n
        &&& self.is_plain(x)
    }

    /// Whether an operand is a matrix of real numbers with `rows` rows of `cols` elements.
    pub open spec fn is_matrix(self, x: V, rows: int, cols: int) -> bool {
        &&& (self.dims)(x).len() == 2
        &&& (self.dims)(x)[0] == rows
        &&& (self.dims)(x)[1] == cols
        &&& (self.cells)(x).len() == rows * cols
        &&& self.is_plain(x)
    }

    /// Whether an operand is a batch of matrices of real numbers.
    pub open spec fn is_batch(self, x: V, batch: int, rows: int, cols: int) -> bool {
        &&& (self.dims)(x).len() == 3
        &&& (self.dims)(x)[0] == batch
        &&& (self.dims)(x)[1] == rows
        &&& (self.dims)(x)[2] == cols
        &&& (self.cells)(x).len() == (batch * rows) * cols
        &&& self.is_plain(x)
    }

    /// Element `j` of row `i` of a matrix.
    pub open spec fn at(self, x: V, i: int, j: int) -> real {
        (self.cells)(x)[i * (self.dims)(x)[1] + j]
    }

    /// Element `j` of row `i` of matrix `b` of a batch.
    pub open spec fn in_batch(self, x: V, b: int, i: int, j: int) -> real {
        (self.cells)(x)[(b * (self.dims)(x)[1] + i) * (self.dims)(x)[2] + j]
    }

    /// Whether two operands hold the same.
    pub open spec fn is_same(self, x: V, y: V) -> bool {
        &&& (self.dims)(y) == (self.dims)(x)
        &&& (self.cells)(y) == (self.cells)(x)
        &&& forall|p: int| #[trigger] (self.hidden)(y, p) == (self.hidden)(x, p)
    }

    /// Whether handles hold what they are handles of, and sizes and elements are what they are
    /// called.
    pub open spec fn reads_parts(self) -> bool {
        &&& forall|x: V, y: V| #[trigger] V::handle.ensures((&x,), y) ==> self.is_same(x, y)
        &&& forall|x: V, y: V| #[trigger] V::detach.ensures((&x,), y) ==> self.is_same(x, y)
        &&& forall|x: V, y: V| #[trigger] V::frozen.ensures((x,), y) ==> self.is_same(x, y)
        &&& forall|x: V, n: usize, rows: int, cols: int|
            #![trigger V::rows.ensures((&x,), n), self.is_matrix(x, rows, cols)]
            self.is_matrix(x, rows, cols) && V::rows.ensures((&x,), n) ==> n == rows
        &&& forall|x: V, n: usize, rows: int, cols: int|
            #![trigger V::cols.ensures((&x,), n), self.is_matrix(x, rows, cols)]
            self.is_matrix(x, rows, cols) && V::cols.ensures((&x,), n) ==> n == cols
        &&& forall|x: V, list: Vec<V::Num>|
            self.is_plain(x) && #[trigger] V::elements.ensures((&x,), list) ==> {
                &&& list@.len() == (self.cells)(x).len()
                &&& self.holds(list@, (self.cells)(x))
            }
        &&& forall|x: V, list: Vec<V::Num>, y: V|
            self.numbers.all_finite(list@) && list@.len() == (self.cells)(x).len()
                && #[trigger] V::with_elements.ensures((&x, list), y) ==> {
                &&& (self.dims)(y) == (self.dims)(x)
                &&& (self.cells)(y).len() == list@.len()
                &&& self.holds(list@, (self.cells)(y))
                &&& self.is_plain(y)
            }
        &&& forall|n: usize, value: V::Num, y: V|
            (self.numbers.finite)(value) && #[trigger] V::filled.ensures((n, value), y) ==> {
                &&& self.is_list(y, n as int)
                &&& forall|p: int|
                    0 <= p < n ==> #[trigger] (self.cells)(y)[p] == self.numbers.of(value)
            }
        &&& forall|rows: usize, cols: usize, value: V::Num, y: V|
            (self.numbers.finite)(value) && #[trigger] V::filled_matrix.ensures(
                (rows, cols, value),
                y,
            ) ==> {
                &&& self.is_matrix(y, rows as int, cols as int)
                &&& forall|i: int, j: int|
                    0 <= i < rows && 0 <= j < cols ==> #[trigger] self.at(y, i, j)
                        == self.numbers.of(value)
            }
        &&& forall|rows: usize, cols: usize, y: V| #[trigger]
            V::kaiming_normal.ensures((rows, cols), y) ==> self.is_matrix(
                y,
                rows as int,
                cols as int,
            )
        &&& forall|rows: usize, cols: usize, y: V| #[trigger]
            V::xavier_uniform.ensures((rows, cols), y) ==> self.is_matrix(
                y,
                rows as int,
                cols as int,
            )
    }

    /// Whether a list of numbers stands for these real numbers.
    pub open spec fn holds(self, list: Seq<V::Num>, cells: Seq<real>) -> bool {
        forall|p: int| 0 <= p < list.len() ==> self.numbers.reads(#[trigger] list[p], cells[p])
    }

    /// The cells of two operands together, one by one.
    pub open spec fn is_combined(
        self,
        x: V,
        y: V,
        z: V,
        combine: spec_fn(real, real) -> real,
    ) -> bool {
        &&& (self.dims)(z) == (self.dims)(x)
        &&& (self.cells)(z).len() == (self.cells)(x).len()
        &&& self.is_plain(z)
        &&& forall|p: int|
            0 <= p < (self.cells)(x).len() ==> #[trigger] (self.cells)(z)[p] == combine(
                (self.cells)(x)[p],
                (self.cells)(y)[p],
            )
    }

    /// Whether what is done cell by cell is what it is called.
    pub open spec fn works_on_cells(self) -> bool {
        &&& forall|x: V, y: V, z: V|
            self.is_plain(x) && self.is_plain(y) && (self.dims)(x) == (self.dims)(y)
                && (self.cells)(x).len() == (self.cells)(y).len()
                && #[trigger] V::added.ensures((&x, &y), z) ==> self.is_combined(
                x,
                y,
                z,
                |a: real, b: real| a + b,
            )
        &&& forall|x: V, y: V, z: V|
            self.is_plain(x) && self.is_plain(y) && (self.dims)(x) == (self.dims)(y)
                && (self.cells)(x).len() == (self.cells)(y).len()
                && #[trigger] V::multiplied.ensures((&x, &y), z) ==> self.is_combined(
                x,
                y,
                z,
                |a: real, b: real| a * b,
            )
        &&& forall|x: V, factor: V::Num, z: V|
            self.is_plain(x) && (self.numbers.finite)(factor) && #[trigger] V::scale.ensures(
                (&x, factor),
                z,
            ) ==> {
                &&& (self.dims)(z) == (self.dims)(x)
                &&& (self.cells)(z).len() == (self.cells)(x).len()
                &&& self.is_plain(z)
                &&& forall|p: int|
                    0 <= p < (self.cells)(x).len() ==> #[trigger] (self.cells)(z)[p]
                        == self.numbers.of(factor) * (self.cells)(x)[p]
            }
        &&& forall|x: V, list: V, z: V, rows: int, cols: int|
            #![trigger V::broadcast_add.ensures((&x, &list), z), self.is_matrix(x, rows, cols)]
            self.is_matrix(x, rows, cols) && self.is_list(list, cols)
                && V::broadcast_add.ensures((&x, &list), z) ==> {
                &&& self.is_matrix(z, rows, cols)
                &&& forall|i: int, j: int|
                    0 <= i < rows && 0 <= j < cols ==> #[trigger] self.at(z, i, j) == self.at(
                        x,
                        i,
                        j,
                    ) + (self.cells)(list)[j]
            }
        &&& forall|x: V, mask: &[bool], fill: V::Num, z: V|
            self.is_plain(x) && number::is_lowest(fill) && mask@.len() == (self.cells)(x).len()
                && #[trigger] V::masked_fill.ensures((&x, mask, fill), z) ==> {
                &&& (self.dims)(z) == (self.dims)(x)
                &&& (self.cells)(z).len() == (self.cells)(x).len()
                &&& forall|p: int|
                    0 <= p < mask@.len() ==> #[trigger] (self.hidden)(z, p) == mask@[p]
                &&& forall|p: int|
                    0 <= p < mask@.len() && !mask@[p] ==> #[trigger] (self.cells)(z)[p]
                        == (self.cells)(x)[p]
            }
        &&& forall|x: V, dims: Vec<usize>, z: V|
            (self.cells)(x).len() == shape::volume(dims@) && #[trigger] V::reshape.ensures(
                (&x, dims),
                z,
            ) ==> {
                &&& (self.dims)(z) == dims@
                &&& (self.cells)(z) == (self.cells)(x)
                &&& forall|p: int| #[trigger] (self.hidden)(z, p) == (self.hidden)(x, p)
            }
    }

    /// The product of row `i` of one matrix with column `j` of another, over `n` elements.
    pub open spec fn dot(self, x: V, i: int, y: V, j: int, n: int) -> real {
        reals::sum_to(n as nat, |k: int| self.at(x, i, k) * self.at(y, k, j))
    }

    /// Whether products and transposes of matrices are what they are called.
    pub open spec fn multiplies_matrices(self) -> bool {
        &&& forall|x: V, z: V, rows: int, cols: int|
            #![trigger V::transpose.ensures((&x,), z), self.is_matrix(x, rows, cols)]
            self.is_matrix(x, rows, cols) && V::transpose.ensures((&x,), z) ==> {
                &&& self.is_matrix(z, cols, rows)
                &&& forall|i: int, j: int|
                    0 <= i < cols && 0 <= j < rows ==> #[trigger] self.at(z, i, j) == self.at(
                        x,
                        j,
                        i,
                    )
            }
        &&& forall|x: V, y: V, z: V, rows: int, n: int, cols: int|
            #![trigger V::matmul.ensures((&x, &y), z), self.is_matrix(x, rows, n),
                self.is_matrix(y, n, cols)]
            self.is_matrix(x, rows, n) && self.is_matrix(y, n, cols) && V::matmul.ensures(
                (&x, &y),
                z,
            ) ==> {
                &&& self.is_matrix(z, rows, cols)
                &&& forall|i: int, j: int|
                    0 <= i < rows && 0 <= j < cols ==> #[trigger] self.at(z, i, j) == self.dot(
                        x,
                        i,
                        y,
                        j,
                        n,
                    )
            }
        &&& forall|x: V, z: V, batch: usize, rows: usize, cols: usize|
            self.is_batch(x, batch as int, rows as int, cols as int)
                && #[trigger] V::batch_transpose.ensures((&x, batch, rows, cols), z) ==> {
                &&& self.is_batch(z, batch as int, cols as int, rows as int)
                &&& forall|b: int, i: int, j: int|
                    0 <= b < batch && 0 <= i < cols && 0 <= j < rows ==> #[trigger] self.in_batch(
                        z,
                        b,
                        i,
                        j,
                    ) == self.in_batch(x, b, j, i)
            }
        &&& forall|x: V, y: V, z: V, batch: int, rows: int, n: int, cols: int|
            #![trigger V::batch_matmul.ensures((&x, &y), z), self.is_batch(x, batch, rows, n),
                self.is_batch(y, batch, n, cols)]
            self.is_batch(x, batch, rows, n) && self.is_batch(y, batch, n, cols)
                && V::batch_matmul.ensures((&x, &y), z) ==> {
                &&& self.is_batch(z, batch, rows, cols)
                &&& forall|b: int, i: int, j: int|
                    0 <= b < batch && 0 <= i < rows && 0 <= j < cols ==> #[trigger] self.in_batch(
                        z,
                        b,
                        i,
                        j,
                    ) == reals::sum_to(
                        n as nat,
                        |k: int| self.in_batch(x, b, i, k) * self.in_batch(y, b, k, j),
                    )
            }
    }

    /// Whether heads are cut out of rows and put together to rows again.
    pub open spec fn cuts_heads(self) -> bool {
        &&& forall|x: V, z: V, n: usize, heads: usize, dim: usize|
            self.is_matrix(x, n as int, heads * dim) && #[trigger] V::reshape_to_heads.ensures(
                (&x, n, heads, dim),
                z,
            ) ==> {
                &&& self.is_batch(z, heads as int, n as int, dim as int)
                &&& forall|h: int, i: int, p: int|
                    0 <= h < heads && 0 <= i < n && 0 <= p < dim ==> #[trigger] self.in_batch(
                        z,
                        h,
                        i,
                        p,
                    ) == self.at(x, i, h * dim + p)
            }
        &&& forall|x: V, z: V, n: usize, heads: usize, dim: usize|
            self.is_batch(x, heads as int, n as int, dim as int)
                && #[trigger] V::reshape_from_heads.ensures((&x, n, heads, dim), z) ==> {
                &&& self.is_matrix(z, n as int, heads * dim)
                &&& forall|h: int, i: int, p: int|
                    0 <= h < heads && 0 <= i < n && 0 <= p < dim ==> #[trigger] self.in_batch(
                        x,
                        h,
                        i,
                        p,
                    ) == self.at(z, i, h * dim + p)
            }
    }

    /// How much an element of a row weighs: its exponential, and nothing where it is hidden.
    pub open spec fn weight(self, x: V, i: int, j: int) -> real {
        if (self.hidden)(x, i * (self.dims)(x)[1] + j) {
            0real
        } else {
            (self.numbers.exp)(self.at(x, i, j))
        }
    }

    /// Whether an element of row `i` is to be seen.
    pub open spec fn shows_some(self, x: V, i: int) -> bool {
        exists|j: int| 0 <= j < (self.dims)(x)[1] && #[trigger] self.weight(x, i, j) > 0real
    }

    /// Whether the elements of every row are shared out by their weights, as long as one is to be
    /// seen in each row.
    pub open spec fn shares_rows(self) -> bool {
        forall|x: V, z: V|
            (self.dims)(x).len() == 2 && (self.cells)(x).len() == (self.dims)(x)[0]
                * (self.dims)(x)[1] && (forall|i: int|
                0 <= i < (self.dims)(x)[0] ==> #[trigger] self.shows_some(x, i))
                && #[trigger] V::softmax.ensures((&x,), z) ==> {
                &&& self.is_matrix(z, (self.dims)(x)[0] as int, (self.dims)(x)[1] as int)
                &&& forall|i: int, j: int|
                    0 <= i < (self.dims)(x)[0] && 0 <= j < (self.dims)(x)[1]
                        ==> #[trigger] self.at(z, i, j) == self.weight(x, i, j) / reals::sum_to(
                        (self.dims)(x)[1] as nat,
                        |k: int| self.weight(x, i, k),
                    )
            }
    }

    /// The angle by which pair `pair` of position `pos` is turned, where the exponential of `log`
    /// is the base: later pairs turn more slowly.
    pub open spec fn angle(self, log: real, dim: int, pos: int, pair: int) -> real {
        pos as real / (self.numbers.exp)(log * ((2 * pair) as real / dim as real))
    }

    /// Element `p` of a position after pairs were turned, of which `before` tells the elements.
    pub open spec fn turned(
        self,
        log: real,
        dim: int,
        pos: int,
        p: int,
        before: spec_fn(int) -> real,
    ) -> real {
        let angle = self.angle(log, dim, pos, p / 2);
        let (sin, cos) = ((self.numbers.sin)(angle), (self.numbers.cos)(angle));
        if p % 2 == 0 {
            before(p) * cos - before(p + 1) * sin
        } else {
            before(p - 1) * sin + before(p) * cos
        }
    }

    /// Whether pairs of elements are turned by their position.
    pub open spec fn turns_pairs(self) -> bool {
        forall|x: V, base: V::Num, z: V, log: real, heads: int, n: int, dim: int|
            #![trigger V::rotary_position_embedding.ensures((&x, base), z),
                self.is_batch(x, heads, n, dim), (self.numbers.exp)(log)]
            self.is_batch(x, heads, n, dim) && dim % 2 == 0 && self.numbers.reads(
                base,
                (self.numbers.exp)(log),
            ) && V::rotary_position_embedding.ensures((&x, base), z) ==> {
                &&& self.is_batch(z, heads, n, dim)
                &&& forall|h: int, i: int, p: int|
                    0 <= h < heads && 0 <= i < n && 0 <= p < dim ==> #[trigger] self.in_batch(
                        z,
                        h,
                        i,
                        p,
                    ) == self.turned(log, dim, i, p, |k: int| self.in_batch(x, h, i, k))
            }
    }

    /// Whether `b` is what the Gaussian error linear unit makes of `a`: it lets through in
    /// proportion to the exponential of its argument, against that of the opposite.
    pub open spec fn is_bent(self, a: real, b: real) -> bool {
        forall|root: real|
            root >= 0real && root * root * self.numbers.half_turn == 2real ==> {
                let u = #[trigger] number::real_argument(root, a);
                b * ((self.numbers.exp)(u) + (self.numbers.exp)(-u)) == a * (self.numbers.exp)(u)
            }
    }

    /// Whether units bend and open what goes through them.
    pub open spec fn bends_cells(self) -> bool {
        &&& forall|x: V, z: V, rows: int, cols: int|
            #![trigger V::gelu.ensures((&x,), z), self.is_matrix(x, rows, cols)]
            self.is_matrix(x, rows, cols) && V::gelu.ensures((&x,), z) ==> {
                &&& self.is_matrix(z, rows, cols)
                &&& forall|i: int, j: int|
                    0 <= i < rows && 0 <= j < cols ==> self.is_bent(
                        self.at(x, i, j),
                        #[trigger] self.at(z, i, j),
                    )
            }
        &&& forall|x: V, gate: V, z: V, rows: int, cols: int|
            #![trigger V::swiglu.ensures((&x, &gate), z), self.is_matrix(x, rows, cols)]
            self.is_matrix(x, rows, cols) && self.is_matrix(gate, rows, cols)
                && V::swiglu.ensures((&x, &gate), z) ==> {
                &&& self.is_matrix(z, rows, cols)
                &&& forall|i: int, j: int|
                    0 <= i < rows && 0 <= j < cols ==> #[trigger] self.at(z, i, j) * (1real + (
                    self.numbers.exp)(-self.at(gate, i, j))) == self.at(x, i, j) * self.at(
                        gate,
                        i,
                        j,
                    )
            }
    }

    /// What a row of `cols` elements is moved by before it is spread: its mean, or nothing.
    pub open spec fn center(self, x: V, i: int, cols: int, centred: bool) -> real {
        if centred {
            reals::sum_to(cols as nat, |k: int| self.at(x, i, k)) / (cols as real)
        } else {
            0real
        }
    }

    /// Whether `scale` is the root of the mean square of a row around its centre and a small
    /// number more.
    pub open spec fn is_scale(
        self,
        x: V,
        i: int,
        cols: int,
        centred: bool,
        eps: real,
        scale: real,
    ) -> bool {
        let center = self.center(x, i, cols, centred);
        &&& scale > 0real
        &&& scale * scale == reals::sum_to(
            cols as nat,
            |k: int| (self.at(x, i, k) - center) * (self.at(x, i, k) - center),
        ) / (cols as real) + eps
    }

    /// Whether the rows of `z` are those of `x` brought to a common spread, stretched by `gain`
    /// and moved by `shift`.
    pub open spec fn is_spread(
        self,
        x: V,
        rows: int,
        cols: int,
        centred: bool,
        eps: real,
        gain: spec_fn(int) -> real,
        shift: spec_fn(int) -> real,
        z: V,
    ) -> bool {
        &&& self.is_matrix(z, rows, cols)
        &&& forall|i: int, j: int, scale: real|
            #![trigger self.at(z, i, j), self.is_scale(x, i, cols, centred, eps, scale)]
            0 <= i < rows && 0 <= j < cols && self.is_scale(x, i, cols, centred, eps, scale) ==> (
            self.at(z, i, j) - shift(j)) * scale == gain(j) * (self.at(x, i, j) - self.center(
                x,
                i,
                cols,
                centred,
            ))
    }

    /// Whether rows are normalised and looked up.
    pub open spec fn works_on_rows(self) -> bool {
        &&& forall|x: V, dim: usize, gain: V, shift: V, eps: V::Num, z: V, rows: int|
            #![trigger V::layer_norm.ensures((&x, dim, &gain, &shift, eps), z),
                self.is_matrix(x, rows, dim as int)]
            self.is_matrix(x, rows, dim as int) && self.is_list(gain, dim as int) && self.is_list(
                shift,
                dim as int,
            ) && (self.numbers.finite)(eps) && V::layer_norm.ensures(
                (&x, dim, &gain, &shift, eps),
                z,
            ) ==> self.is_spread(
                x,
                rows,
                dim as int,
                true,
                self.numbers.of(eps),
                |j: int| (self.cells)(gain)[j],
                |j: int| (self.cells)(shift)[j],
                z,
            )
        &&& forall|x: V, gain: V, eps: V::Num, z: V, rows: int, cols: int|
            #![trigger V::rms_norm.ensures((&x, &gain, eps), z), self.is_matrix(x, rows, cols)]
            self.is_matrix(x, rows, cols) && self.is_list(gain, cols) && (self.numbers.finite)(eps)
                && V::rms_norm.ensures((&x, &gain, eps), z) ==> self.is_spread(
                x,
                rows,
                cols,
                false,
                self.numbers.of(eps),
                |j: int| (self.cells)(gain)[j],
                |j: int| 0real,
                z,
            )
        &&& forall|x: V, indices: &[usize], z: V, rows: int, cols: int|
            #![trigger V::embedding_lookup.ensures((&x, indices), z), self.is_matrix(x, rows, cols)]
            self.is_matrix(x, rows, cols) && (forall|i: int|
                0 <= i < indices@.len() ==> (#[trigger] indices@[i]) < rows)
                && V::embedding_lookup.ensures((&x, indices), z) ==> {
                &&& self.is_matrix(z, indices@.len() as int, cols)
                &&& forall|i: int, j: int|
                    0 <= i < indices@.len() && 0 <= j < cols ==> #[trigger] self.at(z, i, j)
                        == self.at(x, indices@[i] as int, j)
            }
        &&& forall|x: V, list: Vec<V::Num>| #[trigger]
            V::chances.ensures((&x,), list) ==> {
                &&& list@.len() == (self.cells)(x).len()
                &&& self.numbers.all_finite(list@)
            }
    }

    /// Whether every operation is that of arrays of real numbers.
    pub open spec fn is_faithful(self) -> bool {
        &&& self.numbers.is_faithful()
        &&& self.reads_parts()
        &&& self.works_on_cells()
        &&& self.multiplies_matrices()
        &&& self.cuts_heads()
        &&& self.shares_rows()
        &&& self.turns_pairs()
        &&& self.bends_cells()
        &&& self.works_on_rows()
    }

    /// An element of a matrix has a cell.
    pub proof fn lemma_cell(self, x: V, rows: int, cols: int, i: int, j: int)
        requires
            self.is_matrix(x, rows, cols),
            0 <= i < rows,
            0 <= j < cols,
        ensures
            0 <= i * cols + j < (self.cells)(x).len(),
            self.at(x, i, j) == (self.cells)(x)[i * cols + j],
    {
        ops::lemma_split_position(i, j, rows, cols);
    }

    /// The sum of two matrices, element by element.
    pub proof fn lemma_added(self, x: V, y: V, z: V, rows: int, cols: int)
        requires
            self.is_faithful(),
            self.is_matrix(x, rows, cols),
            self.is_matrix(y, rows, cols),
            V::added.ensures((&x, &y), z),
        ensures
            self.is_matrix(z, rows, cols),
            forall|i: int, j: int|
                0 <= i < rows && 0 <= j < cols ==> #[trigger] self.at(z, i, j) == self.at(x, i, j)
                    + self.at(y, i, j),
    {
        assert((self.dims)(x) =~= (self.dims)(y));
        assert forall|i: int, j: int| 0 <= i < rows && 0 <= j < cols implies #[trigger] self.at(
            z,
            i,
            j,
        ) == self.at(x, i, j) + self.at(y, i, j) by {
            self.lemma_cell(x, rows, cols, i, j);
        }
    }
}

} // verus!
