//! Products of matrices, which lie row by row in flat lists.

use super::arith::Scalar;
use super::ops;
use super::reals;
use super::reals::Reading;
use vstd::arithmetic::mul::{lemma_mul_inequality, lemma_mul_is_distributive_add_other_way};
use vstd::prelude::*;
use vstd::slice::slice_subrange;

verus! {

/// Vectors in a flat list: vector `i` has its element `p` at `start + i * outer + p * inner`.
#[derive(Debug, Clone, Copy, PartialEq, Eq, Structural)]
pub struct Vectors {
    pub start: usize,
    pub outer: usize,
    pub inner: usize,
}

impl Vectors {
    /// Where element `p` of vector `i` lies.
    pub open spec fn at(self, i: int, p: int) -> int {
        self.start + i * self.outer + p * self.inner
    }

    /// Whether the first `count` vectors of `n` elements lie within a list of length `len`.
    pub open spec fn within(self, count: nat, n: nat, len: nat) -> bool {
        forall|i: int, p: int|
            0 <= i < count && 0 <= p < n ==> 0 <= #[trigger] self.at(i, p) < len
    }
}

/// The sum of the products of the first `n` elements of vector `i` of `a` and vector `j` of
/// `b`, from the first product on.
pub open spec fn dot<T: Scalar>(
    a: Seq<T>,
    x: Vectors,
    i: int,
    b: Seq<T>,
    y: Vectors,
    j: int,
    n: nat,
) -> T
    decreases n,
{
    if n == 0 {
        T::nought()
    } else {
        dot(a, x, i, b, y, j, (n - 1) as nat).sum(
            a[x.at(i, n - 1)].product(b[y.at(j, n - 1)]),
        )
    }
}

/// The sum of the products of vector `i` of `a` and vector `j` of `b`.
pub fn dot_of<T: Scalar>(
    a: &[T],
    x: Vectors,
    i: usize,
    b: &[T],
    y: Vectors,
    j: usize,
    n: usize,
) -> (number: T)
    requires
        forall|p: int| 0 <= p < n ==> 0 <= #[trigger] x.at(i as int, p) < a@.len(),
        forall|p: int| 0 <= p < n ==> 0 <= #[trigger] y.at(j as int, p) < b@.len(),
    ensures
        number == dot(a@, x, i as int, b@, y, j as int, n as nat),
{
    let mut number = T::zero();
    let mut p: usize = 0;
    while p < n
        invariant
            p <= n,
            forall|p: int| 0 <= p < n ==> 0 <= #[trigger] x.at(i as int, p) < a@.len(),
            forall|p: int| 0 <= p < n ==> 0 <= #[trigger] y.at(j as int, p) < b@.len(),
            number == dot(a@, x, i as int, b@, y, j as int, p as nat),
        decreases n - p,
    {
        let u: usize = place(x, i, p, a.len());
        let v: usize = place(y, j, p, b.len());
        number = number.plus(a[u].times(b[v]));
        p = p + 1;
    }
    number
}

/// Where element `p` of vector `i` lies, within a list of length `len`.
fn place(x: Vectors, i: usize, p: usize, len: usize) -> (at: usize)
    requires
        0 <= x.at(i as int, p as int) < len,
    ensures
        at == x.at(i as int, p as int),
{
    proof {
        assert(i * x.outer >= 0) by (nonlinear_arith);
        assert(p * x.inner >= 0) by (nonlinear_arith);
    }
    x.start + i * x.outer + p * x.inner
}

/// The products of every one of the first `rows` vectors of `a` with every one of the first
/// `cols` vectors of `b`, row by row.
pub open spec fn table<T: Scalar>(
    a: Seq<T>,
    x: Vectors,
    rows: nat,
    b: Seq<T>,
    y: Vectors,
    cols: nat,
    n: nat,
) -> Seq<T> {
    Seq::new(
        rows * cols,
        |q: int| dot(a, x, q / cols as int, b, y, q % cols as int, n),
    )
}

/// Adds the products of `rows` vectors of `a` with `cols` vectors of `b` to a list.
fn push_table<T: Scalar>(
    out: &mut Vec<T>,
    a: &[T],
    x: Vectors,
    rows: usize,
    b: &[T],
    y: Vectors,
    cols: usize,
    n: usize,
)
    requires
        x.within(rows as nat, n as nat, a@.len()),
        y.within(cols as nat, n as nat, b@.len()),
    ensures
        final(out)@ == old(out)@ + table(a@, x, rows as nat, b@, y, cols as nat, n as nat),
{
    let ghost whole = table(a@, x, rows as nat, b@, y, cols as nat, n as nat);
    let mut i: usize = 0;
    assert(out@ =~= old(out)@ + whole.take(0));
    while i < rows
        invariant
            i <= rows,
            x.within(rows as nat, n as nat, a@.len()),
            y.within(cols as nat, n as nat, b@.len()),
            whole == table(a@, x, rows as nat, b@, y, cols as nat, n as nat),
            i * cols <= whole.len(),
            out@ == old(out)@ + whole.take(i * cols),
        decreases rows - i,
    {
        proof {
            lemma_mul_inequality(i + 1, rows as int, cols as int);
            lemma_mul_is_distributive_add_other_way(cols as int, i as int, 1);
        }
        let mut j: usize = 0;
        while j < cols
            invariant
                i < rows,
                j <= cols,
                x.within(rows as nat, n as nat, a@.len()),
                y.within(cols as nat, n as nat, b@.len()),
                whole == table(a@, x, rows as nat, b@, y, cols as nat, n as nat),
                i * cols + cols <= whole.len(),
                out@ == old(out)@ + whole.take(i * cols + j),
            decreases cols - j,
        {
            out.push(dot_of(a, x, i, b, y, j, n));
            proof {
                let q = i * cols + j;
                ops::lemma_split_position(i as int, j as int, rows as int, cols as int);
                assert(whole[q] == dot(a@, x, i as int, b@, y, j as int, n as nat));
                assert(out@ =~= old(out)@ + whole.take(q + 1));
            }
            j = j + 1;
        }
        i = i + 1;
    }
    assert(whole.take(i * cols) =~= whole);
}

/// The rows of a matrix whose rows have `len` elements.
pub open spec fn rows_of(len: usize) -> Vectors {
    Vectors { start: 0, outer: len, inner: 1 }
}

/// The columns of a matrix whose rows have `len` elements.
pub open spec fn columns_of(len: usize) -> Vectors {
    Vectors { start: 0, outer: 1, inner: len }
}

/// The rows of a matrix lie within it.
proof fn lemma_rows_within(len: usize, count: nat, size: nat)
    requires
        count * len <= size,
    ensures
        rows_of(len).within(count, len as nat, size),
{
    assert forall|i: int, p: int| 0 <= i < count && 0 <= p < len implies 0
        <= #[trigger] rows_of(len).at(i, p) < size by {
        ops::lemma_split_position(i, p, count as int, len as int);
    }
}

/// The columns of a matrix lie within it.
proof fn lemma_columns_within(len: usize, n: nat, size: nat)
    requires
        n * len <= size,
    ensures
        columns_of(len).within(len as nat, n, size),
{
    assert forall|j: int, p: int| 0 <= j < len && 0 <= p < n implies 0
        <= #[trigger] columns_of(len).at(j, p) < size by {
        ops::lemma_split_position(p, j, n as int, len as int);
    }
}

/// The product of an `m` by `k` and a `k` by `n` matrix: every element is the product of a row
/// and a column.
pub open spec fn matrix_product<T: Scalar>(
    a: Seq<T>,
    b: Seq<T>,
    m: usize,
    k: usize,
    n: usize,
) -> Seq<T> {
    table(a, rows_of(k), m as nat, b, columns_of(n), n as nat, k as nat)
}

/// Multiplies an `m` by `k` and a `k` by `n` matrix.
pub fn matmul<T: Scalar>(a: &[T], b: &[T], m: usize, k: usize, n: usize) -> (out: Vec<T>)
    requires
        m * k <= a@.len(),
        k * n <= b@.len(),
        m * n <= usize::MAX,
    ensures
        out@ == matrix_product(a@, b@, m, k, n),
{
    proof {
        lemma_rows_within(k, m as nat, a@.len());
        lemma_columns_within(n, k as nat, b@.len());
    }
    let mut out: Vec<T> = Vec::new();
    let x = Vectors { start: 0, outer: k, inner: 1 };
    let y = Vectors { start: 0, outer: 1, inner: n };
    push_table(&mut out, a, x, m, b, y, n, k);
    assert(out@ =~= matrix_product(a@, b@, m, k, n));
    out
}

/// Multiplication of two matrices, seen from its result.
#[derive(Debug, Clone, Copy, PartialEq, Eq, Structural)]
pub struct MatmulOp {
    pub m: usize,
    pub k: usize,
    pub n: usize,
}

impl MatmulOp {
    /// The gradient of the first matrix: rows of the gradient times rows of the second matrix.
    pub open spec fn first_grad<T: Scalar>(&self, grad: Seq<T>, b: Seq<T>) -> Seq<T> {
        table(
            grad,
            rows_of(self.n),
            self.m as nat,
            b,
            rows_of(self.n),
            self.k as nat,
            self.n as nat,
        )
    }

    /// The gradient of the second matrix: columns of the first matrix times columns of the
    /// gradient.
    pub open spec fn second_grad<T: Scalar>(&self, grad: Seq<T>, a: Seq<T>) -> Seq<T> {
        table(
            a,
            columns_of(self.k),
            self.k as nat,
            grad,
            columns_of(self.n),
            self.n as nat,
            self.m as nat,
        )
    }

    /// The gradients of both matrices.
    pub fn backward<T: Scalar>(&self, grad: &[T], a: &[T], b: &[T]) -> (grads: (Vec<T>, Vec<T>))
        requires
            self.m * self.n <= grad@.len(),
            self.m * self.k <= a@.len(),
            self.k * self.n <= b@.len(),
        ensures
            grads.0@ == self.first_grad(grad@, b@),
            grads.1@ == self.second_grad(grad@, a@),
    {
        let (m, k, n): (usize, usize, usize) = (self.m, self.k, self.n);
        proof {
            lemma_rows_within(n, m as nat, grad@.len());
            lemma_rows_within(n, k as nat, b@.len());
            lemma_columns_within(k, m as nat, a@.len());
            lemma_columns_within(n, m as nat, grad@.len());
        }
        let grad_rows = Vectors { start: 0, outer: n, inner: 1 };
        let grad_columns = Vectors { start: 0, outer: 1, inner: n };
        let a_columns = Vectors { start: 0, outer: 1, inner: k };
        let mut da: Vec<T> = Vec::new();
        push_table(&mut da, grad, grad_rows, m, b, grad_rows, k, n);
        let mut db: Vec<T> = Vec::new();
        push_table(&mut db, a, a_columns, k, grad, grad_columns, n, m);
        assert(da@ =~= self.first_grad(grad@, b@));
        assert(db@ =~= self.second_grad(grad@, a@));
        (da, db)
    }
}

/// Taking columns of a matrix is taking rows of its transpose.
proof fn lemma_dot_with_transpose<T: Scalar>(
    a: Seq<T>,
    x: Vectors,
    i: int,
    b: Seq<T>,
    rows: usize,
    cols: usize,
    j: int,
    n: nat,
)
    requires
        0 <= j < rows,
        n <= cols,
        rows * cols <= b.len(),
    ensures
        dot(a, x, i, ops::transposed(b, rows as nat, cols as nat), columns_of(rows), j, n)
            == dot(a, x, i, b, rows_of(cols), j, n),
    decreases n,
{
    if n > 0 {
        lemma_dot_with_transpose(a, x, i, b, rows, cols, j, (n - 1) as nat);
        let p = n - 1;
        ops::lemma_split_position(p, j, cols as int, rows as int);
    }
}

/// The gradient of the first matrix of a product is the gradient of the product times the
/// transpose of the second matrix.
pub proof fn law_first_gradient_is_a_product_with_the_transpose<T: Scalar>(
    op: MatmulOp,
    grad: Seq<T>,
    b: Seq<T>,
)
    requires
        op.k * op.n <= b.len(),
    ensures
        op.first_grad(grad, b) == matrix_product(
            grad,
            ops::transposed(b, op.k as nat, op.n as nat),
            op.m,
            op.n,
            op.k,
        ),
{
    let bt = ops::transposed(b, op.k as nat, op.n as nat);
    assert forall|q: int| 0 <= q < op.m * op.k implies op.first_grad(grad, b)[q]
        == #[trigger] matrix_product(grad, bt, op.m, op.n, op.k)[q] by {
        ops::lemma_join_position(q, op.m as int, op.k as int);
        lemma_dot_with_transpose(
            grad,
            rows_of(op.n),
            q / op.k as int,
            b,
            op.k,
            op.n,
            q % op.k as int,
            op.n as nat,
        );
    }
    assert(op.first_grad(grad, b) =~= matrix_product(grad, bt, op.m, op.n, op.k));
}

/// Taking rows of a transpose is taking columns of the matrix.
proof fn lemma_dot_of_transpose<T: Scalar>(
    a: Seq<T>,
    rows: usize,
    cols: usize,
    i: int,
    b: Seq<T>,
    y: Vectors,
    j: int,
    n: nat,
)
    requires
        0 <= i < cols,
        n <= rows,
        rows * cols <= a.len(),
    ensures
        dot(ops::transposed(a, rows as nat, cols as nat), rows_of(rows), i, b, y, j, n) == dot(
            a,
            columns_of(cols),
            i,
            b,
            y,
            j,
            n,
        ),
    decreases n,
{
    if n > 0 {
        lemma_dot_of_transpose(a, rows, cols, i, b, y, j, (n - 1) as nat);
        let p = n - 1;
        ops::lemma_split_position(i, p, cols as int, rows as int);
    }
}

/// The gradient of the second matrix of a product is the transpose of the first matrix times
/// the gradient of the product.
pub proof fn law_second_gradient_is_a_product_with_the_transpose<T: Scalar>(
    op: MatmulOp,
    grad: Seq<T>,
    a: Seq<T>,
)
    requires
        op.m * op.k <= a.len(),
    ensures
        op.second_grad(grad, a) == matrix_product(
            ops::transposed(a, op.m as nat, op.k as nat),
            grad,
            op.k,
            op.m,
            op.n,
        ),
{
    let at = ops::transposed(a, op.m as nat, op.k as nat);
    assert forall|q: int| 0 <= q < op.k * op.n implies op.second_grad(grad, a)[q]
        == #[trigger] matrix_product(at, grad, op.k, op.m, op.n)[q] by {
        ops::lemma_join_position(q, op.k as int, op.n as int);
        lemma_dot_of_transpose(
            a,
            op.m,
            op.k,
            q / op.n as int,
            grad,
            columns_of(op.n),
            q % op.n as int,
            op.m as nat,
        );
    }
    assert(op.second_grad(grad, a) =~= matrix_product(at, grad, op.k, op.m, op.n));
}

/// Piece `i` of a list that is cut into pieces of length `len`.
pub open spec fn piece<T>(s: Seq<T>, i: int, len: nat) -> Seq<T> {
    s.subrange(i * len, i * len + len)
}

/// A list cut into pieces, of which the first `count` are as told.
spec fn pieces_are<T>(s: Seq<T>, count: nat, len: nat, told: spec_fn(int) -> Seq<T>) -> bool {
    &&& s.len() == count * len
    &&& forall|i: int| 0 <= i < count ==> #[trigger] piece(s, i, len) == told(i)
}

/// One more piece leaves those before it as they are.
proof fn lemma_next_piece<T>(
    s: Seq<T>,
    count: nat,
    len: nat,
    told: spec_fn(int) -> Seq<T>,
    next: Seq<T>,
)
    requires
        pieces_are(s, count, len, told),
        next.len() == len,
        next == told(count as int),
    ensures
        pieces_are(s + next, count + 1, len, told),
{
    lemma_mul_is_distributive_add_other_way(len as int, count as int, 1);
    assert forall|i: int| 0 <= i < count + 1 implies #[trigger] piece(s + next, i, len) == told(
        i,
    ) by {
        if i < count {
            lemma_mul_inequality(i + 1, count as int, len as int);
            lemma_mul_is_distributive_add_other_way(len as int, i, 1);
            assert(i * len >= 0) by (nonlinear_arith)
                requires
                    i >= 0,
                    len >= 0,
            ;
            assert(piece(s + next, i, len) =~= piece(s, i, len));
        } else {
            assert(piece(s + next, i, len) =~= next);
        }
    }
}

/// The tables of `count` pairs of pieces, one after the other.
fn piecewise_tables<T: Scalar>(
    a: &[T],
    a_len: usize,
    x: Vectors,
    rows: usize,
    b: &[T],
    b_len: usize,
    y: Vectors,
    cols: usize,
    n: usize,
    count: usize,
) -> (out: Vec<T>)
    requires
        count * a_len <= a@.len(),
        count * b_len <= b@.len(),
        x.within(rows as nat, n as nat, a_len as nat),
        y.within(cols as nat, n as nat, b_len as nat),
    ensures
        out@.len() == count * (rows * cols),
        forall|i: int|
            0 <= i < count ==> #[trigger] piece(out@, i, (rows * cols) as nat) == table(
                piece(a@, i, a_len as nat),
                x,
                rows as nat,
                piece(b@, i, b_len as nat),
                y,
                cols as nat,
                n as nat,
            ),
{
    let ghost told = |i: int|
        table(
            piece(a@, i, a_len as nat),
            x,
            rows as nat,
            piece(b@, i, b_len as nat),
            y,
            cols as nat,
            n as nat,
        );
    let a_size: usize = a.len();
    let b_size: usize = b.len();
    let mut out: Vec<T> = Vec::new();
    let mut i: usize = 0;
    while i < count
        invariant
            i <= count,
            count * a_len <= a_size == a@.len(),
            count * b_len <= b_size == b@.len(),
            x.within(rows as nat, n as nat, a_len as nat),
            y.within(cols as nat, n as nat, b_len as nat),
            pieces_are(out@, i as nat, (rows * cols) as nat, told),
            told == (|i: int|
                table(
                    piece(a@, i, a_len as nat),
                    x,
                    rows as nat,
                    piece(b@, i, b_len as nat),
                    y,
                    cols as nat,
                    n as nat,
                )),
        decreases count - i,
    {
        proof {
            lemma_mul_inequality(i + 1, count as int, a_len as int);
            lemma_mul_is_distributive_add_other_way(a_len as int, i as int, 1);
            lemma_mul_inequality(i + 1, count as int, b_len as int);
            lemma_mul_is_distributive_add_other_way(b_len as int, i as int, 1);
            assert(i * a_len >= 0) by (nonlinear_arith);
            assert(i * b_len >= 0) by (nonlinear_arith);
        }
        let ghost before = out@;
        let a_piece = slice_subrange(a, i * a_len, i * a_len + a_len);
        let b_piece = slice_subrange(b, i * b_len, i * b_len + b_len);
        push_table(&mut out, a_piece, x, rows, b_piece, y, cols, n);
        proof {
            lemma_next_piece(before, i as nat, (rows * cols) as nat, told, told(i as int));
        }
        i = i + 1;
    }
    out
}

/// Multiplies `batch` pairs of an `m` by `k` and a `k` by `n` matrix.
pub fn batch_matmul<T: Scalar>(
    a: &[T],
    b: &[T],
    batch: usize,
    m: usize,
    k: usize,
    n: usize,
) -> (out: Vec<T>)
    requires
        batch * (m * k) <= a@.len(),
        batch * (k * n) <= b@.len(),
        batch * (m * n) <= usize::MAX,
    ensures
        out@.len() == batch * (m * n),
        forall|i: int|
            0 <= i < batch ==> #[trigger] piece(out@, i, (m * n) as nat) == matrix_product(
                piece(a@, i, (m * k) as nat),
                piece(b@, i, (k * n) as nat),
                m,
                k,
                n,
            ),
{
    if batch == 0 {
        return Vec::new();
    }
    let a_size: usize = a.len();
    let b_size: usize = b.len();
    proof {
        lemma_pieces_fit(batch as int, m * k, a_size as int);
        lemma_pieces_fit(batch as int, k * n, b_size as int);
        lemma_rows_within(k, m as nat, (m * k) as nat);
        lemma_columns_within(n, k as nat, (k * n) as nat);
    }
    let x = Vectors { start: 0, outer: k, inner: 1 };
    let y = Vectors { start: 0, outer: 1, inner: n };
    piecewise_tables(a, m * k, x, m, b, k * n, y, n, k, batch)
}

/// A piece is no longer than the list.
proof fn lemma_pieces_fit(count: int, len: int, size: int)
    requires
        count >= 1,
        len >= 0,
        count * len <= size,
    ensures
        len <= size,
{
    lemma_mul_inequality(1, count, len);
}

/// Multiplication of pairs of matrices, seen from its result.
#[derive(Debug, Clone, Copy, PartialEq, Eq, Structural)]
pub struct BatchMatmulOp {
    pub batch: usize,
    pub m: usize,
    pub k: usize,
    pub n: usize,
}

impl BatchMatmulOp {
    /// The multiplication of one pair.
    pub open spec fn single(&self) -> MatmulOp {
        MatmulOp { m: self.m, k: self.k, n: self.n }
    }

    /// The gradients of all matrices, pair by pair those of a single multiplication.
    pub fn backward<T: Scalar>(&self, grad: &[T], a: &[T], b: &[T]) -> (grads: (Vec<T>, Vec<T>))
        requires
            self.batch * (self.m * self.n) <= grad@.len(),
            self.batch * (self.m * self.k) <= a@.len(),
            self.batch * (self.k * self.n) <= b@.len(),
        ensures
            grads.0@.len() == self.batch * (self.m * self.k),
            grads.1@.len() == self.batch * (self.k * self.n),
            forall|i: int|
                0 <= i < self.batch ==> #[trigger] piece(grads.0@, i, (self.m * self.k) as nat)
                    == self.single().first_grad(
                    piece(grad@, i, (self.m * self.n) as nat),
                    piece(b@, i, (self.k * self.n) as nat),
                ),
            forall|i: int|
                0 <= i < self.batch ==> #[trigger] piece(grads.1@, i, (self.k * self.n) as nat)
                    == self.single().second_grad(
                    piece(grad@, i, (self.m * self.n) as nat),
                    piece(a@, i, (self.m * self.k) as nat),
                ),
    {
        let (batch, m, k, n): (usize, usize, usize, usize) = (self.batch, self.m, self.k, self.n);
        if batch == 0 {
            return (Vec::new(), Vec::new());
        }
        let grad_size: usize = grad.len();
        let a_size: usize = a.len();
        let b_size: usize = b.len();
        proof {
            lemma_pieces_fit(batch as int, m * n, grad_size as int);
            lemma_pieces_fit(batch as int, m * k, a_size as int);
            lemma_pieces_fit(batch as int, k * n, b_size as int);
            lemma_rows_within(n, m as nat, (m * n) as nat);
            lemma_rows_within(n, k as nat, (k * n) as nat);
            lemma_columns_within(k, m as nat, (m * k) as nat);
            lemma_columns_within(n, m as nat, (m * n) as nat);
        }
        let grad_rows = Vectors { start: 0, outer: n, inner: 1 };
        let grad_columns = Vectors { start: 0, outer: 1, inner: n };
        let a_columns = Vectors { start: 0, outer: 1, inner: k };
        let da = piecewise_tables(grad, m * n, grad_rows, m, b, k * n, grad_rows, k, n, batch);
        let db = piecewise_tables(a, m * k, a_columns, k, grad, m * n, grad_columns, n, m, batch);
        (da, db)
    }
}

/// The product of two matrices, over real numbers: every element is the sum of the products of a
/// row of the first with a column of the second.
pub proof fn law_products_weigh_rows_with_columns<T: Scalar>(
    reading: Reading<T>,
    a: Seq<T>,
    b: Seq<T>,
    m: usize,
    k: usize,
    n: usize,
    i: int,
    j: int,
)
    requires
        reading.is_ring(),
        reading.all_finite(a),
        reading.all_finite(b),
        m * k <= a.len(),
        k * n <= b.len(),
        0 <= i < m,
        0 <= j < n,
    ensures
        matrix_product(a, b, m, k, n).len() == m as nat * n as nat,
        reading.reads(
            matrix_product(a, b, m, k, n)[i * n + j],
            reals::sum_to(
                k as nat,
                |p: int| reading.at(a, i * k + p) * reading.at(b, p * n + j),
            ),
        ),
{
    ops::lemma_split_position(i, j, m as int, n as int);
    let (x, y) = (rows_of(k), columns_of(n));
    assert forall|p: int| 0 <= p < k implies (reading.finite)(a[#[trigger] x.at(i, p)]) && x.at(
        i,
        p,
    ) == i * k + p by {
        ops::lemma_split_position(i, p, m as int, k as int);
        assert(p * 1 == p);
    }
    assert forall|p: int| 0 <= p < k implies (reading.finite)(b[#[trigger] y.at(j, p)]) && y.at(
        j,
        p,
    ) == p * n + j by {
        ops::lemma_split_position(p, j, k as int, n as int);
        assert(j * 1 == j);
    }
    reading.lemma_dot(a, x, i, b, y, j, k as nat);
    let named = |p: int| reading.at(a, x.at(i, p)) * reading.at(b, y.at(j, p));
    let wanted = |p: int| reading.at(a, i * k + p) * reading.at(b, p * n + j);
    assert forall|p: int| 0 <= p < k implies #[trigger] named(p) == wanted(p) by {
        assert((reading.finite)(a[x.at(i, p)]) && (reading.finite)(b[y.at(j, p)]));
    }
    reals::lemma_same_sum(k as nat, named, wanted);
}

} // verus!
