//! How attention lays out its heads.

use crate::tensor::ops;
use vstd::prelude::*;

verus! {

/// The place from which place `p` comes when the two middle axes of an `outer` by `a` by `b`
/// by `inner` block are exchanged.
pub open spec fn swap_source(p: int, a: int, b: int, inner: int) -> int {
    let d = p % inner;
    let q = p / inner;
    let i = q % a;
    let r = q / a;
    let j = r % b;
    let o = r / b;
    ((o * a + i) * b + j) * inner + d
}

/// A block with its two middle axes exchanged.
pub open spec fn swapped<T>(data: Seq<T>, outer: nat, a: nat, b: nat, inner: nat) -> Seq<T> {
    Seq::new(
        outer * a * b * inner,
        |p: int| data[swap_source(p, a as int, b as int, inner as int)],
    )
}

/// The product of the axes does not depend on the order of the middle ones.
proof fn lemma_size(outer: int, a: int, b: int, inner: int)
    ensures
        outer * a * b * inner == outer * b * a * inner,
{
    assert(outer * a * b * inner == outer * b * a * inner) by (nonlinear_arith);
}

/// Where a place comes from, axis by axis.
proof fn lemma_axes(p: int, outer: int, a: int, b: int, inner: int) -> (axes: (int, int, int, int))
    requires
        0 <= p < outer * a * b * inner,
        0 <= outer,
        0 <= a,
        0 <= b,
        0 <= inner,
    ensures
        ({
            let (o, j, i, d) = axes;
            &&& 0 <= o < outer && 0 <= j < b && 0 <= i < a && 0 <= d < inner
            &&& p == ((o * b + j) * a + i) * inner + d
            &&& d == p % inner
            &&& i == (p / inner) % a
            &&& j == (p / inner / a) % b
            &&& o == p / inner / a / b
            &&& swap_source(p, a, b, inner) == ((o * a + i) * b + j) * inner + d
        }),
{
    lemma_size(outer, a, b, inner);
    assert(0 <= outer * b) by (nonlinear_arith)
        requires
            0 <= outer,
            0 <= b,
    ;
    ops::lemma_join_position(p, outer * b * a, inner);
    let q = p / inner;
    ops::lemma_join_position(q, outer * b, a);
    let r = q / a;
    ops::lemma_join_position(r, outer, b);
    (r / b, r % b, q % a, p % inner)
}

/// A source lies in the block, and so does every number on the way to it.
proof fn lemma_source_bounds(o: int, j: int, i: int, d: int, outer: int, a: int, b: int, inner: int)
    requires
        0 <= o < outer,
        0 <= j < b,
        0 <= i < a,
        0 <= d < inner,
    ensures
        0 <= o * a <= o * a + i,
        o * a + i <= (o * a + i) * b,
        (o * a + i) * b <= (o * a + i) * b + j,
        (o * a + i) * b + j <= ((o * a + i) * b + j) * inner,
        0 <= ((o * a + i) * b + j) * inner + d < outer * a * b * inner,
{
    ops::lemma_split_position(o, i, outer, a);
    let x = o * a + i;
    ops::lemma_split_position(x, j, outer * a, b);
    let y = x * b + j;
    ops::lemma_split_position(y, d, outer * a * b, inner);
    assert(0 <= o * a) by (nonlinear_arith)
        requires
            0 <= o,
            0 <= i < a,
    ;
    assert(x <= x * b) by (nonlinear_arith)
        requires
            0 <= x,
            0 <= j < b,
    ;
    assert(y <= y * inner) by (nonlinear_arith)
        requires
            0 <= y,
            0 <= d < inner,
    ;
}

/// The number of elements of a block that has at most `limit` of them.
fn block_len(limit: usize, outer: usize, a: usize, b: usize, inner: usize) -> (len: usize)
    requires
        outer * a * b * inner <= limit,
    ensures
        len == outer * a * b * inner,
{
    if outer == 0 || a == 0 || b == 0 || inner == 0 {
        assert(outer * a * b * inner == 0) by (nonlinear_arith)
            requires
                outer == 0 || a == 0 || b == 0 || inner == 0,
        ;
        return 0;
    }
    assert(0 <= outer * a <= outer * a * b) by (nonlinear_arith)
        requires
            outer >= 1,
            a >= 1,
            b >= 1,
    ;
    assert(outer * a * b <= outer * a * b * inner) by (nonlinear_arith)
        requires
            outer * a * b >= 0,
            inner >= 1,
    ;
    outer * a * b * inner
}

/// Exchanges the two middle axes of a block, which is the beginning of `data`.
pub fn swap_axes<T: Copy>(data: &[T], outer: usize, a: usize, b: usize, inner: usize) -> (out: Vec<
    T,
>)
    requires
        outer * a * b * inner <= data@.len(),
    ensures
        out@ == swapped(data@, outer as nat, a as nat, b as nat, inner as nat),
{
    let len: usize = block_len(data.len(), outer, a, b, inner);
    let mut out: Vec<T> = Vec::new();
    let mut p: usize = 0;
    while p < len
        invariant
            p <= len <= data@.len(),
            outer * a * b * inner == len,
            out@.len() == p,
            forall|q: int|
                0 <= q < p ==> #[trigger] out@[q] == data@[swap_source(
                    q,
                    a as int,
                    b as int,
                    inner as int,
                )],
        decreases len - p,
    {
        let ghost axes = lemma_axes(p as int, outer as int, a as int, b as int, inner as int);
        proof {
            lemma_source_bounds(
                axes.0,
                axes.1,
                axes.2,
                axes.3,
                outer as int,
                a as int,
                b as int,
                inner as int,
            );
        }
        let q: usize = p / inner;
        let r: usize = q / a;
        let o: usize = r / b;
        let j: usize = r % b;
        let i: usize = q % a;
        let d: usize = p % inner;
        out.push(data[((o * a + i) * b + j) * inner + d]);
        p = p + 1;
    }
    assert(out@ =~= swapped(data@, outer as nat, a as nat, b as nat, inner as nat));
    out
}

/// Exchanging two axes back and forth changes nothing.
pub proof fn law_swapping_back_restores<T>(data: Seq<T>, outer: nat, a: nat, b: nat, inner: nat)
    requires
        data.len() == outer * a * b * inner,
    ensures
        swapped(swapped(data, outer, a, b, inner), outer, b, a, inner) == data,
{
    let (x, m, n, k) = (outer as int, a as int, b as int, inner as int);
    let once = swapped(data, outer, a, b, inner);
    let twice = swapped(once, outer, b, a, inner);
    lemma_size(x, m, n, k);
    assert forall|p: int| 0 <= p < data.len() implies #[trigger] twice[p] == data[p] by {
        let (o, j, i, d) = lemma_axes(p, x, n, m, k);
        // Place p stands for (o, j, i, d) with j along `a` and i along `b`.
        let s = swap_source(p, n, m, k);
        assert(s == ((o * n + i) * m + j) * k + d);
        lemma_source_bounds(o, j, i, d, x, n, m, k);
        ops::lemma_split_position(o, i, x, n);
        ops::lemma_split_position(o * n + i, j, x * n, m);
        ops::lemma_split_position((o * n + i) * m + j, d, x * n * m, k);
        assert(swap_source(s, m, n, k) == ((o * m + j) * n + i) * k + d);
        assert(swap_source(s, m, n, k) == p);
        assert(0 <= s < once.len());
        assert(once[s] == data[swap_source(s, m, n, k)]);
    }
    assert(twice =~= data);
}

/// From one row per position to one block per head: the element of head h, position s and
/// dimension d moves from place (s, h, d) to place (h, s, d).
pub fn reshape_to_heads<T: Copy>(
    data: &[T],
    seq_len: usize,
    n_head: usize,
    head_dim: usize,
) -> (out: Vec<T>)
    requires
        seq_len * n_head * head_dim <= data@.len(),
    ensures
        out@ == swapped(data@, 1, seq_len as nat, n_head as nat, head_dim as nat),
{
    proof {
        assert(1 * seq_len == seq_len as int);
    }
    swap_axes(data, 1, seq_len, n_head, head_dim)
}

/// From one block per head back to one row per position.
pub fn reshape_from_heads<T: Copy>(
    data: &[T],
    seq_len: usize,
    n_head: usize,
    head_dim: usize,
) -> (out: Vec<T>)
    requires
        n_head * seq_len * head_dim <= data@.len(),
    ensures
        out@ == swapped(data@, 1, n_head as nat, seq_len as nat, head_dim as nat),
{
    proof {
        assert(1 * n_head == n_head as int);
    }
    swap_axes(data, 1, n_head, seq_len, head_dim)
}

/// Transposes each matrix of a batch.
pub fn batch_transpose<T: Copy>(data: &[T], batch: usize, rows: usize, cols: usize) -> (out: Vec<
    T,
>)
    requires
        batch * rows * cols <= data@.len(),
    ensures
        out@ == swapped(data@, batch as nat, rows as nat, cols as nat, 1),
{
    proof {
        assert(batch * rows * cols * 1 == batch * rows * cols);
    }
    swap_axes(data, batch, rows, cols, 1)
}

/// The split of attention into heads: gradients go back the way the values came.
#[derive(Debug, Clone, Copy, PartialEq, Eq, Structural)]
pub struct ReshapeToHeadsOp {
    pub seq_len: usize,
    pub n_head: usize,
    pub head_dim: usize,
}

impl ReshapeToHeadsOp {
    /// The gradient of the rows from that of the heads.
    pub fn backward<T: Copy>(&self, grad: &[T]) -> (out: Vec<T>)
        requires
            self.n_head * self.seq_len * self.head_dim <= grad@.len(),
        ensures
            out@ == swapped(
                grad@,
                1,
                self.n_head as nat,
                self.seq_len as nat,
                self.head_dim as nat,
            ),
    {
        reshape_from_heads(grad, self.seq_len, self.n_head, self.head_dim)
    }
}

/// The joining of heads.
#[derive(Debug, Clone, Copy, PartialEq, Eq, Structural)]
pub struct ReshapeFromHeadsOp {
    pub seq_len: usize,
    pub n_head: usize,
    pub head_dim: usize,
}

impl ReshapeFromHeadsOp {
    /// The gradient of the heads from that of the rows.
    pub fn backward<T: Copy>(&self, grad: &[T]) -> (out: Vec<T>)
        requires
            self.seq_len * self.n_head * self.head_dim <= grad@.len(),
        ensures
            out@ == swapped(
                grad@,
                1,
                self.seq_len as nat,
                self.n_head as nat,
                self.head_dim as nat,
            ),
    {
        reshape_to_heads(grad, self.seq_len, self.n_head, self.head_dim)
    }
}

/// The transposition of a batch of `rows` by `cols` matrices.
#[derive(Debug, Clone, Copy, PartialEq, Eq, Structural)]
pub struct BatchTransposeOp {
    pub batch: usize,
    pub rows: usize,
    pub cols: usize,
}

impl BatchTransposeOp {
    /// The gradient of the matrices from that of their transposes.
    pub fn backward<T: Copy>(&self, grad: &[T]) -> (out: Vec<T>)
        requires
            self.batch * self.cols * self.rows <= grad@.len(),
        ensures
            out@ == swapped(grad@, self.batch as nat, self.cols as nat, self.rows as nat, 1),
    {
        batch_transpose(grad, self.batch, self.cols, self.rows)
    }
}

/// Whether the causal mask hides place `p` of the scores: the row of a query, the column of a
/// key that comes later.
pub open spec fn is_future(p: int, seq_len: int) -> bool {
    p % seq_len > (p / seq_len) % seq_len
}

/// The causal mask of all heads: a query does not see the keys that come after it.
pub fn causal_mask(n_head: usize, seq_len: usize) -> (mask: Vec<bool>)
    requires
        n_head * seq_len * seq_len <= usize::MAX,
    ensures
        mask@.len() == n_head * seq_len * seq_len,
        forall|p: int|
            0 <= p < mask@.len() ==> #[trigger] mask@[p] == is_future(p, seq_len as int),
{
    let mut mask: Vec<bool> = Vec::new();
    if n_head == 0 || seq_len == 0 {
        assert(n_head * seq_len * seq_len == 0) by (nonlinear_arith)
            requires
                n_head == 0 || seq_len == 0,
        ;
        return mask;
    }
    assert(0 <= n_head * seq_len <= n_head * seq_len * seq_len) by (nonlinear_arith)
        requires
            n_head >= 1,
            seq_len >= 1,
    ;
    let total: usize = n_head * seq_len * seq_len;
    let mut p: usize = 0;
    while p < total
        invariant
            p <= total,
            seq_len > 0,
            total == n_head * seq_len * seq_len,
            mask@.len() == p,
            forall|q: int| 0 <= q < p ==> #[trigger] mask@[q] == is_future(q, seq_len as int),
        decreases total - p,
    {
        mask.push(p % seq_len > (p / seq_len) % seq_len);
        p = p + 1;
    }
    mask
}

/// The mask, head by head: key j is hidden from query i exactly if it comes later.
pub proof fn law_mask_hides_the_future(h: int, i: int, j: int, n_head: int, seq_len: int)
    requires
        0 <= h < n_head,
        0 <= i < seq_len,
        0 <= j < seq_len,
    ensures
        0 <= (h * seq_len + i) * seq_len + j < n_head * seq_len * seq_len,
        is_future((h * seq_len + i) * seq_len + j, seq_len) <==> j > i,
{
    ops::lemma_split_position(h, i, n_head, seq_len);
    ops::lemma_split_position(h * seq_len + i, j, n_head * seq_len, seq_len);
}

} // verus!
