//! What layers compute with.

use super::kv_cache::KvTensor;
use crate::tensor::number::Number;
use vstd::prelude::*;

verus! {

/// A tensor that layers are made of and compute with. Nothing is asked of what these operations
/// give: what layers make of them is told step by step.
pub trait Operand: Sized {
    /// The numbers that it holds.
    type Num: Number;

    /// A matrix of weights by chance, on both sides of zero up to the limit of its size.
    fn xavier_uniform(rows: usize, cols: usize) -> Self;

    /// A matrix of weights by chance, around zero with the spread of its size.
    fn kaiming_normal(rows: usize, cols: usize) -> Self;

    /// A matrix of weights by chance, between minus one and one.
    fn uniform(rows: usize, cols: usize) -> Self;

    /// A matrix of weights that are all `value`.
    fn filled_matrix(rows: usize, cols: usize, value: Self::Num) -> Self;

    /// A list of `n` weights that are all `value`.
    fn filled(n: usize, value: Self::Num) -> Self;

    /// A tensor of the same shape with other elements, which no gradient reaches.
    fn with_elements(&self, elements: Vec<Self::Num>) -> Self;

    /// The same tensor under another handle.
    fn handle(&self) -> Self;

    /// The same elements, cut off from where they come from.
    fn detach(&self) -> Self;

    /// The same tensor, which no gradient reaches any more.
    fn frozen(self) -> Self;

    /// The size of the first dimension.
    fn rows(&self) -> usize;

    /// The size of the second dimension.
    fn cols(&self) -> usize;

    /// The elements.
    fn elements(&self) -> Vec<Self::Num>;

    /// A number between zero and one by chance for each element.
    fn chances(&self) -> Vec<Self::Num>;

    /// Shape and elements, to be cached.
    fn cached(&self) -> KvTensor<Self::Num>;

    /// The matrix with rows and columns exchanged.
    fn transpose(&self) -> Self;

    /// The matrix product.
    fn matmul(&self, other: &Self) -> Self;

    /// The matrix products of two batches.
    fn batch_matmul(&self, other: &Self) -> Self;

    /// The matrices of a batch, each with rows and columns exchanged.
    fn batch_transpose(&self, batch: usize, rows: usize, cols: usize) -> Self;

    /// The sum, element by element.
    fn added(&self, other: &Self) -> Self;

    /// The product, element by element.
    fn multiplied(&self, other: &Self) -> Self;

    /// The sum of every row with a list.
    fn broadcast_add(&self, list: &Self) -> Self;

    /// The multiple.
    fn scale(&self, factor: Self::Num) -> Self;

    /// The Gaussian error linear unit of every element.
    fn gelu(&self) -> Self;

    /// The gated unit: the elements, each let through as far as its gate is open.
    fn swiglu(&self, gate: &Self) -> Self;

    /// The shares of every row.
    fn softmax(&self) -> Self;

    /// The elements in another shape.
    fn reshape(&self, shape: Vec<usize>) -> Self;

    /// The elements with `fill` wherever the mask holds.
    fn masked_fill(&self, mask: &[bool], fill: Self::Num) -> Self;

    /// The rows with these numbers.
    fn embedding_lookup(&self, indices: &[usize]) -> Self;

    /// The rows of `dim` elements normalised around their mean, stretched and shifted.
    fn layer_norm(&self, dim: usize, gamma: &Self, beta: &Self, eps: Self::Num) -> Self;

    /// The rows normalised around zero and stretched.
    fn rms_norm(&self, weight: &Self, eps: Self::Num) -> Self;

    /// The rows cut into heads.
    fn reshape_to_heads(&self, seq_len: usize, n_head: usize, head_dim: usize) -> Self;

    /// The heads put together to rows.
    fn reshape_from_heads(&self, seq_len: usize, n_head: usize, head_dim: usize) -> Self;

    /// The pairs of elements turned by their position.
    fn rotary_position_embedding(&self, base: Self::Num) -> Self;
}

/// Whether `handles` are handles of `weights`.
pub open spec fn are_handles<V: Operand>(weights: Seq<V>, handles: Seq<V>) -> bool {
    &&& handles.len() == weights.len()
    &&& forall|i: int|
        0 <= i < weights.len() ==> V::handle.ensures((&weights[i],), #[trigger] handles[i])
}

/// Puts two lists of handles together.
pub fn join_handles<V: Operand>(list: Vec<V>, more: Vec<V>) -> (all: Vec<V>)
    ensures
        all@ == list@ + more@,
        forall|weights: Seq<V>, rest: Seq<V>| #[trigger]
            are_handles(weights, list@) && #[trigger] are_handles(rest, more@) ==> are_handles(
                weights + rest,
                all@,
            ),
{
    let mut all: Vec<V> = list;
    let mut more: Vec<V> = more;
    all.append(&mut more);
    all
}

} // verus!
