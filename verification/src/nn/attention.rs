//! Attention of every position to itself and the positions before it.

use super::arrays::ArrayReading;
use super::heads;
use super::heads::causal_mask;
use super::layers;
use super::layers::{Linear, Module};
use super::operand;
use super::operand::{join_handles, Operand};
use super::params;
use super::params::{join_listings, part_name, NamedParameter};
use crate::tensor::number;
use crate::tensor::number::{count, inverse_root, lowest, Number};
use crate::tensor::ops;
use crate::tensor::reals;
use crate::tensor::shape;
use vstd::prelude::*;

verus! {

/// Attention in several heads: queries, keys and values are projected from the input, and what
/// the heads find is projected to the output.
pub struct MultiHeadAttention<V> {
    pub n_head: usize,
    /// The number of elements of a position.
    pub d_model: usize,
    /// The number of elements of a position in one head.
    pub head_dim: usize,
    pub wq: Linear<V>,
    pub wk: Linear<V>,
    pub wv: Linear<V>,
    pub wo: Linear<V>,
}

/// The queries, keys or values of all heads: a projection, cut into heads and, where positions are
/// told by turns, turned.
pub open spec fn is_projection<V: Operand>(
    layer: Linear<V>,
    sizes: HeadSizes,
    rope_base: Option<V::Num>,
    x: V,
    y: V,
) -> bool {
    exists|flat: V, cut: V|
        {
            &&& layer.gives(x, flat)
            &&& #[trigger] V::reshape_to_heads.ensures(
                (&flat, sizes.seq_len, sizes.n_head, sizes.head_dim),
                cut,
            )
            &&& match rope_base {
                Some(base) => V::rotary_position_embedding.ensures((&cut, base), y),
                None => y == cut,
            }
        }
}

/// The number of positions, of heads, and of elements of a position in one head.
#[derive(Debug, Clone, Copy, PartialEq, Eq, Structural)]
pub struct HeadSizes {
    pub seq_len: usize,
    pub n_head: usize,
    pub head_dim: usize,
}

impl HeadSizes {
    /// Whether the scores of all heads can be counted.
    pub open spec fn valid(self) -> bool {
        self.n_head * self.seq_len * self.seq_len <= usize::MAX
    }
}

/// How attention comes about: queries, keys and values; the scores of every position for every
/// other, by the root of the head's size, without those that come after; the shares that these
/// become; and what they make of the values.
pub struct AttentionSteps<V: Operand> {
    pub q: V,
    pub k: V,
    pub v: V,
    pub turned: V,
    pub raw: V,
    pub size: V::Num,
    pub factor: V::Num,
    pub scores: V,
    pub lowest: V::Num,
    pub masked: V,
    pub rows: V,
    pub shares: V,
    pub attention: V,
    pub found: V,
    pub joined: V,
}

/// Whether `masked` are the scores without those of later positions.
pub open spec fn is_masked<V: Operand>(
    sizes: HeadSizes,
    scores: V,
    fill: V::Num,
    masked: V,
) -> bool {
    exists|mask: &[bool]|
        {
            &&& heads_mask(sizes, mask@)
            &&& #[trigger] V::masked_fill.ensures((&scores, mask, fill), masked)
        }
}

/// Whether `mask` holds wherever a position would see one that comes after it.
pub open spec fn heads_mask(sizes: HeadSizes, mask: Seq<bool>) -> bool {
    &&& mask.len() == sizes.n_head * sizes.seq_len * sizes.seq_len
    &&& forall|p: int|
        0 <= p < mask.len() ==> #[trigger] mask[p] == heads::is_future(
            p,
            sizes.seq_len as int,
        )
}

/// Whether `y` are the elements of `x` in another shape.
pub open spec fn is_reshaped<V: Operand>(x: V, dims: Seq<usize>, y: V) -> bool {
    exists|shape: Vec<usize>|
        {
            &&& shape@ == dims
            &&& #[trigger] V::reshape.ensures((&x, shape), y)
        }
}

impl<V: Operand> MultiHeadAttention<V> {
    /// The sizes of the heads over `seq_len` positions.
    pub open spec fn sizes(self, seq_len: usize) -> HeadSizes {
        HeadSizes { seq_len, n_head: self.n_head, head_dim: self.head_dim }
    }

    /// Whether `steps` lead from `x` to the output.
    pub open spec fn are_steps(
        self,
        x: V,
        seq_len: usize,
        rope_base: Option<V::Num>,
        steps: AttentionSteps<V>,
    ) -> bool {
        let h = self.n_head;
        let sizes = self.sizes(seq_len);
        &&& is_projection(self.wq, sizes, rope_base, x, steps.q)
        &&& is_projection(self.wk, sizes, rope_base, x, steps.k)
        &&& is_projection(self.wv, sizes, None, x, steps.v)
        &&& V::batch_transpose.ensures((&steps.k, h, seq_len, self.head_dim), steps.turned)
        &&& V::batch_matmul.ensures((&steps.q, &steps.turned), steps.raw)
        &&& number::is_count(self.head_dim as u64, steps.size)
        &&& number::is_inverse_root(steps.size, steps.factor)
        &&& V::scale.ensures((&steps.raw, steps.factor), steps.scores)
        &&& number::is_lowest(steps.lowest)
        &&& is_masked(sizes, steps.scores, steps.lowest, steps.masked)
        &&& is_reshaped(steps.masked, seq![(h * seq_len) as usize, seq_len], steps.rows)
        &&& V::softmax.ensures((&steps.rows,), steps.shares)
        &&& is_reshaped(steps.shares, seq![h, seq_len, seq_len], steps.attention)
        &&& V::batch_matmul.ensures((&steps.attention, &steps.v), steps.found)
        &&& V::reshape_from_heads.ensures((&steps.found, seq_len, h, self.head_dim), steps.joined)
    }

    /// Whether `y` is the output for the `seq_len` positions of `x`.
    pub open spec fn gives(self, x: V, seq_len: usize, rope_base: Option<V::Num>, y: V) -> bool {
        exists|steps: AttentionSteps<V>|
            {
                &&& #[trigger] self.are_steps(x, seq_len, rope_base, steps)
                &&& self.wo.gives(steps.joined, y)
            }
    }

    /// The weights.
    pub open spec fn weights(self) -> Seq<V> {
        self.wq.weights() + self.wk.weights() + self.wv.weights() + self.wo.weights()
    }

    /// The names of the weights.
    pub open spec fn names(self, prefix: Seq<char>) -> Seq<Seq<char>> {
        self.wq.names(params::part(prefix, "wq"@)) + self.wk.names(params::part(prefix, "wk"@))
            + self.wv.names(params::part(prefix, "wv"@)) + self.wo.names(
            params::part(prefix, "wo"@),
        )
    }

    /// Whether this is a layer as it is made, with four projections without offsets.
    pub open spec fn is_new(self, d_model: usize, n_head: usize) -> bool {
        &&& self.n_head == n_head
        &&& self.d_model == d_model
        &&& self.head_dim == d_model / n_head
        &&& self.wq.is_new(d_model, d_model, false)
        &&& self.wk.is_new(d_model, d_model, false)
        &&& self.wv.is_new(d_model, d_model, false)
        &&& self.wo.is_new(d_model, d_model, false)
    }

    /// A layer whose heads share the elements of a position evenly.
    pub fn new(d_model: usize, n_head: usize) -> (layer: Self)
        requires
            n_head > 0,
            d_model % n_head == 0,
        ensures
            layer.is_new(d_model, n_head),
    {
        MultiHeadAttention {
            n_head,
            d_model,
            head_dim: d_model / n_head,
            wq: Linear::new(d_model, d_model, false),
            wk: Linear::new(d_model, d_model, false),
            wv: Linear::new(d_model, d_model, false),
            wo: Linear::new(d_model, d_model, false),
        }
    }

    /// Queries, keys or values of all heads.
    fn project(
        &self,
        layer: &Linear<V>,
        input: &V,
        seq_len: usize,
        rope_base: Option<V::Num>,
    ) -> (out: V)
        ensures
            is_projection(*layer, self.sizes(seq_len), rope_base, *input, out),
    {
        let flat: V = layer.forward(input);
        let cut: V = flat.reshape_to_heads(seq_len, self.n_head, self.head_dim);
        let ghost sizes = self.sizes(seq_len);
        assert(V::reshape_to_heads.ensures(
            (&flat, sizes.seq_len, sizes.n_head, sizes.head_dim),
            cut,
        ));
        match rope_base {
            Some(base) => cut.rotary_position_embedding(base),
            None => cut,
        }
    }

    /// The output for `seq_len` positions.
    pub fn attend(&self, input: &V, seq_len: usize, rope_base: Option<V::Num>) -> (out: V)
        requires
            self.sizes(seq_len).valid(),
        ensures
            self.gives(*input, seq_len, rope_base, out),
    {
        let h: usize = self.n_head;
        let hd: usize = self.head_dim;
        let q: V = self.project(&self.wq, input, seq_len, rope_base);
        let k: V = self.project(&self.wk, input, seq_len, rope_base);
        let v: V = self.project(&self.wv, input, seq_len, None);
        let turned: V = k.batch_transpose(h, seq_len, hd);
        let raw: V = q.batch_matmul(&turned);
        let size: V::Num = count(hd as u64);
        let factor: V::Num = inverse_root(size);
        let scores: V = raw.scale(factor);
        let mask: Vec<bool> = causal_mask(h, seq_len);
        let hidden: &[bool] = mask.as_slice();
        let fill: V::Num = lowest();
        let masked: V = scores.masked_fill(hidden, fill);
        assert(is_masked(self.sizes(seq_len), scores, fill, masked)) by {
            assert(V::masked_fill.ensures((&scores, hidden, fill), masked));
        }
        let n: usize = if seq_len == 0 {
            0
        } else {
            proof {
                assert(h * seq_len <= h * seq_len * seq_len) by (nonlinear_arith)
                    requires
                        seq_len >= 1,
                ;
            }
            h * seq_len
        };
        let mut flat: Vec<usize> = Vec::new();
        flat.push(n);
        flat.push(seq_len);
        let rows: V = masked.reshape(flat);
        assert(is_reshaped(masked, seq![(h * seq_len) as usize, seq_len], rows)) by {
            assert(flat@ =~= seq![(h * seq_len) as usize, seq_len]);
            assert(V::reshape.ensures((&masked, flat), rows));
        }
        let shares: V = rows.softmax();
        let mut cube: Vec<usize> = Vec::new();
        cube.push(h);
        cube.push(seq_len);
        cube.push(seq_len);
        let attention: V = shares.reshape(cube);
        assert(is_reshaped(shares, seq![h, seq_len, seq_len], attention)) by {
            assert(cube@ =~= seq![h, seq_len, seq_len]);
            assert(V::reshape.ensures((&shares, cube), attention));
        }
        let found: V = attention.batch_matmul(&v);
        let joined: V = found.reshape_from_heads(seq_len, h, hd);
        let out: V = self.wo.forward(&joined);
        proof {
            let steps = AttentionSteps {
                q,
                k,
                v,
                turned,
                raw,
                size,
                factor,
                scores,
                lowest: fill,
                masked,
                rows,
                shares,
                attention,
                found,
                joined,
            };
            assert(self.are_steps(*input, seq_len, rope_base, steps));
        }
        out
    }

    /// Whether the scores of all heads over the positions of `input` can be counted.
    pub open spec fn can_attend(self, input: V) -> bool {
        forall|n: usize| #[trigger] V::rows.ensures((&input,), n) ==> self.sizes(n).valid()
    }

    /// Whether `y` is the output for all positions of `x`.
    pub open spec fn gives_all(self, x: V, rope_base: Option<V::Num>, y: V) -> bool {
        exists|n: usize| #[trigger] V::rows.ensures((&x,), n) && self.gives(x, n, rope_base, y)
    }

    /// The output for all positions.
    pub fn forward_causal(&self, input: &V) -> (out: V)
        requires
            self.can_attend(*input),
        ensures
            self.gives_all(*input, None, out),
    {
        let n: usize = input.rows();
        assert(V::rows.ensures((input,), n));
        self.attend(input, n, None)
    }

    /// The output for all positions, where queries and keys are turned by their position.
    pub fn forward_causal_rope(&self, input: &V, rope_base: V::Num) -> (out: V)
        requires
            self.can_attend(*input),
        ensures
            self.gives_all(*input, Some(rope_base), out),
    {
        let n: usize = input.rows();
        assert(V::rows.ensures((input,), n));
        self.attend(input, n, Some(rope_base))
    }

    /// Whether `key` and `value` are what is cached of the `seq_len` positions of `x`.
    pub open spec fn is_cached(
        self,
        x: V,
        seq_len: usize,
        rope_base: Option<V::Num>,
        key: V,
        value: V,
    ) -> bool {
        exists|k: V, v: V|
            {
                &&& is_projection(self.wk, self.sizes(seq_len), rope_base, x, k)
                &&& is_projection(self.wv, self.sizes(seq_len), None, x, v)
                &&& #[trigger] V::detach.ensures((&k,), key)
                &&& #[trigger] V::detach.ensures((&v,), value)
            }
    }

    /// The keys and values of `seq_len` positions, cut off from where they come from.
    pub fn project_positions(
        &self,
        input: &V,
        seq_len: usize,
        rope_base: Option<V::Num>,
    ) -> (cached: (V, V))
        ensures
            self.is_cached(*input, seq_len, rope_base, cached.0, cached.1),
    {
        let k: V = self.project(&self.wk, input, seq_len, rope_base);
        let v: V = self.project(&self.wv, input, seq_len, None);
        let key: V = k.detach();
        let value: V = v.detach();
        assert(V::detach.ensures((&k,), key));
        assert(V::detach.ensures((&v,), value));
        (key, value)
    }

    /// The keys and values of all positions, cut off from where they come from.
    pub fn project_kv_cache(&self, input: &V, rope_base: Option<V::Num>) -> (cached: (V, V))
        ensures
            exists|n: usize| #[trigger]
                V::rows.ensures((input,), n) && self.is_cached(
                    *input,
                    n,
                    rope_base,
                    cached.0,
                    cached.1,
                ),
    {
        let n: usize = input.rows();
        assert(V::rows.ensures((input,), n));
        self.project_positions(input, n, rope_base)
    }

    /// The weights.
    pub fn parameters(&self) -> (list: Vec<V>)
        ensures
            operand::are_handles(self.weights(), list@),
    {
        let list = join_handles(self.wq.parameters(), self.wk.parameters());
        let list = join_handles(list, self.wv.parameters());
        join_handles(list, self.wo.parameters())
    }

    /// The weights under their names.
    pub fn named_parameters(&self, prefix: &str) -> (list: Vec<NamedParameter<V>>)
        ensures
            params::is_listing(list@, self.names(prefix@), self.weights()),
    {
        let list = self.wq.named_parameters(part_name(prefix, "wq").as_str());
        let list = join_listings(
            list,
            self.wk.named_parameters(part_name(prefix, "wk").as_str()),
        );
        let list = join_listings(
            list,
            self.wv.named_parameters(part_name(prefix, "wv").as_str()),
        );
        join_listings(list, self.wo.named_parameters(part_name(prefix, "wo").as_str()))
    }
}

/// Attention over real numbers: how it is read, the input with its sizes, the logarithm of the base
/// by which positions are told, if they are, and the root of a head's size.
#[verifier::reject_recursive_types(V)]
pub struct RealAttention<V: Operand> {
    pub reading: ArrayReading<V>,
    pub layer: MultiHeadAttention<V>,
    pub x: V,
    pub n: int,
    pub in_features: int,
    pub out_features: int,
    pub rope_log: Option<real>,
    pub root: real,
}

impl<V: Operand> RealAttention<V> {
    /// Whether input and weights are real numbers that go together.
    pub open spec fn is_real(self) -> bool {
        let width = self.layer.n_head * self.layer.head_dim;
        &&& self.reading.is_faithful()
        &&& self.reading.is_matrix(self.x, self.n, self.in_features)
        &&& self.layer.wq.is_real(self.reading, self.in_features, width)
        &&& self.layer.wk.is_real(self.reading, self.in_features, width)
        &&& self.layer.wv.is_real(self.reading, self.in_features, width)
        &&& self.layer.wo.is_real(self.reading, width, self.out_features)
        &&& self.layer.head_dim > 0
        &&& self.layer.head_dim <= u64::MAX
        &&& self.layer.n_head * self.n * self.n <= usize::MAX
        &&& self.layer.n_head * self.n <= usize::MAX
        &&& self.root >= 0real
        &&& self.root * self.root == self.layer.head_dim as real
    }

    /// Whether positions are told by turns of this base.
    pub open spec fn is_base(self, rope_base: Option<V::Num>) -> bool {
        match (rope_base, self.rope_log) {
            (Some(base), Some(log)) => {
                &&& self.reading.numbers.reads(base, (self.reading.numbers.exp)(log))
                &&& self.layer.head_dim % 2 == 0
            },
            (None, None) => true,
            _ => false,
        }
    }

    /// Element `p` of position `i` in head `h`, as a layer projects it.
    pub open spec fn projected(self, layer: Linear<V>, h: int, i: int, p: int) -> real {
        layer.output(self.reading, self.x, self.in_features, i, h * self.layer.head_dim + p)
    }

    /// Element `p` of position `i` in head `h`, as a layer projects it and its position turns it.
    pub open spec fn placed(self, layer: Linear<V>, h: int, i: int, p: int) -> real {
        match self.rope_log {
            Some(log) => self.reading.turned(
                log,
                self.layer.head_dim as int,
                i,
                p,
                |k: int| self.projected(layer, h, i, k),
            ),
            None => self.projected(layer, h, i, p),
        }
    }

    /// The product of the query of position `i` with the key of position `j` in head `h`.
    pub open spec fn match_of(self, h: int, i: int, j: int) -> real {
        reals::sum_to(
            self.layer.head_dim as nat,
            |p: int| self.placed(self.layer.wq, h, i, p) * self.placed(self.layer.wk, h, j, p),
        )
    }

    /// How much position `j` weighs for position `i` in head `h`: the exponential of their match
    /// over the root of the head's size.
    pub open spec fn weight(self, h: int, i: int, j: int) -> real {
        (self.reading.numbers.exp)(self.match_of(h, i, j) / self.root)
    }

    /// The share of position `j` in what position `i` sees in head `h`: its weight over that of all
    /// positions up to `i`.
    pub open spec fn share(self, h: int, i: int, j: int) -> real {
        self.weight(h, i, j) / reals::sum_to((i + 1) as nat, |k: int| self.weight(h, i, k))
    }

    /// What position `i` sees in head `h`: the values of all positions up to it, by their shares.
    pub open spec fn seen(self, h: int, i: int, p: int) -> real {
        reals::sum_to(
            (i + 1) as nat,
            |j: int| self.share(h, i, j) * self.projected(self.layer.wv, h, j, p),
        )
    }

    /// Element `o` of the output for position `i`: what it sees in all heads, projected.
    pub open spec fn output(self, i: int, o: int) -> real {
        let dim = self.layer.head_dim as int;
        reals::sum_to(
            (self.layer.n_head * self.layer.head_dim) as nat,
            |c: int|
                self.seen(c / dim, i, c % dim) * self.reading.at(self.layer.wo.weight, o, c),
        ) + self.layer.wo.offset(self.reading, o)
    }
}

/// A projection cut into heads and turned.
proof fn lemma_placed<V: Operand>(
    a: RealAttention<V>,
    layer: Linear<V>,
    seq_len: usize,
    rope_base: Option<V::Num>,
    y: V,
)
    requires
        a.is_real(),
        seq_len == a.n,
        layer.is_real(a.reading, a.in_features, a.layer.n_head * a.layer.head_dim),
        a.is_base(rope_base),
        is_projection(layer, a.layer.sizes(seq_len), rope_base, a.x, y),
    ensures
        a.reading.is_batch(y, a.layer.n_head as int, a.n, a.layer.head_dim as int),
        forall|h: int, i: int, p: int|
            0 <= h < a.layer.n_head && 0 <= i < a.n && 0 <= p < a.layer.head_dim
                ==> #[trigger] a.reading.in_batch(y, h, i, p) == a.placed(layer, h, i, p),
{
    let reading = a.reading;
    let (heads, dim) = (a.layer.n_head as int, a.layer.head_dim as int);
    let sizes = a.layer.sizes(seq_len);
    let (flat, cut) = choose|flat: V, cut: V|
        {
            &&& layer.gives(a.x, flat)
            &&& #[trigger] V::reshape_to_heads.ensures(
                (&flat, sizes.seq_len, sizes.n_head, sizes.head_dim),
                cut,
            )
            &&& match rope_base {
                Some(base) => V::rotary_position_embedding.ensures((&cut, base), y),
                None => y == cut,
            }
        };
    layers::law_linear_layers_weigh_their_input(
        reading,
        layer,
        a.x,
        flat,
        a.n,
        a.in_features,
        heads * dim,
    );
    assert(reading.is_batch(cut, heads, a.n, dim));
    assert forall|h: int, i: int, p: int|
        0 <= h < heads && 0 <= i < a.n && 0 <= p < dim implies #[trigger] reading.in_batch(
        cut,
        h,
        i,
        p,
    ) == a.projected(layer, h, i, p) by {
        ops::lemma_split_position(h, p, heads, dim);
        assert(reading.in_batch(cut, h, i, p) == reading.at(flat, i, h * dim + p));
    }
    if let Some(log) = a.rope_log {
        let base = rope_base->0;
        assert(reading.numbers.reads(base, (reading.numbers.exp)(log)));
        assert(reading.is_batch(y, heads, a.n, dim));
        assert forall|h: int, i: int, p: int|
            0 <= h < heads && 0 <= i < a.n && 0 <= p < dim implies #[trigger] reading.in_batch(
            y,
            h,
            i,
            p,
        ) == a.placed(layer, h, i, p) by {
            let by_cut = |k: int| reading.in_batch(cut, h, i, k);
            let by_layer = |k: int| a.projected(layer, h, i, k);
            assert(reading.in_batch(y, h, i, p) == reading.turned(log, dim, i, p, by_cut));
            assert(by_cut(p) == by_layer(p));
            if p % 2 == 0 {
                assert(p + 1 < dim);
                assert(by_cut(p + 1) == by_layer(p + 1));
            } else {
                assert(by_cut(p - 1) == by_layer(p - 1));
            }
        }
    }
}

/// The scores that go into the shares, times the root of the head's size, are the plain products
/// of queries and keys.
pub proof fn law_scores_are_matches_over_the_root<V: Operand>(
    a: RealAttention<V>,
    seq_len: usize,
    rope_base: Option<V::Num>,
    steps: AttentionSteps<V>,
)
    requires
        a.is_real(),
        seq_len == a.n,
        a.is_base(rope_base),
        a.layer.are_steps(a.x, seq_len, rope_base, steps),
    ensures
        a.reading.is_batch(steps.scores, a.layer.n_head as int, a.n, a.n),
        a.root > 0real,
        forall|h: int, i: int, j: int|
            0 <= h < a.layer.n_head && 0 <= i < a.n && 0 <= j < a.n ==> a.root
                * #[trigger] a.reading.in_batch(steps.scores, h, i, j) == a.match_of(h, i, j),
{
    let reading = a.reading;
    let (heads, dim) = (a.layer.n_head as int, a.layer.head_dim as int);
    lemma_placed(a, a.layer.wq, seq_len, rope_base, steps.q);
    lemma_placed(a, a.layer.wk, seq_len, rope_base, steps.k);
    assert(reading.is_batch(steps.turned, heads, dim, a.n));
    assert(reading.is_batch(steps.raw, heads, a.n, a.n));
    let numbers = reading.numbers;
    let size = dim as real;
    assert(numbers.reads(steps.size, size));
    let (one, root) = choose|one: V::Num, root: V::Num|
        {
            &&& #[trigger] V::Num::one.ensures((), one)
            &&& #[trigger] V::Num::root.ensures((steps.size,), root)
            &&& V::Num::over.ensures((one, root), steps.factor)
        };
    reals::lemma_same_root(a.root, numbers.of(root));
    let r = a.root;
    assert(r > 0real) by (nonlinear_arith)
        requires
            r >= 0real,
            r * r == size,
            size > 0real,
    ;
    let factor = numbers.of(steps.factor);
    assert(factor == 1real / r);
    reals::lemma_quotient(1real, r);
    assert(reading.is_batch(steps.scores, heads, a.n, a.n));
    assert forall|h: int, i: int, j: int|
        0 <= h < heads && 0 <= i < a.n && 0 <= j < a.n implies a.root * #[trigger] reading.in_batch(
        steps.scores,
        h,
        i,
        j,
    ) == a.match_of(h, i, j) by {
        ops::lemma_split_position(h, i, heads, a.n);
        ops::lemma_split_position(h * a.n + i, j, heads * a.n, a.n);
        let raw = reading.in_batch(steps.raw, h, i, j);
        assert(reading.in_batch(steps.scores, h, i, j) == factor * raw);
        let found = |p: int|
            reading.in_batch(steps.q, h, i, p) * reading.in_batch(steps.turned, h, p, j);
        let wanted = |p: int| a.placed(a.layer.wq, h, i, p) * a.placed(a.layer.wk, h, j, p);
        assert(raw == reals::sum_to(dim as nat, found));
        assert forall|p: int| 0 <= p < dim implies #[trigger] found(p) == wanted(p) by {
            assert(reading.in_batch(steps.turned, h, p, j) == reading.in_batch(
                steps.k,
                h,
                j,
                p,
            ));
        }
        reals::lemma_same_sum(dim as nat, found, wanted);
        assert(r * (factor * raw) == raw) by (nonlinear_arith)
            requires
                r * factor == 1real,
        ;
    }
}

/// The shares of all positions.
proof fn lemma_shares<V: Operand>(
    a: RealAttention<V>,
    seq_len: usize,
    rope_base: Option<V::Num>,
    steps: AttentionSteps<V>,
)
    requires
        a.is_real(),
        seq_len == a.n,
        a.is_base(rope_base),
        a.layer.are_steps(a.x, seq_len, rope_base, steps),
    ensures
        a.reading.is_batch(steps.attention, a.layer.n_head as int, a.n, a.n),
        forall|h: int, i: int, j: int|
            0 <= h < a.layer.n_head && 0 <= i < a.n && 0 <= j < a.n
                ==> #[trigger] a.reading.in_batch(steps.attention, h, i, j) == if j <= i {
                a.share(h, i, j)
            } else {
                0real
            },
{
    let reading = a.reading;
    let (heads, n) = (a.layer.n_head as int, a.n);
    let sizes = a.layer.sizes(seq_len);
    law_scores_are_matches_over_the_root(a, seq_len, rope_base, steps);
    let mask = choose|mask: &[bool]|
        {
            &&& heads_mask(sizes, mask@)
            &&& #[trigger] V::masked_fill.ensures((&steps.scores, mask, steps.lowest), steps.masked)
        };
    assert(mask@.len() == (reading.cells)(steps.scores).len());
    let flat = seq![(heads * n) as usize, seq_len];
    lemma_volumes(heads, n);
    assert(shape::volume(flat) == (heads * n) * n);
    assert((reading.dims)(steps.rows) == flat);
    assert((reading.cells)(steps.rows) == (reading.cells)(steps.masked));
    let rows = steps.rows;
    assert forall|h: int, i: int, j: int| 0 <= h < heads && 0 <= i < n && 0 <= j < n implies {
        &&& (#[trigger] a.weight(h, i, j)) > 0real
        &&& reading.weight(rows, h * n + i, j) == if j <= i {
            a.weight(h, i, j)
        } else {
            0real
        }
    } by {
        ops::lemma_split_position(h, i, heads, n);
        ops::lemma_split_position(h * n + i, j, heads * n, n);
        heads::law_mask_hides_the_future(h, i, j, heads, n);
        let p = (h * n + i) * n + j;
        assert(mask@[p] == heads::is_future(p, n));
        assert((reading.hidden)(rows, p) == (reading.hidden)(steps.masked, p));
        if j <= i {
            assert((reading.cells)(steps.masked)[p] == (reading.cells)(steps.scores)[p]);
            let score = reading.in_batch(steps.scores, h, i, j);
            assert(a.root * score == a.match_of(h, i, j));
            assert(score * a.root == a.root * score) by (nonlinear_arith);
            reals::lemma_is_quotient(a.match_of(h, i, j), a.root, score);
        }
    }
    assert forall|row: int| 0 <= row < heads * n implies #[trigger] reading.shows_some(
        rows,
        row,
    ) by {
        ops::lemma_join_position(row, heads, n);
        let (h, i) = (row / n, row % n);
        assert(a.weight(h, i, 0) > 0real);
        assert(reading.weight(rows, row, 0) > 0real);
    }
    assert(reading.is_matrix(steps.shares, heads * n, n));
    assert((reading.dims)(steps.attention) == seq![a.layer.n_head, seq_len, seq_len]);
    assert((reading.cells)(steps.attention) == (reading.cells)(steps.shares));
    assert forall|p: int| 0 <= p < (reading.cells)(steps.attention).len() implies !(
    #[trigger] (reading.hidden)(steps.attention, p)) by {
        assert((reading.hidden)(steps.attention, p) == (reading.hidden)(steps.shares, p));
    }
    assert(reading.is_batch(steps.attention, heads, n, n));
    assert forall|h: int, i: int, j: int|
        0 <= h < heads && 0 <= i < n && 0 <= j < n implies #[trigger] reading.in_batch(
        steps.attention,
        h,
        i,
        j,
    ) == if j <= i {
        a.share(h, i, j)
    } else {
        0real
    } by {
        ops::lemma_split_position(h, i, heads, n);
        let row = h * n + i;
        assert(reading.in_batch(steps.attention, h, i, j) == reading.at(steps.shares, row, j));
        let all = |k: int| reading.weight(rows, row, k);
        let visible = |k: int| a.weight(h, i, k);
        assert forall|k: int| i + 1 <= k < n implies #[trigger] all(k) == 0real by {
            assert(a.weight(h, i, k) > 0real);
        }
        reals::lemma_sum_ends(n as nat, (i + 1) as nat, all);
        assert forall|k: int| 0 <= k < i + 1 implies #[trigger] all(k) == visible(k) by {
            assert(a.weight(h, i, k) > 0real);
        }
        reals::lemma_same_sum((i + 1) as nat, all, visible);
        assert(a.weight(h, i, j) > 0real);
        let total = reals::sum_to((i + 1) as nat, visible);
        assert forall|k: int| 0 <= k < i + 1 implies #[trigger] visible(k) > 0real by {
            assert(a.weight(h, i, k) > 0real);
        }
        reals::lemma_sum_is_positive((i + 1) as nat, visible);
        if j > i {
            reals::lemma_is_quotient(0real, total, 0real);
        }
    }
}

/// The numbers of elements of the arrays of scores.
proof fn lemma_volumes(heads: int, n: int)
    requires
        0 <= heads <= usize::MAX,
        0 <= n <= usize::MAX,
        0 <= heads * n <= usize::MAX,
    ensures
        shape::volume(seq![(heads * n) as usize, n as usize]) == (heads * n) * n,
        shape::volume(seq![heads as usize, n as usize, n as usize]) == (heads * n) * n,
{
    let flat = seq![(heads * n) as usize, n as usize];
    let cube = seq![heads as usize, n as usize, n as usize];
    let square = seq![n as usize, n as usize];
    let line = seq![n as usize];
    let none = Seq::<usize>::empty();
    assert(line.skip(1) =~= none);
    assert(flat.skip(1) =~= line);
    assert(square.skip(1) =~= line);
    assert(cube.skip(1) =~= square);
    assert(shape::volume(none) == 1);
    assert(shape::volume(line) == n as nat * shape::volume(none));
    assert(n * 1 == n);
    assert(shape::volume(flat) == (heads * n) as nat * shape::volume(line));
    assert(shape::volume(square) == n as nat * shape::volume(line));
    assert(shape::volume(cube) == heads as nat * shape::volume(square));
    assert(heads * (n * n) == (heads * n) * n) by (nonlinear_arith);
}

/// Causal attention. Over real numbers, every position sees the values of itself and of those before
/// it, each by its share: the exponential of the product of the query with its key over the root
/// of the head's size, over the sum of these exponentials.
pub proof fn law_positions_share_their_attention<V: Operand>(
    a: RealAttention<V>,
    seq_len: usize,
    rope_base: Option<V::Num>,
    y: V,
)
    requires
        a.is_real(),
        seq_len == a.n,
        a.is_base(rope_base),
        a.layer.gives(a.x, seq_len, rope_base, y),
    ensures
        a.reading.is_matrix(y, a.n, a.out_features),
        forall|i: int, o: int|
            0 <= i < a.n && 0 <= o < a.out_features ==> #[trigger] a.reading.at(y, i, o)
                == a.output(i, o),
        forall|h: int, i: int|
            0 <= h < a.layer.n_head && 0 <= i < a.n ==> #[trigger] a.has_shares(h, i),
{
    let reading = a.reading;
    let (heads, n, dim) = (a.layer.n_head as int, a.n, a.layer.head_dim as int);
    let steps = choose|steps: AttentionSteps<V>|
        {
            &&& #[trigger] a.layer.are_steps(a.x, seq_len, rope_base, steps)
            &&& a.layer.wo.gives(steps.joined, y)
        };
    lemma_shares(a, seq_len, rope_base, steps);
    let plain = RealAttention { rope_log: None, ..a };
    lemma_placed(plain, a.layer.wv, seq_len, None, steps.v);
    assert(reading.is_batch(steps.found, heads, n, dim));
    assert forall|h: int, i: int, p: int|
        0 <= h < heads && 0 <= i < n && 0 <= p < dim implies #[trigger] reading.in_batch(
        steps.found,
        h,
        i,
        p,
    ) == a.seen(h, i, p) by {
        let all = |j: int|
            reading.in_batch(steps.attention, h, i, j) * reading.in_batch(steps.v, h, j, p);
        let visible = |j: int| a.share(h, i, j) * a.projected(a.layer.wv, h, j, p);
        assert forall|j: int| i + 1 <= j < n implies #[trigger] all(j) == 0real by {
            let v = reading.in_batch(steps.v, h, j, p);
            assert(reading.in_batch(steps.attention, h, i, j) == 0real);
            assert(0real * v == 0real) by (nonlinear_arith);
        }
        reals::lemma_sum_ends(n as nat, (i + 1) as nat, all);
        assert forall|j: int| 0 <= j < i + 1 implies #[trigger] all(j) == visible(j) by {
            assert(reading.in_batch(steps.attention, h, i, j) == a.share(h, i, j));
            assert(reading.in_batch(steps.v, h, j, p) == plain.placed(a.layer.wv, h, j, p));
            assert(plain.projected(a.layer.wv, h, j, p) == a.projected(a.layer.wv, h, j, p));
        }
        reals::lemma_same_sum((i + 1) as nat, all, visible);
    }
    assert(reading.is_matrix(steps.joined, n, heads * dim));
    layers::law_linear_layers_weigh_their_input(
        reading,
        a.layer.wo,
        steps.joined,
        y,
        n,
        heads * dim,
        a.out_features,
    );
    assert forall|i: int, o: int| 0 <= i < n && 0 <= o < a.out_features implies #[trigger] reading.at(
        y,
        i,
        o,
    ) == a.output(i, o) by {
        let by_joined = |c: int|
            reading.at(steps.joined, i, c) * reading.at(a.layer.wo.weight, o, c);
        let by_seen = |c: int|
            a.seen(c / dim, i, c % dim) * reading.at(a.layer.wo.weight, o, c);
        assert forall|c: int| 0 <= c < heads * dim implies #[trigger] by_joined(c) == by_seen(
            c,
        ) by {
            ops::lemma_join_position(c, heads, dim);
            let (h, p) = (c / dim, c % dim);
            assert(reading.in_batch(steps.found, h, i, p) == reading.at(
                steps.joined,
                i,
                h * dim + p,
            ));
        }
        reals::lemma_same_sum((heads * dim) as nat, by_joined, by_seen);
    }
    assert forall|h: int, i: int| 0 <= h < heads && 0 <= i < n implies #[trigger] a.has_shares(
        h,
        i,
    ) by {
        lemma_whole_shares(a, h, i);
    }
}

impl<V: Operand> RealAttention<V> {
    /// Whether the shares of position `i` in head `h` are positive and add up to one.
    pub open spec fn has_shares(self, h: int, i: int) -> bool {
        &&& forall|j: int| 0 <= j <= i ==> #[trigger] self.share(h, i, j) > 0real
        &&& reals::sum_to((i + 1) as nat, |j: int| self.share(h, i, j)) == 1real
    }
}

/// Shares are positive and add up to one.
proof fn lemma_whole_shares<V: Operand>(a: RealAttention<V>, h: int, i: int)
    requires
        a.is_real(),
        0 <= i,
    ensures
        a.has_shares(h, i),
{
    let weights = |j: int| a.weight(h, i, j);
    let shares = |j: int| a.share(h, i, j);
    assert forall|j: int| #[trigger] weights(j) > 0real by {
        assert(a.reading.numbers.has_exponential());
    }
    reals::lemma_sum_is_positive((i + 1) as nat, weights);
    let total = reals::sum_to((i + 1) as nat, weights);
    let part = 1real / total;
    reals::lemma_quotient(1real, total);
    assert forall|j: int| 0 <= j < i + 1 implies #[trigger] shares(j) == part * weights(j) by {
        let w = weights(j);
        assert(w / total == part * w) by (nonlinear_arith)
            requires
                total > 0real,
                part == 1real / total,
        ;
    }
    reals::lemma_sum_of_multiples((i + 1) as nat, part, weights, shares);
    assert forall|j: int| 0 <= j <= i implies #[trigger] a.share(h, i, j) > 0real by {
        let w = weights(j);
        assert(w > 0real);
        assert(w / total > 0real) by (nonlinear_arith)
            requires
                total > 0real,
                w > 0real,
        ;
    }
}

} // verus!
