//! Layers with weights.

use super::arrays::ArrayReading;
use super::lora::LoraShape;
use super::operand;
use super::operand::{join_handles, Operand};
use super::params;
use super::params::{join_listings, named_parameter, part_name, NamedParameter};
use crate::tensor::arith;
use crate::tensor::arith::Scalar;
use crate::tensor::linalg;
use crate::tensor::number;
use crate::tensor::number::{decimal, part, Number};
use crate::tensor::ops;
use crate::tensor::reals;
use crate::tensor::reals::Reading;
use vstd::prelude::*;

verus! {

/// Something that computes one tensor from another, with weights.
pub trait Module<V> {
    /// What it computes.
    fn forward(&self, input: &V) -> V;

    /// The weights that are trained or saved.
    fn parameters(&self) -> Vec<V>;
}

/// A linear layer: the product with the transposed weights, and an offset.
pub struct Linear<V> {
    /// One row for each element of the output.
    pub weight: V,
    /// The offset of each element of the output.
    pub bias: Option<V>,
}

impl<V: Operand> Linear<V> {
    /// Whether this is a layer as it is made: weights by chance, and offsets of zero where they
    /// are asked for.
    pub open spec fn is_new(
        self,
        in_features: usize,
        out_features: usize,
        use_bias: bool,
    ) -> bool {
        &&& V::xavier_uniform.ensures((out_features, in_features), self.weight)
        &&& self.bias is Some <==> use_bias
        &&& self.bias matches Some(bias) ==> V::filled.ensures(
            (out_features, V::Num::nought()),
            bias,
        )
    }

    /// Whether `y` is the output for `x`.
    pub open spec fn gives(self, x: V, y: V) -> bool {
        exists|turned: V, product: V|
            {
                &&& V::transpose.ensures((&self.weight,), turned)
                &&& #[trigger] V::matmul.ensures((&x, &turned), product)
                &&& match self.bias {
                    Some(bias) => V::broadcast_add.ensures((&product, &bias), y),
                    None => y == product,
                }
            }
    }

    /// The weights.
    pub open spec fn weights(self) -> Seq<V> {
        match self.bias {
            Some(bias) => seq![self.weight, bias],
            None => seq![self.weight],
        }
    }

    /// The names of the weights.
    pub open spec fn names(self, prefix: Seq<char>) -> Seq<Seq<char>> {
        params::linear(prefix, self.bias is Some)
    }

    /// A layer with weights by chance, and with offsets of zero if it is to have any.
    pub fn new(in_features: usize, out_features: usize, use_bias: bool) -> (layer: Self)
        ensures
            layer.is_new(in_features, out_features, use_bias),
    {
        let weight: V = V::xavier_uniform(out_features, in_features);
        let bias: Option<V> = if use_bias {
            Some(V::filled(out_features, V::Num::zero()))
        } else {
            None
        };
        Linear { weight, bias }
    }

    /// The weights under their names.
    pub fn named_parameters(&self, prefix: &str) -> (list: Vec<NamedParameter<V>>)
        ensures
            params::is_listing(list@, self.names(prefix@), self.weights()),
    {
        let mut list: Vec<NamedParameter<V>> = Vec::new();
        list.push(named_parameter(prefix, "weight", self.weight.handle()));
        match &self.bias {
            Some(bias) => {
                list.push(named_parameter(prefix, "bias", bias.handle()));
            },
            None => {},
        }
        assert(params::named_texts(list@) =~= self.names(prefix@));
        list
    }
}

impl<V: Operand> Module<V> for Linear<V> {
    /// The product with the transposed weights, plus the offsets.
    fn forward(&self, input: &V) -> (out: V)
        ensures
            self.gives(*input, out),
    {
        let turned: V = self.weight.transpose();
        let product: V = input.matmul(&turned);
        assert(V::matmul.ensures((input, &turned), product));
        match &self.bias {
            Some(bias) => product.broadcast_add(bias),
            None => product,
        }
    }

    /// The weights.
    fn parameters(&self) -> (list: Vec<V>)
        ensures
            operand::are_handles(self.weights(), list@),
    {
        let mut list: Vec<V> = Vec::new();
        list.push(self.weight.handle());
        match &self.bias {
            Some(bias) => {
                list.push(bias.handle());
            },
            None => {},
        }
        list
    }
}

/// How much is made up for what is dropped: one over what is left of one.
pub open spec fn is_makeup<T: Number>(rate: T, makeup: T) -> bool {
    exists|one: T|
        {
            &&& #[trigger] T::one.ensures((), one)
            &&& T::over.ensures((one, one.difference(rate)), makeup)
        }
}

/// Whether `mask` drops the elements whose chance is below `rate`, and makes up for them.
pub open spec fn is_dropout_mask<T: Number>(rate: T, chances: Seq<T>, mask: Seq<T>) -> bool {
    exists|makeup: T|
        {
            &&& #[trigger] is_makeup(rate, makeup)
            &&& mask.len() == chances.len()
            &&& forall|i: int|
                0 <= i < mask.len() ==> is_dropped(rate, makeup, chances[i], #[trigger] mask[i])
        }
}

/// Whether an element with this chance gets this factor.
pub open spec fn is_dropped<T: Number>(rate: T, makeup: T, chance: T, factor: T) -> bool {
    exists|drops: bool|
        {
            &&& #[trigger] T::is_below.ensures((chance, rate), drops)
            &&& factor == if drops {
                T::nought()
            } else {
                makeup
            }
        }
}

/// The factors of elements with these chances: zero for those below `rate`; the others make up
/// for them.
pub fn dropout_mask<T: Number>(rate: T, chances: &[T]) -> (mask: Vec<T>)
    ensures
        is_dropout_mask(rate, chances@, mask@),
{
    let one: T = T::one();
    let makeup: T = one.over(one.minus(rate));
    assert(T::one.ensures((), one));
    assert(is_makeup(rate, makeup));
    let mut mask: Vec<T> = Vec::new();
    for i in 0..chances.len()
        invariant
            mask@.len() == i,
            forall|j: int|
                0 <= j < i ==> is_dropped(rate, makeup, chances@[j], #[trigger] mask@[j]),
    {
        let chance: T = chances[i];
        let drops: bool = chance.is_below(rate);
        assert(T::is_below.ensures((chance, rate), drops));
        mask.push(
            if drops {
                T::zero()
            } else {
                makeup
            },
        );
    }
    mask
}

/// Drops elements by chance while training.
#[derive(Debug, Clone, Copy, PartialEq, Eq)]
pub struct Dropout<T> {
    /// How often an element is dropped.
    pub rate: T,
    pub training: bool,
}

impl<T: Number> Dropout<T> {
    /// Whether `y` is what is left of `x`: all of it outside of training, and where nothing is
    /// ever dropped.
    pub open spec fn gives<V: Operand<Num = T>>(self, x: V, y: V) -> bool {
        if !self.training {
            V::handle.ensures((&x,), y)
        } else {
            exists|never: bool|
                {
                    &&& #[trigger] T::is_zero.ensures((self.rate,), never)
                    &&& if never {
                        V::handle.ensures((&x,), y)
                    } else {
                        is_thinned(self.rate, x, y)
                    }
                }
        }
    }

    /// Drops elements at this rate; training is on.
    pub fn new(rate: T) -> (layer: Self)
        ensures
            layer == (Dropout { rate, training: true }),
    {
        Dropout { rate, training: true }
    }

    /// What is left of the elements.
    pub fn forward<V: Operand<Num = T>>(&self, input: &V) -> (out: V)
        ensures
            self.gives(*input, out),
    {
        if !self.training {
            return input.handle();
        }
        let rate: T = self.rate;
        let never: bool = rate.is_zero();
        assert(T::is_zero.ensures((self.rate,), never));
        if never {
            return input.handle();
        }
        let chances: Vec<T> = input.chances();
        let elements: Vec<T> = dropout_mask(rate, chances.as_slice());
        let mask: V = input.with_elements(elements);
        let out: V = input.multiplied(&mask);
        assert(V::chances.ensures((input,), chances));
        assert(V::with_elements.ensures((input, elements), mask));
        assert(is_thinned(self.rate, *input, out));
        out
    }

    /// Lets everything through from now on.
    pub fn eval(&mut self)
        ensures
            *final(self) == (Dropout { training: false, ..*old(self) }),
    {
        self.training = false;
    }

    /// Drops elements from now on.
    pub fn train(&mut self)
        ensures
            *final(self) == (Dropout { training: true, ..*old(self) }),
    {
        self.training = true;
    }
}

/// Whether `y` is `x` with elements dropped by chance.
pub open spec fn is_thinned<V: Operand>(rate: V::Num, x: V, y: V) -> bool {
    exists|chances: Vec<V::Num>, elements: Vec<V::Num>, mask: V|
        {
            &&& #[trigger] V::chances.ensures((&x,), chances)
            &&& is_dropout_mask(rate, chances@, elements@)
            &&& #[trigger] V::with_elements.ensures((&x, elements), mask)
            &&& V::multiplied.ensures((&x, &mask), y)
        }
}

/// Rows of weights that are looked up by their number.
pub struct Embedding<V> {
    pub weight: V,
}

impl<V: Operand> Embedding<V> {
    /// The weights.
    pub open spec fn weights(self) -> Seq<V> {
        seq![self.weight]
    }

    /// The names of the weights.
    pub open spec fn names(self, prefix: Seq<char>) -> Seq<Seq<char>> {
        params::weight(prefix)
    }

    /// Whether `y` holds the rows with these numbers.
    pub open spec fn gives(self, numbers: Seq<usize>, y: V) -> bool {
        exists|indices: &[usize]|
            {
                &&& indices@ == numbers
                &&& #[trigger] V::embedding_lookup.ensures((&self.weight, indices), y)
            }
    }

    /// Rows of weights by chance.
    pub fn new(num_embeddings: usize, embedding_dim: usize) -> (layer: Self)
        ensures
            V::uniform.ensures((num_embeddings, embedding_dim), layer.weight),
    {
        Embedding { weight: V::uniform(num_embeddings, embedding_dim) }
    }

    /// The rows with these numbers.
    pub fn forward_indices(&self, indices: &[usize]) -> (out: V)
        ensures
            self.gives(indices@, out),
    {
        let out: V = self.weight.embedding_lookup(indices);
        assert(V::embedding_lookup.ensures((&self.weight, indices), out));
        out
    }

    /// The weights.
    pub fn parameters(&self) -> (list: Vec<V>)
        ensures
            operand::are_handles(self.weights(), list@),
    {
        let mut list: Vec<V> = Vec::new();
        list.push(self.weight.handle());
        list
    }

    /// The weights under their names.
    pub fn named_parameters(&self, prefix: &str) -> (list: Vec<NamedParameter<V>>)
        ensures
            params::is_listing(list@, self.names(prefix@), self.weights()),
    {
        let mut list: Vec<NamedParameter<V>> = Vec::new();
        list.push(named_parameter(prefix, "weight", self.weight.handle()));
        assert(params::named_texts(list@) =~= self.names(prefix@));
        list
    }
}

/// Rows normalised around their mean, stretched by `gamma` and shifted by `beta`.
pub struct LayerNorm<V: Operand> {
    pub gamma: V,
    pub beta: V,
    /// What is added to the variance.
    pub eps: V::Num,
    /// The length of a row.
    pub normalized_shape: usize,
}

impl<V: Operand> LayerNorm<V> {
    /// Whether this is a layer as it is made, which stretches by one and shifts by zero.
    pub open spec fn is_new(self, normalized_shape: usize) -> bool {
        &&& exists|one: V::Num|
            {
                &&& #[trigger] number::is_one(one)
                &&& V::filled.ensures((normalized_shape, one), self.gamma)
            }
        &&& V::filled.ensures((normalized_shape, V::Num::nought()), self.beta)
        &&& number::is_decimal(1, 5, self.eps)
        &&& self.normalized_shape == normalized_shape
    }

    /// Whether `y` is the output for `x`.
    pub open spec fn gives(self, x: V, y: V) -> bool {
        V::layer_norm.ensures(
            (&x, self.normalized_shape, &self.gamma, &self.beta, self.eps),
            y,
        )
    }

    /// The weights.
    pub open spec fn weights(self) -> Seq<V> {
        seq![self.gamma, self.beta]
    }

    /// The names of the weights.
    pub open spec fn names(self, prefix: Seq<char>) -> Seq<Seq<char>> {
        params::layer_norm(prefix)
    }

    /// A layer that stretches by one and shifts by zero.
    pub fn new(normalized_shape: usize) -> (layer: Self)
        ensures
            layer.is_new(normalized_shape),
    {
        let one: V::Num = number::one();
        LayerNorm {
            gamma: V::filled(normalized_shape, one),
            beta: V::filled(normalized_shape, V::Num::zero()),
            eps: decimal(1, 5),
            normalized_shape,
        }
    }

    /// The weights under their names.
    pub fn named_parameters(&self, prefix: &str) -> (list: Vec<NamedParameter<V>>)
        ensures
            params::is_listing(list@, self.names(prefix@), self.weights()),
    {
        let mut list: Vec<NamedParameter<V>> = Vec::new();
        list.push(named_parameter(prefix, "gamma", self.gamma.handle()));
        list.push(named_parameter(prefix, "beta", self.beta.handle()));
        assert(params::named_texts(list@) =~= self.names(prefix@));
        list
    }
}

impl<V: Operand> Module<V> for LayerNorm<V> {
    /// The rows normalised, stretched and shifted.
    fn forward(&self, input: &V) -> (out: V)
        ensures
            self.gives(*input, out),
    {
        input.layer_norm(self.normalized_shape, &self.gamma, &self.beta, self.eps)
    }

    /// The weights.
    fn parameters(&self) -> (list: Vec<V>)
        ensures
            operand::are_handles(self.weights(), list@),
    {
        let mut list: Vec<V> = Vec::new();
        list.push(self.gamma.handle());
        list.push(self.beta.handle());
        list
    }
}

/// Rows normalised around zero and stretched by `weight`.
pub struct RmsNorm<V: Operand> {
    pub weight: V,
    /// What is added to the mean square.
    pub eps: V::Num,
    /// The length of a row.
    pub normalized_shape: usize,
}

impl<V: Operand> RmsNorm<V> {
    /// Whether this is a layer as it is made, which stretches by one.
    pub open spec fn is_new(self, normalized_shape: usize) -> bool {
        &&& exists|one: V::Num|
            {
                &&& #[trigger] number::is_one(one)
                &&& V::filled.ensures((normalized_shape, one), self.weight)
            }
        &&& number::is_decimal(1, 6, self.eps)
        &&& self.normalized_shape == normalized_shape
    }

    /// Whether `y` is the output for `x`.
    pub open spec fn gives(self, x: V, y: V) -> bool {
        V::rms_norm.ensures((&x, &self.weight, self.eps), y)
    }

    /// The weights.
    pub open spec fn weights(self) -> Seq<V> {
        seq![self.weight]
    }

    /// The names of the weights.
    pub open spec fn names(self, prefix: Seq<char>) -> Seq<Seq<char>> {
        params::weight(prefix)
    }

    /// A layer that stretches by one.
    pub fn new(normalized_shape: usize) -> (layer: Self)
        ensures
            layer.is_new(normalized_shape),
    {
        let one: V::Num = number::one();
        RmsNorm {
            weight: V::filled(normalized_shape, one),
            eps: decimal(1, 6),
            normalized_shape,
        }
    }

    /// The weights under their names.
    pub fn named_parameters(&self, prefix: &str) -> (list: Vec<NamedParameter<V>>)
        ensures
            params::is_listing(list@, self.names(prefix@), self.weights()),
    {
        let mut list: Vec<NamedParameter<V>> = Vec::new();
        list.push(named_parameter(prefix, "weight", self.weight.handle()));
        assert(params::named_texts(list@) =~= self.names(prefix@));
        list
    }
}

impl<V: Operand> Module<V> for RmsNorm<V> {
    /// The rows normalised and stretched.
    fn forward(&self, input: &V) -> (out: V)
        ensures
            self.gives(*input, out),
    {
        input.rms_norm(&self.weight, self.eps)
    }

    /// The weights.
    fn parameters(&self) -> (list: Vec<V>)
        ensures
            operand::are_handles(self.weights(), list@),
    {
        let mut list: Vec<V> = Vec::new();
        list.push(self.weight.handle());
        list
    }
}

/// A linear layer that is left as it is, and an adapter of low rank that is trained on top of
/// it.
pub struct LoRALinear<V: Operand> {
    pub base: Linear<V>,
    /// One row for each rank.
    pub lora_a: V,
    /// One row for each element of the output.
    pub lora_b: V,
    pub alpha: V::Num,
    pub rank: usize,
}

/// How the output with an adapter comes about: that of the base, the adapter's two products with
/// transposed weights, and their multiple.
pub struct LoraSteps<V: Operand> {
    pub base: V,
    pub turned_a: V,
    pub turned_b: V,
    pub low: V,
    pub high: V,
    pub scaling: V::Num,
    pub scaled: V,
}

impl<V: Operand> LoRALinear<V> {
    /// Whether an adapter was put on `base`: the base is left as it is from now on, and the
    /// adapter adds nothing yet.
    pub open spec fn is_put_on(self, base: Linear<V>, rank: usize, alpha: V::Num) -> bool {
        &&& V::frozen.ensures((base.weight,), self.base.weight)
        &&& self.base.bias is Some <==> base.bias is Some
        &&& self.base.bias matches Some(bias) ==> V::frozen.ensures((base.bias->0,), bias)
        &&& exists|in_features: usize, out_features: usize|
            {
                &&& #[trigger] V::cols.ensures((&base.weight,), in_features)
                &&& #[trigger] V::rows.ensures((&base.weight,), out_features)
                &&& V::kaiming_normal.ensures((rank, in_features), self.lora_a)
                &&& V::filled_matrix.ensures(
                    (out_features, rank, V::Num::nought()),
                    self.lora_b,
                )
            }
        &&& self.alpha == alpha
        &&& self.rank == rank
    }

    /// Whether `steps` lead from `x` to the output.
    pub open spec fn are_steps(self, x: V, steps: LoraSteps<V>) -> bool {
        &&& self.base.gives(x, steps.base)
        &&& V::transpose.ensures((&self.lora_a,), steps.turned_a)
        &&& V::transpose.ensures((&self.lora_b,), steps.turned_b)
        &&& V::matmul.ensures((&x, &steps.turned_a), steps.low)
        &&& V::matmul.ensures((&steps.low, &steps.turned_b), steps.high)
        &&& number::is_part(self.alpha, self.rank as nat, steps.scaling)
        &&& V::scale.ensures((&steps.high, steps.scaling), steps.scaled)
    }

    /// Whether `y` is the output for `x`.
    pub open spec fn gives(self, x: V, y: V) -> bool {
        exists|steps: LoraSteps<V>|
            {
                &&& #[trigger] self.are_steps(x, steps)
                &&& V::added.ensures((&steps.base, &steps.scaled), y)
            }
    }

    /// The weights of the adapter.
    pub open spec fn adapter(self) -> Seq<V> {
        seq![self.lora_a, self.lora_b]
    }

    /// All weights.
    pub open spec fn weights(self) -> Seq<V> {
        self.base.weights() + self.adapter()
    }

    /// The names of all weights.
    pub open spec fn names(self, prefix: Seq<char>) -> Seq<Seq<char>> {
        self.base.names(params::part(prefix, "base"@)) + seq![
            params::part(prefix, "lora_a"@),
            params::part(prefix, "lora_b"@),
        ]
    }

    /// Puts an adapter on a layer.
    pub fn new(base: Linear<V>, rank: usize, alpha: V::Num) -> (layer: Self)
        ensures
            layer.is_put_on(base, rank, alpha),
    {
        let in_features: usize = base.weight.cols();
        let out_features: usize = base.weight.rows();
        assert(V::cols.ensures((&base.weight,), in_features));
        assert(V::rows.ensures((&base.weight,), out_features));
        let weight: V = base.weight.frozen();
        let bias: Option<V> = match base.bias {
            Some(bias) => Some(bias.frozen()),
            None => None,
        };
        let lora_a: V = V::kaiming_normal(rank, in_features);
        let lora_b: V = V::filled_matrix(out_features, rank, V::Num::zero());
        LoRALinear { base: Linear { weight, bias }, lora_a, lora_b, alpha, rank }
    }

    /// A new layer with an adapter.
    pub fn from_dims(
        in_features: usize,
        out_features: usize,
        use_bias: bool,
        rank: usize,
        alpha: V::Num,
    ) -> (layer: Self)
        ensures
            exists|base: Linear<V>|
                {
                    &&& #[trigger] base.is_new(in_features, out_features, use_bias)
                    &&& layer.is_put_on(base, rank, alpha)
                },
    {
        let base: Linear<V> = Linear::new(in_features, out_features, use_bias);
        let ghost made = base;
        let layer = LoRALinear::new(base, rank, alpha);
        assert(made.is_new(in_features, out_features, use_bias));
        layer
    }

    /// All weights, those of the base first.
    pub fn all_parameters(&self) -> (list: Vec<V>)
        ensures
            operand::are_handles(self.weights(), list@),
    {
        join_handles(self.base.parameters(), self.parameters())
    }

    /// All weights under their names.
    pub fn named_parameters(&self, prefix: &str) -> (list: Vec<NamedParameter<V>>)
        ensures
            params::is_listing(list@, self.names(prefix@), self.weights()),
    {
        let base = self.base.named_parameters(part_name(prefix, "base").as_str());
        let mut list: Vec<NamedParameter<V>> = Vec::new();
        list.push(named_parameter(prefix, "lora_a", self.lora_a.handle()));
        list.push(named_parameter(prefix, "lora_b", self.lora_b.handle()));
        proof {
            let names = seq![
                params::part(prefix@, "lora_a"@),
                params::part(prefix@, "lora_b"@),
            ];
            assert(params::named_texts(list@) =~= names);
            assert(params::is_listing(list@, names, self.adapter()));
        }
        join_listings(base, list)
    }
}

/// What is folded together: the sizes of the base, all elements, and the multiple.
pub struct FoldParts<V: Operand> {
    pub out_features: usize,
    pub in_features: usize,
    pub weight: Vec<V::Num>,
    pub lora_a: Vec<V::Num>,
    pub lora_b: Vec<V::Num>,
    pub scaling: V::Num,
}

impl<V: Operand> LoRALinear<V> {
    /// Whether `parts` are those of this layer.
    pub open spec fn are_fold_parts(self, parts: FoldParts<V>) -> bool {
        &&& V::rows.ensures((&self.base.weight,), parts.out_features)
        &&& V::cols.ensures((&self.base.weight,), parts.in_features)
        &&& V::elements.ensures((&self.base.weight,), parts.weight)
        &&& V::elements.ensures((&self.lora_a,), parts.lora_a)
        &&& V::elements.ensures((&self.lora_b,), parts.lora_b)
        &&& number::is_part(self.alpha, self.rank as nat, parts.scaling)
    }

    /// The shape of the adapter.
    pub open spec fn lora_shape(self, parts: FoldParts<V>) -> LoraShape {
        LoraShape {
            out_features: parts.out_features,
            in_features: parts.in_features,
            rank: self.rank,
        }
    }

    /// Whether the sizes go with the numbers of elements.
    pub open spec fn fits(self, parts: FoldParts<V>) -> bool {
        self.lora_shape(parts).fits(
            parts.weight@.len(),
            parts.lora_a@.len(),
            parts.lora_b@.len(),
        )
    }

    /// The weights of the base with those of the adapter folded in.
    pub open spec fn folded(self, parts: FoldParts<V>) -> Seq<V::Num> {
        self.lora_shape(parts).merged(parts.weight@, parts.lora_a@, parts.lora_b@, parts.scaling)
    }

    /// Whether `weight` are the weights of the base with those of the adapter folded in, or there
    /// are none.
    pub open spec fn is_merged(self, weight: Option<Vec<V::Num>>) -> bool {
        exists|parts: FoldParts<V>|
            {
                &&& #[trigger] self.are_fold_parts(parts)
                &&& weight is Some <==> self.fits(parts)
                &&& weight matches Some(w) ==> w@ == self.folded(parts)
            }
    }

    /// The weights of the base with those of the adapter folded in; none where the sizes do not go
    /// with the numbers of elements.
    pub fn merged(&self) -> (weight: Option<Vec<V::Num>>)
        ensures
            self.is_merged(weight),
    {
        let out_features: usize = self.base.weight.rows();
        let in_features: usize = self.base.weight.cols();
        let weight: Vec<V::Num> = self.base.weight.elements();
        let lora_a: Vec<V::Num> = self.lora_a.elements();
        let lora_b: Vec<V::Num> = self.lora_b.elements();
        let scaling: V::Num = part(self.alpha, self.rank as u64);
        let ghost parts = FoldParts {
            out_features,
            in_features,
            weight,
            lora_a,
            lora_b,
            scaling,
        };
        assert(self.are_fold_parts(parts));
        let shape = LoraShape { out_features, in_features, rank: self.rank };
        if shape.can_merge(weight.len(), lora_a.len(), lora_b.len()) {
            let mut merged: Vec<V::Num> = weight;
            shape.merge(&mut merged, lora_a.as_slice(), lora_b.as_slice(), scaling);
            assert(merged@ == self.folded(parts));
            Some(merged)
        } else {
            None
        }
    }
}

impl<V: Operand> Module<V> for LoRALinear<V> {
    /// The output of the base plus a multiple of the adapter's.
    fn forward(&self, input: &V) -> (out: V)
        ensures
            self.gives(*input, out),
    {
        let base: V = self.base.forward(input);
        let turned_a: V = self.lora_a.transpose();
        let turned_b: V = self.lora_b.transpose();
        let low: V = input.matmul(&turned_a);
        let high: V = low.matmul(&turned_b);
        let scaling: V::Num = part(self.alpha, self.rank as u64);
        let scaled: V = high.scale(scaling);
        let out: V = base.added(&scaled);
        proof {
            let steps = LoraSteps { base, turned_a, turned_b, low, high, scaling, scaled };
            assert(self.are_steps(*input, steps));
        }
        out
    }

    /// The weights of the adapter, which alone are trained.
    fn parameters(&self) -> (list: Vec<V>)
        ensures
            operand::are_handles(self.adapter(), list@),
    {
        let mut list: Vec<V> = Vec::new();
        list.push(self.lora_a.handle());
        list.push(self.lora_b.handle());
        list
    }
}

impl<V: Operand> Linear<V> {
    /// Whether the weights are those of a layer from `in_features` to `out_features` real numbers.
    pub open spec fn is_real(
        self,
        reading: ArrayReading<V>,
        in_features: int,
        out_features: int,
    ) -> bool {
        &&& reading.is_matrix(self.weight, out_features, in_features)
        &&& self.bias matches Some(bias) ==> reading.is_list(bias, out_features)
    }

    /// The offset of element `o` of the output.
    pub open spec fn offset(self, reading: ArrayReading<V>, o: int) -> real {
        match self.bias {
            Some(bias) => (reading.cells)(bias)[o],
            None => 0real,
        }
    }

    /// Element `o` of the output for row `i` of `x`: the row times the weights of that element,
    /// plus its offset.
    pub open spec fn output(
        self,
        reading: ArrayReading<V>,
        x: V,
        in_features: int,
        i: int,
        o: int,
    ) -> real {
        reals::sum_to(
            in_features as nat,
            |k: int| reading.at(x, i, k) * reading.at(self.weight, o, k),
        ) + self.offset(reading, o)
    }
}

/// A linear layer, over real numbers: every element of the output is the sum of the elements of the
/// input, each times its weight, plus an offset.
pub proof fn law_linear_layers_weigh_their_input<V: Operand>(
    reading: ArrayReading<V>,
    layer: Linear<V>,
    x: V,
    y: V,
    rows: int,
    in_features: int,
    out_features: int,
)
    requires
        reading.is_faithful(),
        layer.is_real(reading, in_features, out_features),
        reading.is_matrix(x, rows, in_features),
        layer.gives(x, y),
    ensures
        reading.is_matrix(y, rows, out_features),
        forall|i: int, o: int|
            0 <= i < rows && 0 <= o < out_features ==> #[trigger] reading.at(y, i, o)
                == layer.output(reading, x, in_features, i, o),
{
    let (turned, product) = choose|turned: V, product: V|
        {
            &&& V::transpose.ensures((&layer.weight,), turned)
            &&& #[trigger] V::matmul.ensures((&x, &turned), product)
            &&& match layer.bias {
                Some(bias) => V::broadcast_add.ensures((&product, &bias), y),
                None => y == product,
            }
        };
    assert(reading.is_matrix(turned, in_features, out_features));
    assert(reading.is_matrix(product, rows, out_features));
    assert forall|i: int, o: int| 0 <= i < rows && 0 <= o < out_features implies #[trigger] reading.at(
        y,
        i,
        o,
    ) == layer.output(reading, x, in_features, i, o) by {
        assert(reading.at(product, i, o) == reading.dot(x, i, turned, o, in_features));
        let by_turned = |k: int| reading.at(x, i, k) * reading.at(turned, k, o);
        let by_weight = |k: int| reading.at(x, i, k) * reading.at(layer.weight, o, k);
        assert forall|k: int| 0 <= k < in_features implies #[trigger] by_turned(k) == by_weight(
            k,
        ) by {
            assert(reading.at(turned, k, o) == reading.at(layer.weight, o, k));
        }
        reals::lemma_same_sum(in_features as nat, by_turned, by_weight);
    }
}

impl<V: Operand> LoRALinear<V> {
    /// Whether base and adapter are matrices of real numbers that go together.
    pub open spec fn is_real(
        self,
        reading: ArrayReading<V>,
        in_features: int,
        out_features: int,
    ) -> bool {
        &&& self.base.is_real(reading, in_features, out_features)
        &&& reading.is_matrix(self.lora_a, self.rank as int, in_features)
        &&& reading.is_matrix(self.lora_b, out_features, self.rank as int)
        &&& (reading.numbers.finite)(self.alpha)
        &&& 0 < self.rank
    }

    /// What the adapter adds to the weight of element `k` of the input for element `o` of the
    /// output: alpha over the rank, times the product of both matrices there.
    pub open spec fn added_weight(self, reading: ArrayReading<V>, o: int, k: int) -> real {
        (reading.numbers.of(self.alpha) / self.rank as real) * reals::sum_to(
            self.rank as nat,
            |r: int| reading.at(self.lora_b, o, r) * reading.at(self.lora_a, r, k),
        )
    }
}

/// The output with an adapter, over real numbers: that of a linear layer to whose weights the
/// adapter has been added, times alpha over the rank.
pub proof fn law_adapters_add_to_the_weights<V: Operand>(
    reading: ArrayReading<V>,
    layer: LoRALinear<V>,
    x: V,
    y: V,
    rows: int,
    in_features: int,
    out_features: int,
)
    requires
        reading.is_faithful(),
        layer.is_real(reading, in_features, out_features),
        reading.is_matrix(x, rows, in_features),
        layer.gives(x, y),
    ensures
        reading.is_matrix(y, rows, out_features),
        forall|i: int, o: int|
            0 <= i < rows && 0 <= o < out_features ==> #[trigger] reading.at(y, i, o)
                == reals::sum_to(
                in_features as nat,
                |k: int|
                    reading.at(x, i, k) * (reading.at(layer.base.weight, o, k)
                        + layer.added_weight(reading, o, k)),
            ) + layer.base.offset(reading, o),
{
    let rank = layer.rank as int;
    let steps = choose|steps: LoraSteps<V>|
        {
            &&& #[trigger] layer.are_steps(x, steps)
            &&& V::added.ensures((&steps.base, &steps.scaled), y)
        };
    law_linear_layers_weigh_their_input(
        reading,
        layer.base,
        x,
        steps.base,
        rows,
        in_features,
        out_features,
    );
    assert(reading.is_matrix(steps.turned_a, in_features, rank));
    assert(reading.is_matrix(steps.turned_b, rank, out_features));
    assert(reading.is_matrix(steps.low, rows, rank));
    assert(reading.is_matrix(steps.high, rows, out_features));
    reading.numbers.lemma_part(layer.alpha, layer.rank as nat, steps.scaling);
    let s = reading.numbers.of(layer.alpha) / layer.rank as real;
    assert(reading.is_matrix(steps.scaled, rows, out_features));
    assert((reading.dims)(steps.base) =~= (reading.dims)(steps.scaled));
    assert(reading.is_matrix(y, rows, out_features));
    assert forall|i: int, o: int| 0 <= i < rows && 0 <= o < out_features implies #[trigger] reading.at(
        y,
        i,
        o,
    ) == reals::sum_to(
        in_features as nat,
        |k: int|
            reading.at(x, i, k) * (reading.at(layer.base.weight, o, k) + layer.added_weight(
                reading,
                o,
                k,
            )),
    ) + layer.base.offset(reading, o) by {
        ops::lemma_split_position(i, o, rows, out_features);
        assert(reading.at(y, i, o) == reading.at(steps.base, i, o) + reading.at(
            steps.scaled,
            i,
            o,
        ));
        assert(reading.at(steps.scaled, i, o) == s * reading.at(steps.high, i, o));
        lemma_adapter_output(reading, layer, x, steps, rows, in_features, out_features, i, o);
        let own = |k: int| reading.at(x, i, k) * reading.at(layer.base.weight, o, k);
        let added = |k: int| reading.at(x, i, k) * layer.added_weight(reading, o, k);
        let whole = |k: int|
            reading.at(x, i, k) * (reading.at(layer.base.weight, o, k) + layer.added_weight(
                reading,
                o,
                k,
            ));
        assert forall|k: int| 0 <= k < in_features implies #[trigger] whole(k) == own(k) + added(
            k,
        ) by {
            let (a, b, c) = (
                reading.at(x, i, k),
                reading.at(layer.base.weight, o, k),
                layer.added_weight(reading, o, k),
            );
            assert(a * (b + c) == a * b + a * c) by (nonlinear_arith);
        }
        reals::lemma_sum_of_sums(in_features as nat, own, added, whole);
    }
}

/// The two products of the adapter are one with the added weights.
proof fn lemma_adapter_output<V: Operand>(
    reading: ArrayReading<V>,
    layer: LoRALinear<V>,
    x: V,
    steps: LoraSteps<V>,
    rows: int,
    in_features: int,
    out_features: int,
    i: int,
    o: int,
)
    requires
        reading.is_faithful(),
        layer.is_real(reading, in_features, out_features),
        reading.is_matrix(x, rows, in_features),
        layer.are_steps(x, steps),
        0 <= i < rows,
        0 <= o < out_features,
    ensures
        (reading.numbers.of(layer.alpha) / layer.rank as real) * reading.at(steps.high, i, o)
            == reals::sum_to(
            in_features as nat,
            |k: int| reading.at(x, i, k) * layer.added_weight(reading, o, k),
        ),
{
    let rank = layer.rank as int;
    let s = reading.numbers.of(layer.alpha) / layer.rank as real;
    assert(reading.is_matrix(steps.turned_a, in_features, rank));
    assert(reading.is_matrix(steps.turned_b, rank, out_features));
    assert(reading.is_matrix(steps.low, rows, rank));
    assert(reading.at(steps.high, i, o) == reading.dot(steps.low, i, steps.turned_b, o, rank));
    let f = |k: int, r: int|
        reading.at(x, i, k) * (reading.at(layer.lora_b, o, r) * reading.at(layer.lora_a, r, k));
    let by_rank = |r: int| reading.at(steps.low, i, r) * reading.at(steps.turned_b, r, o);
    let by_input = |k: int|
        reading.at(x, i, k) * reals::sum_to(
            rank as nat,
            |r: int| reading.at(layer.lora_b, o, r) * reading.at(layer.lora_a, r, k),
        );
    assert forall|k: int| 0 <= k < in_features implies #[trigger] by_input(k) == reals::sum_to(
        rank as nat,
        |r: int| f(k, r),
    ) by {
        reals::lemma_sum_of_multiples(
            rank as nat,
            reading.at(x, i, k),
            |r: int| reading.at(layer.lora_b, o, r) * reading.at(layer.lora_a, r, k),
            |r: int| f(k, r),
        );
    }
    assert forall|r: int| 0 <= r < rank implies #[trigger] by_rank(r) == reals::sum_to(
        in_features as nat,
        |k: int| f(k, r),
    ) by {
        let b = reading.at(layer.lora_b, o, r);
        assert(reading.at(steps.turned_b, r, o) == b);
        assert(reading.at(steps.low, i, r) == reading.dot(x, i, steps.turned_a, r, in_features));
        let seen = |k: int| reading.at(x, i, k) * reading.at(steps.turned_a, k, r);
        let all = |k: int| f(k, r);
        assert forall|k: int| 0 <= k < in_features implies #[trigger] all(k) == b * seen(k) by {
            assert(reading.at(steps.turned_a, k, r) == reading.at(layer.lora_a, r, k));
            let (u, w) = (reading.at(x, i, k), reading.at(layer.lora_a, r, k));
            assert(u * (b * w) == b * (u * w)) by (nonlinear_arith);
        }
        reals::lemma_sum_of_multiples(in_features as nat, b, seen, all);
        let low = reading.at(steps.low, i, r);
        assert(low * b == b * low) by (nonlinear_arith);
    }
    reals::lemma_double_sum(in_features as nat, rank as nat, f, by_input, by_rank);
    let scaled = |k: int| reading.at(x, i, k) * layer.added_weight(reading, o, k);
    assert forall|k: int| 0 <= k < in_features implies #[trigger] scaled(k) == s * by_input(k) by {
        let u = reading.at(x, i, k);
        let w = reals::sum_to(
            rank as nat,
            |r: int| reading.at(layer.lora_b, o, r) * reading.at(layer.lora_a, r, k),
        );
        assert(u * (s * w) == s * (u * w)) by (nonlinear_arith);
    }
    reals::lemma_sum_of_multiples(in_features as nat, s, by_input, scaled);
}

/// Merging keeps the output. A layer with an adapter can be merged, and over real numbers it gives
/// for every input what its base gives once the merged weights are put into it.
pub proof fn law_merging_keeps_the_output<V: Operand>(
    reading: ArrayReading<V>,
    layer: LoRALinear<V>,
    folded: Option<Vec<V::Num>>,
    weight: V,
    x: V,
    y: V,
    z: V,
    rows: int,
    in_features: int,
    out_features: int,
)
    requires
        reading.is_faithful(),
        layer.is_real(reading, in_features, out_features),
        out_features * in_features <= usize::MAX,
        layer.is_merged(folded),
        folded matches Some(list) ==> V::with_elements.ensures((&layer.base.weight, list), weight),
        reading.is_matrix(x, rows, in_features),
        layer.gives(x, y),
        folded is Some ==> (Linear { weight, bias: layer.base.bias }).gives(x, z),
    ensures
        folded is Some,
        reading.is_matrix(y, rows, out_features),
        reading.is_matrix(z, rows, out_features),
        forall|i: int, o: int|
            0 <= i < rows && 0 <= o < out_features ==> #[trigger] reading.at(y, i, o)
                == reading.at(z, i, o),
{
    let merged = Linear { weight, bias: layer.base.bias };
    lemma_merged_weights(reading, layer, folded, weight, in_features, out_features);
    law_adapters_add_to_the_weights(reading, layer, x, y, rows, in_features, out_features);
    law_linear_layers_weigh_their_input(reading, merged, x, z, rows, in_features, out_features);
    assert forall|i: int, o: int| 0 <= i < rows && 0 <= o < out_features implies #[trigger] reading.at(
        y,
        i,
        o,
    ) == reading.at(z, i, o) by {
        assert(reading.at(z, i, o) == merged.output(reading, x, in_features, i, o));
        let apart = |k: int|
            reading.at(x, i, k) * (reading.at(layer.base.weight, o, k) + layer.added_weight(
                reading,
                o,
                k,
            ));
        let together = |k: int| reading.at(x, i, k) * reading.at(weight, o, k);
        assert forall|k: int| 0 <= k < in_features implies #[trigger] apart(k) == together(k) by {
            assert(reading.at(weight, o, k) == reading.at(layer.base.weight, o, k)
                + layer.added_weight(reading, o, k));
        }
        reals::lemma_same_sum(in_features as nat, apart, together);
    }
}

/// The merged weights are those of the base with the adapter added.
proof fn lemma_merged_weights<V: Operand>(
    reading: ArrayReading<V>,
    layer: LoRALinear<V>,
    folded: Option<Vec<V::Num>>,
    weight: V,
    in_features: int,
    out_features: int,
)
    requires
        reading.is_faithful(),
        layer.is_real(reading, in_features, out_features),
        out_features * in_features <= usize::MAX,
        layer.is_merged(folded),
        folded matches Some(list) ==> V::with_elements.ensures((&layer.base.weight, list), weight),
    ensures
        folded is Some,
        reading.is_matrix(weight, out_features, in_features),
        forall|o: int, k: int|
            0 <= o < out_features && 0 <= k < in_features ==> #[trigger] reading.at(weight, o, k)
                == reading.at(layer.base.weight, o, k) + layer.added_weight(reading, o, k),
{
    let parts = choose|parts: FoldParts<V>|
        {
            &&& #[trigger] layer.are_fold_parts(parts)
            &&& folded is Some <==> layer.fits(parts)
            &&& folded matches Some(w) ==> w@ == layer.folded(parts)
        };
    let numbers = reading.numbers;
    let rank = layer.rank as int;
    let shape = layer.lora_shape(parts);
    assert(parts.out_features == out_features && parts.in_features == in_features);
    assert(shape.fits(parts.weight@.len(), parts.lora_a@.len(), parts.lora_b@.len()));
    let list = folded->0@;
    numbers.lemma_part(layer.alpha, layer.rank as nat, parts.scaling);
    assert(list.len() == out_features * in_features) by {
        assert(shape.merged(parts.weight@, parts.lora_a@, parts.lora_b@, parts.scaling).len()
            == out_features * in_features);
    }
    assert forall|q: int| 0 <= q < list.len() implies {
        let (o, k) = (q / in_features, q % in_features);
        numbers.reads(
            #[trigger] list[q],
            reading.at(layer.base.weight, o, k) + layer.added_weight(reading, o, k),
        )
    } by {
        let (o, k) = (q / in_features, q % in_features);
        ops::lemma_join_position(q, out_features, in_features);
        lemma_added_element(reading, layer, parts, in_features, out_features, o, k);
        assert(numbers.reads(parts.weight@[q], (reading.cells)(layer.base.weight)[q]));
    }
    assert forall|q: int| 0 <= q < list.len() implies (numbers.finite)(#[trigger] list[q]) by {}
    assert(reading.is_matrix(weight, out_features, in_features));
    assert forall|o: int, k: int|
        0 <= o < out_features && 0 <= k < in_features implies #[trigger] reading.at(weight, o, k)
        == reading.at(layer.base.weight, o, k) + layer.added_weight(reading, o, k) by {
        ops::lemma_split_position(o, k, out_features, in_features);
        let q = o * in_features + k;
        assert(numbers.reads(list[q], (reading.cells)(weight)[q]));
    }
}

/// What is added to one weight.
proof fn lemma_added_element<V: Operand>(
    reading: ArrayReading<V>,
    layer: LoRALinear<V>,
    parts: FoldParts<V>,
    in_features: int,
    out_features: int,
    o: int,
    k: int,
)
    requires
        reading.is_faithful(),
        layer.is_real(reading, in_features, out_features),
        layer.are_fold_parts(parts),
        0 <= o < out_features,
        0 <= k < in_features,
    ensures
        ({
            let product = linalg::matrix_product(
                parts.lora_b@,
                parts.lora_a@,
                parts.out_features,
                layer.rank,
                parts.in_features,
            );
            reading.numbers.reads(
                arith::scaled(product, parts.scaling)[o * in_features + k],
                layer.added_weight(reading, o, k),
            )
        }),
{
    let numbers = reading.numbers;
    let rank = layer.rank as int;
    assert(parts.out_features == out_features && parts.in_features == in_features);
    numbers.lemma_part(layer.alpha, layer.rank as nat, parts.scaling);
    ops::lemma_split_position(o, k, out_features, in_features);
    let (rows, cols) = (linalg::rows_of(layer.rank), linalg::columns_of(parts.in_features));
    assert forall|p: int| 0 <= p < rank implies (numbers.finite)(
        parts.lora_b@[#[trigger] rows.at(o, p)],
    ) by {
        ops::lemma_split_position(o, p, out_features, rank);
        assert(numbers.reads(
            parts.lora_b@[rows.at(o, p)],
            (reading.cells)(layer.lora_b)[rows.at(o, p)],
        ));
    }
    assert forall|p: int| 0 <= p < rank implies (numbers.finite)(
        parts.lora_a@[#[trigger] cols.at(k, p)],
    ) by {
        ops::lemma_split_position(p, k, rank, in_features);
        assert(cols.at(k, p) == p * in_features + k);
        assert(numbers.reads(
            parts.lora_a@[cols.at(k, p)],
            (reading.cells)(layer.lora_a)[cols.at(k, p)],
        ));
    }
    numbers.lemma_dot(parts.lora_b@, rows, o, parts.lora_a@, cols, k, rank as nat);
    let found = |p: int|
        numbers.at(parts.lora_b@, rows.at(o, p)) * numbers.at(parts.lora_a@, cols.at(k, p));
    let wanted = |p: int| reading.at(layer.lora_b, o, p) * reading.at(layer.lora_a, p, k);
    assert forall|p: int| 0 <= p < rank implies #[trigger] found(p) == wanted(p) by {
        ops::lemma_split_position(o, p, out_features, rank);
        ops::lemma_split_position(p, k, rank, in_features);
        assert(rows.at(o, p) == o * rank + p);
        assert(cols.at(k, p) == p * in_features + k);
        assert(numbers.reads(
            parts.lora_b@[o * rank + p],
            (reading.cells)(layer.lora_b)[o * rank + p],
        ));
        assert(numbers.reads(
            parts.lora_a@[p * in_features + k],
            (reading.cells)(layer.lora_a)[p * in_features + k],
        ));
    }
    reals::lemma_same_sum(rank as nat, found, wanted);
    let s = numbers.of(parts.scaling);
    let sum = reals::sum_to(rank as nat, wanted);
    assert(sum * s == s * sum) by (nonlinear_arith);
}

/// A new normalisation around the mean stretches by one, moves by nothing, and adds a hundred
/// thousandth to the spread.
pub proof fn law_new_layer_norms_are_plain<V: Operand>(
    reading: ArrayReading<V>,
    layer: LayerNorm<V>,
    n: usize,
)
    requires
        reading.is_faithful(),
        layer.is_new(n),
    ensures
        layer.normalized_shape == n,
        reading.is_list(layer.gamma, n as int),
        reading.is_list(layer.beta, n as int),
        forall|j: int| 0 <= j < n ==> #[trigger] (reading.cells)(layer.gamma)[j] == 1real,
        forall|j: int| 0 <= j < n ==> #[trigger] (reading.cells)(layer.beta)[j] == 0real,
        reading.numbers.reads(layer.eps, 1real / 100_000real),
{
    let one = choose|one: V::Num|
        {
            &&& #[trigger] number::is_one(one)
            &&& V::filled.ensures((n, one), layer.gamma)
        };
    assert(reading.numbers.reads(one, 1real));
    reveal_with_fuel(reals::pow, 6);
    assert(reals::pow(10real, 5) == 100_000real);
}

/// A new normalisation around zero stretches by one, and adds a millionth to the spread.
pub proof fn law_new_rms_norms_are_plain<V: Operand>(
    reading: ArrayReading<V>,
    layer: RmsNorm<V>,
    n: usize,
)
    requires
        reading.is_faithful(),
        layer.is_new(n),
    ensures
        layer.normalized_shape == n,
        reading.is_list(layer.weight, n as int),
        forall|j: int| 0 <= j < n ==> #[trigger] (reading.cells)(layer.weight)[j] == 1real,
        reading.numbers.reads(layer.eps, 1real / 1_000_000real),
{
    let one = choose|one: V::Num|
        {
            &&& #[trigger] number::is_one(one)
            &&& V::filled.ensures((n, one), layer.weight)
        };
    assert(reading.numbers.reads(one, 1real));
    reading.numbers.lemma_millionths(1, layer.eps);
}

/// The factors by which elements are thinned out, over real numbers: nothing for those whose
/// chance is below the rate, and for the others what makes up for that share of the whole.
pub proof fn law_what_is_left_makes_up_for_what_is_dropped<T: Number>(
    reading: Reading<T>,
    rate: T,
    chances: Seq<T>,
    mask: Seq<T>,
)
    requires
        reading.is_faithful(),
        (reading.finite)(rate),
        reading.of(rate) < 1real,
        reading.all_finite(chances),
        is_dropout_mask(rate, chances, mask),
    ensures
        mask.len() == chances.len(),
        reading.all_finite(mask),
        forall|i: int|
            0 <= i < mask.len() ==> if reading.at(chances, i) < reading.of(rate) {
                #[trigger] reading.at(mask, i) == 0real
            } else {
                reading.at(mask, i) * (1real - reading.of(rate)) == 1real
            },
{
    let makeup = choose|makeup: T|
        {
            &&& #[trigger] is_makeup(rate, makeup)
            &&& mask.len() == chances.len()
            &&& forall|i: int|
                0 <= i < mask.len() ==> is_dropped(rate, makeup, chances[i], #[trigger] mask[i])
        };
    let one = choose|one: T|
        {
            &&& #[trigger] T::one.ensures((), one)
            &&& T::over.ensures((one, one.difference(rate)), makeup)
        };
    assert(reading.reads(one, 1real));
    let left = 1real - reading.of(rate);
    reals::lemma_quotient(1real, left);
    assert(reading.reads(makeup, 1real / left));
    assert forall|i: int| 0 <= i < mask.len() implies {
        &&& (reading.finite)(#[trigger] mask[i])
        &&& if reading.at(chances, i) < reading.of(rate) {
            reading.at(mask, i) == 0real
        } else {
            reading.at(mask, i) * left == 1real
        }
    } by {
        assert((reading.finite)(chances[i]));
        let drops = choose|drops: bool|
            {
                &&& #[trigger] T::is_below.ensures((chances[i], rate), drops)
                &&& mask[i] == if drops {
                    T::nought()
                } else {
                    makeup
                }
            };
    }
}

/// Training leaves every element either out or grown by what makes up for the others; without
/// training, and where nothing is ever dropped, all stay as they are.
pub proof fn law_dropping_thins_out<V: Operand>(
    reading: ArrayReading<V>,
    dropout: Dropout<V::Num>,
    x: V,
    y: V,
)
    requires
        reading.is_faithful(),
        reading.is_plain(x),
        (reading.numbers.finite)(dropout.rate),
        reading.numbers.of(dropout.rate) < 1real,
        dropout.gives(x, y),
    ensures
        (reading.dims)(y) == (reading.dims)(x),
        (reading.cells)(y).len() == (reading.cells)(x).len(),
        !dropout.training || reading.numbers.of(dropout.rate) == 0real ==> (reading.cells)(y)
            == (reading.cells)(x),
        dropout.training && reading.numbers.of(dropout.rate) != 0real ==> forall|p: int|
            0 <= p < (reading.cells)(x).len() ==> {
                ||| #[trigger] (reading.cells)(y)[p] == 0real
                ||| (reading.cells)(y)[p] * (1real - reading.numbers.of(dropout.rate))
                    == (reading.cells)(x)[p]
            },
{
    let rate = reading.numbers.of(dropout.rate);
    if dropout.training {
        let never = choose|never: bool|
            {
                &&& #[trigger] V::Num::is_zero.ensures((dropout.rate,), never)
                &&& if never {
                    V::handle.ensures((&x,), y)
                } else {
                    is_thinned(dropout.rate, x, y)
                }
            };
        assert(never == (rate == 0real));
        if !never {
            let (chances, elements, mask) = choose|
                chances: Vec<V::Num>,
                elements: Vec<V::Num>,
                mask: V,
            |
                {
                    &&& #[trigger] V::chances.ensures((&x,), chances)
                    &&& is_dropout_mask(dropout.rate, chances@, elements@)
                    &&& #[trigger] V::with_elements.ensures((&x, elements), mask)
                    &&& V::multiplied.ensures((&x, &mask), y)
                };
            law_what_is_left_makes_up_for_what_is_dropped(
                reading.numbers,
                dropout.rate,
                chances@,
                elements@,
            );
            assert forall|p: int| 0 <= p < (reading.cells)(x).len() implies {
                ||| #[trigger] (reading.cells)(y)[p] == 0real
                ||| (reading.cells)(y)[p] * (1real - rate) == (reading.cells)(x)[p]
            } by {
                let (a, f) = ((reading.cells)(x)[p], reading.numbers.at(elements@, p));
                assert(reading.numbers.reads(elements@[p], (reading.cells)(mask)[p]));
                assert((reading.cells)(y)[p] == a * f);
                let left = 1real - rate;
                assert((a * f) * left == a * (f * left)) by (nonlinear_arith);
                assert(a * 0real == 0real) by (nonlinear_arith);
                assert(a * 1real == a);
            }
        }
    }
}

/// An embedding looks rows up: each row of the output is the row of weights with its number.
pub proof fn law_embeddings_look_rows_up<V: Operand>(
    reading: ArrayReading<V>,
    layer: Embedding<V>,
    numbers: Seq<usize>,
    y: V,
    rows: int,
    cols: int,
)
    requires
        reading.is_faithful(),
        reading.is_matrix(layer.weight, rows, cols),
        forall|i: int| 0 <= i < numbers.len() ==> (#[trigger] numbers[i]) < rows,
        layer.gives(numbers, y),
    ensures
        reading.is_matrix(y, numbers.len() as int, cols),
        forall|i: int, j: int|
            0 <= i < numbers.len() && 0 <= j < cols ==> #[trigger] reading.at(y, i, j)
                == reading.at(layer.weight, numbers[i] as int, j),
{
    let indices = choose|indices: &[usize]|
        {
            &&& indices@ == numbers
            &&& #[trigger] V::embedding_lookup.ensures((&layer.weight, indices), y)
        };
    assert(forall|i: int| 0 <= i < indices@.len() ==> (#[trigger] indices@[i]) < rows);
}

/// An adapter that was just put on a layer adds nothing to its weights, which stay as they are.
pub proof fn law_new_adapters_add_nothing<V: Operand>(
    reading: ArrayReading<V>,
    base: Linear<V>,
    rank: usize,
    alpha: V::Num,
    layer: LoRALinear<V>,
    in_features: int,
    out_features: int,
)
    requires
        reading.is_faithful(),
        base.is_real(reading, in_features, out_features),
        layer.is_put_on(base, rank, alpha),
    ensures
        layer.alpha == alpha,
        layer.rank == rank,
        layer.base.is_real(reading, in_features, out_features),
        forall|o: int, k: int|
            0 <= o < out_features && 0 <= k < in_features ==> #[trigger] reading.at(
                layer.base.weight,
                o,
                k,
            ) == reading.at(base.weight, o, k) && layer.added_weight(reading, o, k) == 0real,
        forall|o: int| #[trigger]
            layer.base.offset(reading, o) == base.offset(reading, o),
{
    let (ins, outs) = choose|ins: usize, outs: usize|
        {
            &&& #[trigger] V::cols.ensures((&base.weight,), ins)
            &&& #[trigger] V::rows.ensures((&base.weight,), outs)
            &&& V::kaiming_normal.ensures((rank, ins), layer.lora_a)
            &&& V::filled_matrix.ensures((outs, rank, V::Num::nought()), layer.lora_b)
        };
    assert(ins == in_features && outs == out_features);
    assert(reading.is_same(base.weight, layer.base.weight));
    if let Some(bias) = layer.base.bias {
        assert(reading.is_same(base.bias->0, bias));
    }
    assert forall|o: int, k: int| 0 <= o < out_features && 0 <= k < in_features implies
        #[trigger] reading.at(layer.base.weight, o, k) == reading.at(base.weight, o, k)
        && layer.added_weight(reading, o, k) == 0real by {
        let parts = |r: int| reading.at(layer.lora_b, o, r) * reading.at(layer.lora_a, r, k);
        assert forall|r: int| 0 <= r < rank implies #[trigger] parts(r) == 0real by {
            assert(reading.at(layer.lora_b, o, r) == 0real);
            let a = reading.at(layer.lora_a, r, k);
            assert(0real * a == 0real) by (nonlinear_arith);
        }
        reals::lemma_sum_of_zeros(rank as nat, parts);
        let s = reading.numbers.of(layer.alpha) / layer.rank as real;
        assert(s * 0real == 0real) by (nonlinear_arith);
    }
}

} // verus!
