//! The blocks that models are stacked of: attention, and a layer that looks at one position at a
//! time, each adding to its input.

use super::arrays::ArrayReading;
use super::attention::MultiHeadAttention;
use super::layers;
use super::layers::{Dropout, LayerNorm, Linear, Module, RmsNorm};
use super::operand;
use super::operand::{join_handles, Operand};
use super::params;
use super::params::{join_listings, part_name, NamedParameter};
use crate::tensor::number;
use crate::tensor::number::{count, decimal, Number};
use crate::tensor::reals;
use vstd::prelude::*;

verus! {

/// How the output of a block comes about: what attention finds, what is kept of it, its sum with
/// the input, what the second half makes of that, and what is kept of it.
pub struct BlockSteps<V> {
    pub attended: V,
    pub attended_kept: V,
    pub middle: V,
    pub fed: V,
    pub fed_kept: V,
}

/// Whether `kept` is what is kept of `x`.
pub open spec fn is_kept<V: Operand>(dropout: Dropout<V::Num>, drops: bool, x: V, kept: V) -> bool {
    if drops {
        dropout.gives(x, kept)
    } else {
        V::handle.ensures((&x,), kept)
    }
}

/// Whether a layer drops a tenth of the elements, and training is on.
pub open spec fn drops_a_tenth<T: Number>(dropout: Dropout<T>) -> bool {
    dropout.training && number::is_decimal(1, 1, dropout.rate)
}

/// A block that normalises around the mean and bends with the Gaussian error linear unit.
pub struct TransformerBlock<V: Operand> {
    pub ln1: LayerNorm<V>,
    pub attn: MultiHeadAttention<V>,
    pub ln2: LayerNorm<V>,
    pub ffn_up: Linear<V>,
    pub ffn_down: Linear<V>,
    pub attn_dropout: Dropout<V::Num>,
    pub ffn_dropout: Dropout<V::Num>,
}

/// How the second half of a [`TransformerBlock`] comes about.
pub struct TransformerFeed<V> {
    pub normed: V,
    pub up: V,
    pub bent: V,
}

impl<V: Operand> TransformerBlock<V> {
    /// Whether `steps` lead from `x` to what `fed` is.
    pub open spec fn are_feed_steps(self, x: V, steps: TransformerFeed<V>, fed: V) -> bool {
        &&& self.ln2.gives(x, steps.normed)
        &&& self.ffn_up.gives(steps.normed, steps.up)
        &&& V::gelu.ensures((&steps.up,), steps.bent)
        &&& self.ffn_down.gives(steps.bent, fed)
    }

    /// Whether `fed` is what the second half makes of `x`.
    pub open spec fn feeds(self, x: V, fed: V) -> bool {
        exists|steps: TransformerFeed<V>| #[trigger] self.are_feed_steps(x, steps, fed)
    }

    /// Whether `attended` is what the first half makes of the `seq_len` positions of `x`.
    pub open spec fn attends(self, x: V, seq_len: usize, attended: V) -> bool {
        exists|normed: V|
            {
                &&& #[trigger] self.ln1.gives(x, normed)
                &&& self.attn.gives(normed, seq_len, None, attended)
            }
    }

    /// Whether `y` is the output for the `seq_len` positions of `x`, with or without what
    /// training drops.
    pub open spec fn gives(self, x: V, seq_len: usize, drops: bool, y: V) -> bool {
        exists|steps: BlockSteps<V>|
            {
                &&& #[trigger] self.are_steps(x, seq_len, drops, steps)
                &&& V::added.ensures((&steps.middle, &steps.fed_kept), y)
            }
    }

    /// Whether `steps` lead from `x` to the output.
    pub open spec fn are_steps(
        self,
        x: V,
        seq_len: usize,
        drops: bool,
        steps: BlockSteps<V>,
    ) -> bool {
        &&& self.attends(x, seq_len, steps.attended)
        &&& is_kept(self.attn_dropout, drops, steps.attended, steps.attended_kept)
        &&& V::added.ensures((&x, &steps.attended_kept), steps.middle)
        &&& self.feeds(steps.middle, steps.fed)
        &&& is_kept(self.ffn_dropout, drops, steps.fed, steps.fed_kept)
    }

    /// The weights.
    pub open spec fn weights(self) -> Seq<V> {
        self.ln1.weights()
            + self.attn.weights()
            + self.ln2.weights()
            + self.ffn_up.weights()
            + self.ffn_down.weights()
    }

    /// The names of the weights.
    pub open spec fn names(self, prefix: Seq<char>) -> Seq<Seq<char>> {
        self.ln1.names(params::part(prefix, "ln1"@))
            + self.attn.names(params::part(prefix, "attn"@))
            + self.ln2.names(params::part(prefix, "ln2"@))
            + self.ffn_up.names(params::part(prefix, "ffn_up"@))
            + self.ffn_down.names(params::part(prefix, "ffn_down"@))
    }

    /// Whether this is a block as it is made.
    pub open spec fn is_new(self, d_model: usize, n_head: usize, d_ff: usize) -> bool {
        &&& self.ln1.is_new(d_model)
        &&& self.attn.is_new(d_model, n_head)
        &&& self.ln2.is_new(d_model)
        &&& self.ffn_up.is_new(d_model, d_ff, true)
        &&& self.ffn_down.is_new(d_ff, d_model, true)
        &&& drops_a_tenth(self.attn_dropout)
        &&& drops_a_tenth(self.ffn_dropout)
    }

    /// A block with weights by chance; training drops a tenth of what each half adds.
    pub fn new(d_model: usize, n_head: usize, d_ff: usize) -> (block: Self)
        requires
            n_head > 0,
            d_model % n_head == 0,
        ensures
            block.is_new(d_model, n_head, d_ff),
    {
        TransformerBlock {
            ln1: LayerNorm::new(d_model),
            attn: MultiHeadAttention::new(d_model, n_head),
            ln2: LayerNorm::new(d_model),
            ffn_up: Linear::new(d_model, d_ff, true),
            ffn_down: Linear::new(d_ff, d_model, true),
            attn_dropout: Dropout::new(decimal(1, 1)),
            ffn_dropout: Dropout::new(decimal(1, 1)),
        }
    }

    /// What the first half makes of `seq_len` positions.
    fn attend(&self, input: &V, seq_len: usize) -> (attended: V)
        requires
            self.attn.sizes(seq_len).valid(),
        ensures
            self.attends(*input, seq_len, attended),
    {
        let normed: V = self.ln1.forward(input);
        assert(self.ln1.gives(*input, normed));
        self.attn.attend(&normed, seq_len, None)
    }

    /// What the second half makes of its input.
    fn feed(&self, x: &V) -> (fed: V)
        ensures
            self.feeds(*x, fed),
    {
        let normed: V = self.ln2.forward(x);
        let up: V = self.ffn_up.forward(&normed);
        let bent: V = up.gelu();
        let fed: V = self.ffn_down.forward(&bent);
        proof {
            let steps = TransformerFeed { normed, up, bent };
            assert(self.are_feed_steps(*x, steps, fed));
        }
        fed
    }

    /// The output for `seq_len` positions, with or without what training drops.
    pub fn forward_positions(&self, input: &V, seq_len: usize, drops: bool) -> (out: V)
        requires
            self.attn.sizes(seq_len).valid(),
        ensures
            self.gives(*input, seq_len, drops, out),
    {
        let attended: V = self.attend(input, seq_len);
        let attended_kept: V = if drops {
            self.attn_dropout.forward(&attended)
        } else {
            attended.handle()
        };
        let middle: V = input.added(&attended_kept);
        let fed: V = self.feed(&middle);
        let fed_kept: V = if drops {
            self.ffn_dropout.forward(&fed)
        } else {
            fed.handle()
        };
        let out: V = middle.added(&fed_kept);
        proof {
            let steps = BlockSteps { attended, attended_kept, middle, fed, fed_kept };
            assert(self.are_steps(*input, seq_len, drops, steps));
        }
        out
    }

    /// The output for all positions, without what training drops if it is on.
    pub fn forward_seq(&self, input: &V) -> (out: V)
        requires
            self.attn.can_attend(*input),
        ensures
            exists|n: usize| #[trigger]
                V::rows.ensures((input,), n) && self.gives(*input, n, true, out),
    {
        let n: usize = input.rows();
        assert(V::rows.ensures((input,), n));
        self.forward_positions(input, n, true)
    }

    /// The output for all positions, with nothing dropped, whether training is on or not.
    pub fn forward_seq_inference(&self, input: &V) -> (out: V)
        requires
            self.attn.can_attend(*input),
        ensures
            exists|n: usize| #[trigger]
                V::rows.ensures((input,), n) && self.gives(*input, n, false, out),
    {
        let n: usize = input.rows();
        assert(V::rows.ensures((input,), n));
        self.forward_positions(input, n, false)
    }

    /// Turns training on or off.
    pub fn set_training(&mut self, training: bool)
        ensures
            *final(self) == old(self).with_training(training),
    {
        if training {
            self.attn_dropout.train();
            self.ffn_dropout.train();
        } else {
            self.attn_dropout.eval();
            self.ffn_dropout.eval();
        }
    }

    /// The block with training turned on or off.
    pub open spec fn with_training(self, training: bool) -> Self {
        TransformerBlock {
            attn_dropout: Dropout { training, ..self.attn_dropout },
            ffn_dropout: Dropout { training, ..self.ffn_dropout },
            ..self
        }
    }

    /// The weights.
    pub fn parameters(&self) -> (list: Vec<V>)
        ensures
            operand::are_handles(self.weights(), list@),
    {
        let list = self.ln1.parameters();
        let list = join_handles(list, self.attn.parameters());
        let list = join_handles(list, self.ln2.parameters());
        let list = join_handles(list, self.ffn_up.parameters());
        join_handles(list, self.ffn_down.parameters())
    }

    /// The weights under their names.
    pub fn named_parameters(&self, prefix: &str) -> (list: Vec<NamedParameter<V>>)
        ensures
            params::is_listing(list@, self.names(prefix@), self.weights()),
    {
        let list = self.ln1.named_parameters(part_name(prefix, "ln1").as_str());
        let list = join_listings(
            list,
            self.attn.named_parameters(part_name(prefix, "attn").as_str()),
        );
        let list = join_listings(
            list,
            self.ln2.named_parameters(part_name(prefix, "ln2").as_str()),
        );
        let list = join_listings(
            list,
            self.ffn_up.named_parameters(part_name(prefix, "ffn_up").as_str()),
        );
        join_listings(list, self.ffn_down.named_parameters(part_name(prefix, "ffn_down").as_str()))
    }
}

/// A block that normalises around zero, tells positions by turns and bends with a gated unit.
pub struct QwenLikeBlock<V: Operand> {
    pub norm1: RmsNorm<V>,
    pub attn: MultiHeadAttention<V>,
    pub norm2: RmsNorm<V>,
    pub ffn_up: Linear<V>,
    pub ffn_gate: Linear<V>,
    pub ffn_down: Linear<V>,
    pub attn_dropout: Dropout<V::Num>,
    pub ffn_dropout: Dropout<V::Num>,
    /// The base of the turns that tell positions.
    pub rope_base: V::Num,
}

/// How the second half of a [`QwenLikeBlock`] comes about.
pub struct QwenLikeFeed<V> {
    pub normed: V,
    pub up: V,
    pub gate: V,
    pub bent: V,
}

impl<V: Operand> QwenLikeBlock<V> {
    /// Whether `steps` lead from `x` to what `fed` is.
    pub open spec fn are_feed_steps(self, x: V, steps: QwenLikeFeed<V>, fed: V) -> bool {
        &&& self.norm2.gives(x, steps.normed)
        &&& self.ffn_up.gives(steps.normed, steps.up)
        &&& self.ffn_gate.gives(steps.normed, steps.gate)
        &&& V::swiglu.ensures((&steps.up, &steps.gate), steps.bent)
        &&& self.ffn_down.gives(steps.bent, fed)
    }

    /// Whether `fed` is what the second half makes of `x`.
    pub open spec fn feeds(self, x: V, fed: V) -> bool {
        exists|steps: QwenLikeFeed<V>| #[trigger] self.are_feed_steps(x, steps, fed)
    }

    /// Whether `attended` is what the first half makes of the `seq_len` positions of `x`.
    pub open spec fn attends(self, x: V, seq_len: usize, attended: V) -> bool {
        exists|normed: V|
            {
                &&& #[trigger] self.norm1.gives(x, normed)
                &&& self.attn.gives(normed, seq_len, Some(self.rope_base), attended)
            }
    }

    /// Whether `y` is the output for the `seq_len` positions of `x`, with or without what
    /// training drops.
    pub open spec fn gives(self, x: V, seq_len: usize, drops: bool, y: V) -> bool {
        exists|steps: BlockSteps<V>|
            {
                &&& #[trigger] self.are_steps(x, seq_len, drops, steps)
                &&& V::added.ensures((&steps.middle, &steps.fed_kept), y)
            }
    }

    /// Whether `steps` lead from `x` to the output.
    pub open spec fn are_steps(
        self,
        x: V,
        seq_len: usize,
        drops: bool,
        steps: BlockSteps<V>,
    ) -> bool {
        &&& self.attends(x, seq_len, steps.attended)
        &&& is_kept(self.attn_dropout, drops, steps.attended, steps.attended_kept)
        &&& V::added.ensures((&x, &steps.attended_kept), steps.middle)
        &&& self.feeds(steps.middle, steps.fed)
        &&& is_kept(self.ffn_dropout, drops, steps.fed, steps.fed_kept)
    }

    /// The weights.
    pub open spec fn weights(self) -> Seq<V> {
        self.norm1.weights()
            + self.attn.weights()
            + self.norm2.weights()
            + self.ffn_up.weights()
            + self.ffn_gate.weights()
            + self.ffn_down.weights()
    }

    /// The names of the weights.
    pub open spec fn names(self, prefix: Seq<char>) -> Seq<Seq<char>> {
        self.norm1.names(params::part(prefix, "norm1"@))
            + self.attn.names(params::part(prefix, "attn"@))
            + self.norm2.names(params::part(prefix, "norm2"@))
            + self.ffn_up.names(params::part(prefix, "ffn_up"@))
            + self.ffn_gate.names(params::part(prefix, "ffn_gate"@))
            + self.ffn_down.names(params::part(prefix, "ffn_down"@))
    }

    /// Whether this is a block as it is made.
    pub open spec fn is_new(self, d_model: usize, n_head: usize, d_ff: usize) -> bool {
        &&& self.norm1.is_new(d_model)
        &&& self.attn.is_new(d_model, n_head)
        &&& self.norm2.is_new(d_model)
        &&& self.ffn_up.is_new(d_model, d_ff, true)
        &&& self.ffn_gate.is_new(d_model, d_ff, true)
        &&& self.ffn_down.is_new(d_ff, d_model, true)
        &&& drops_a_tenth(self.attn_dropout)
        &&& drops_a_tenth(self.ffn_dropout)
        &&& number::is_count(10000, self.rope_base)
    }

    /// A block with weights by chance; training drops a tenth of what each half adds.
    pub fn new(d_model: usize, n_head: usize, d_ff: usize) -> (block: Self)
        requires
            n_head > 0,
            d_model % n_head == 0,
        ensures
            block.is_new(d_model, n_head, d_ff),
    {
        QwenLikeBlock {
            norm1: RmsNorm::new(d_model),
            attn: MultiHeadAttention::new(d_model, n_head),
            norm2: RmsNorm::new(d_model),
            ffn_up: Linear::new(d_model, d_ff, true),
            ffn_gate: Linear::new(d_model, d_ff, true),
            ffn_down: Linear::new(d_ff, d_model, true),
            attn_dropout: Dropout::new(decimal(1, 1)),
            ffn_dropout: Dropout::new(decimal(1, 1)),
            rope_base: count(10000),
        }
    }

    /// What the first half makes of `seq_len` positions.
    fn attend(&self, input: &V, seq_len: usize) -> (attended: V)
        requires
            self.attn.sizes(seq_len).valid(),
        ensures
            self.attends(*input, seq_len, attended),
    {
        let normed: V = self.norm1.forward(input);
        assert(self.norm1.gives(*input, normed));
        self.attn.attend(&normed, seq_len, Some(self.rope_base))
    }

    /// What the second half makes of its input.
    fn feed(&self, x: &V) -> (fed: V)
        ensures
            self.feeds(*x, fed),
    {
        let normed: V = self.norm2.forward(x);
        let up: V = self.ffn_up.forward(&normed);
        let gate: V = self.ffn_gate.forward(&normed);
        let bent: V = up.swiglu(&gate);
        let fed: V = self.ffn_down.forward(&bent);
        proof {
            let steps = QwenLikeFeed { normed, up, gate, bent };
            assert(self.are_feed_steps(*x, steps, fed));
        }
        fed
    }

    /// The output for `seq_len` positions, with or without what training drops.
    pub fn forward_positions(&self, input: &V, seq_len: usize, drops: bool) -> (out: V)
        requires
            self.attn.sizes(seq_len).valid(),
        ensures
            self.gives(*input, seq_len, drops, out),
    {
        let attended: V = self.attend(input, seq_len);
        let attended_kept: V = if drops {
            self.attn_dropout.forward(&attended)
        } else {
            attended.handle()
        };
        let middle: V = input.added(&attended_kept);
        let fed: V = self.feed(&middle);
        let fed_kept: V = if drops {
            self.ffn_dropout.forward(&fed)
        } else {
            fed.handle()
        };
        let out: V = middle.added(&fed_kept);
        proof {
            let steps = BlockSteps { attended, attended_kept, middle, fed, fed_kept };
            assert(self.are_steps(*input, seq_len, drops, steps));
        }
        out
    }

    /// The output for all positions, without what training drops if it is on.
    pub fn forward_seq(&self, input: &V) -> (out: V)
        requires
            self.attn.can_attend(*input),
        ensures
            exists|n: usize| #[trigger]
                V::rows.ensures((input,), n) && self.gives(*input, n, true, out),
    {
        let n: usize = input.rows();
        assert(V::rows.ensures((input,), n));
        self.forward_positions(input, n, true)
    }

    /// The output for all positions, with nothing dropped, whether training is on or not.
    pub fn forward_seq_inference(&self, input: &V) -> (out: V)
        requires
            self.attn.can_attend(*input),
        ensures
            exists|n: usize| #[trigger]
                V::rows.ensures((input,), n) && self.gives(*input, n, false, out),
    {
        let n: usize = input.rows();
        assert(V::rows.ensures((input,), n));
        self.forward_positions(input, n, false)
    }

    /// Turns training on or off.
    pub fn set_training(&mut self, training: bool)
        ensures
            *final(self) == old(self).with_training(training),
    {
        if training {
            self.attn_dropout.train();
            self.ffn_dropout.train();
        } else {
            self.attn_dropout.eval();
            self.ffn_dropout.eval();
        }
    }

    /// The block with training turned on or off.
    pub open spec fn with_training(self, training: bool) -> Self {
        QwenLikeBlock {
            attn_dropout: Dropout { training, ..self.attn_dropout },
            ffn_dropout: Dropout { training, ..self.ffn_dropout },
            ..self
        }
    }

    /// The weights.
    pub fn parameters(&self) -> (list: Vec<V>)
        ensures
            operand::are_handles(self.weights(), list@),
    {
        let list = self.norm1.parameters();
        let list = join_handles(list, self.attn.parameters());
        let list = join_handles(list, self.norm2.parameters());
        let list = join_handles(list, self.ffn_up.parameters());
        let list = join_handles(list, self.ffn_gate.parameters());
        join_handles(list, self.ffn_down.parameters())
    }

    /// The weights under their names.
    pub fn named_parameters(&self, prefix: &str) -> (list: Vec<NamedParameter<V>>)
        ensures
            params::is_listing(list@, self.names(prefix@), self.weights()),
    {
        let list = self.norm1.named_parameters(part_name(prefix, "norm1").as_str());
        let list = join_listings(
            list,
            self.attn.named_parameters(part_name(prefix, "attn").as_str()),
        );
        let list = join_listings(
            list,
            self.norm2.named_parameters(part_name(prefix, "norm2").as_str()),
        );
        let list = join_listings(
            list,
            self.ffn_up.named_parameters(part_name(prefix, "ffn_up").as_str()),
        );
        let list = join_listings(
            list,
            self.ffn_gate.named_parameters(part_name(prefix, "ffn_gate").as_str()),
        );
        join_listings(list, self.ffn_down.named_parameters(part_name(prefix, "ffn_down").as_str()))
    }
}

/// Outside of training a [`TransformerBlock`] gives what it gives when nothing is to be dropped.
pub proof fn law_transformer_block_drops_only_while_training<V: Operand>(
    block: TransformerBlock<V>,
    x: V,
    seq_len: usize,
    y: V,
)
    requires
        !block.attn_dropout.training,
        !block.ffn_dropout.training,
    ensures
        block.gives(x, seq_len, true, y) <==> block.gives(x, seq_len, false, y),
{
    assert forall|drops: bool| #[trigger]
        block.gives(x, seq_len, drops, y) implies block.gives(x, seq_len, !drops, y) by {
        let steps = choose|steps: BlockSteps<V>|
            {
                &&& #[trigger] block.are_steps(x, seq_len, drops, steps)
                &&& V::added.ensures((&steps.middle, &steps.fed_kept), y)
            };
        assert(block.are_steps(x, seq_len, !drops, steps));
    }
}

/// Outside of training a [`QwenLikeBlock`] gives what it gives when nothing is to be dropped.
pub proof fn law_qwen_like_block_drops_only_while_training<V: Operand>(
    block: QwenLikeBlock<V>,
    x: V,
    seq_len: usize,
    y: V,
)
    requires
        !block.attn_dropout.training,
        !block.ffn_dropout.training,
    ensures
        block.gives(x, seq_len, true, y) <==> block.gives(x, seq_len, false, y),
{
    assert forall|drops: bool| #[trigger]
        block.gives(x, seq_len, drops, y) implies block.gives(x, seq_len, !drops, y) by {
        let steps = choose|steps: BlockSteps<V>|
            {
                &&& #[trigger] block.are_steps(x, seq_len, drops, steps)
                &&& V::added.ensures((&steps.middle, &steps.fed_kept), y)
            };
        assert(block.are_steps(x, seq_len, !drops, steps));
    }
}

/// A handle of a matrix is the same matrix.
proof fn lemma_same_matrix<V: Operand>(
    reading: ArrayReading<V>,
    x: V,
    y: V,
    rows: int,
    cols: int,
)
    requires
        reading.is_faithful(),
        reading.is_matrix(x, rows, cols),
        V::handle.ensures((&x,), y),
    ensures
        reading.is_matrix(y, rows, cols),
        forall|i: int, j: int| #[trigger] reading.at(y, i, j) == reading.at(x, i, j),
{
    assert(reading.is_same(x, y));
}

impl<V: Operand> TransformerBlock<V> {
    /// Whether the second half goes from `d_model` real numbers over `d_ff` back again.
    pub open spec fn feeds_reals(
        self,
        reading: ArrayReading<V>,
        d_model: int,
        d_ff: int,
    ) -> bool {
        &&& self.ln2.normalized_shape == d_model
        &&& (reading.numbers.finite)(self.ln2.eps)
        &&& reading.is_list(self.ln2.gamma, d_model)
        &&& reading.is_list(self.ln2.beta, d_model)
        &&& self.ffn_up.is_real(reading, d_model, d_ff)
        &&& self.ffn_down.is_real(reading, d_ff, d_model)
    }

    /// Whether `fed` is what the second half makes of the real numbers of `x`: it is
    /// brought to a common spread around its mean, weighed, bent, and weighed again.
    pub open spec fn is_fed(
        self,
        reading: ArrayReading<V>,
        x: V,
        rows: int,
        d_model: int,
        d_ff: int,
        steps: TransformerFeed<V>,
        fed: V,
    ) -> bool {
        &&& reading.is_spread(
            x,
            rows,
            d_model,
            true,
            reading.numbers.of(self.ln2.eps),
            |j: int| (reading.cells)(self.ln2.gamma)[j],
            |j: int| (reading.cells)(self.ln2.beta)[j],
            steps.normed,
        )
        &&& forall|i: int, f: int|
            0 <= i < rows && 0 <= f < d_ff ==> #[trigger] reading.at(steps.up, i, f)
                == self.ffn_up.output(reading, steps.normed, d_model, i, f)
        &&& forall|i: int, f: int|
            0 <= i < rows && 0 <= f < d_ff ==> reading.is_bent(
                reading.at(steps.up, i, f),
                #[trigger] reading.at(steps.bent, i, f),
            )
        &&& reading.is_matrix(fed, rows, d_model)
        &&& forall|i: int, o: int|
            0 <= i < rows && 0 <= o < d_model ==> #[trigger] reading.at(fed, i, o)
                == self.ffn_down.output(reading, steps.bent, d_ff, i, o)
    }
}

/// The second half of a block, over real numbers.
pub proof fn law_transformer_blocks_bend_between_two_layers<V: Operand>(
    reading: ArrayReading<V>,
    block: TransformerBlock<V>,
    x: V,
    fed: V,
    rows: int,
    d_model: int,
    d_ff: int,
)
    requires
        reading.is_faithful(),
        block.feeds_reals(reading, d_model, d_ff),
        reading.is_matrix(x, rows, d_model),
        block.feeds(x, fed),
    ensures
        exists|steps: TransformerFeed<V>| #[trigger]
            block.is_fed(reading, x, rows, d_model, d_ff, steps, fed),
{
    let steps = choose|steps: TransformerFeed<V>| #[trigger] block.are_feed_steps(x, steps, fed);
    assert(reading.is_matrix(steps.normed, rows, d_model));
    layers::law_linear_layers_weigh_their_input(
        reading,
        block.ffn_up,
        steps.normed,
        steps.up,
        rows,
        d_model,
        d_ff,
    );
    assert(reading.is_matrix(steps.bent, rows, d_ff));
    layers::law_linear_layers_weigh_their_input(
        reading,
        block.ffn_down,
        steps.bent,
        fed,
        rows,
        d_ff,
        d_model,
    );
    assert(block.is_fed(reading, x, rows, d_model, d_ff, steps, fed));
}

/// With nothing dropped each half of a block adds to its input: attention to the input of the
/// block, and the second half to their sum.
pub proof fn law_transformer_blocks_add_to_their_input<V: Operand>(
    reading: ArrayReading<V>,
    block: TransformerBlock<V>,
    x: V,
    seq_len: usize,
    y: V,
    rows: int,
    d_model: int,
    d_ff: int,
)
    requires
        reading.is_faithful(),
        block.feeds_reals(reading, d_model, d_ff),
        reading.is_matrix(x, rows, d_model),
        forall|attended: V| #[trigger]
            block.attends(x, seq_len, attended) ==> reading.is_matrix(attended, rows, d_model),
        block.gives(x, seq_len, false, y),
    ensures
        reading.is_matrix(y, rows, d_model),
        exists|attended: V, middle: V, steps: TransformerFeed<V>, fed: V|
            {
                &&& #[trigger] block.attends(x, seq_len, attended)
                &&& #[trigger] block.is_fed(reading, middle, rows, d_model, d_ff, steps, fed)
                &&& forall|i: int, j: int|
                    0 <= i < rows && 0 <= j < d_model ==> {
                        &&& #[trigger] reading.at(middle, i, j) == reading.at(x, i, j)
                            + reading.at(attended, i, j)
                        &&& reading.at(y, i, j) == reading.at(middle, i, j) + reading.at(fed, i, j)
                    }
            },
{
    let steps = choose|steps: BlockSteps<V>|
        {
            &&& #[trigger] block.are_steps(x, seq_len, false, steps)
            &&& V::added.ensures((&steps.middle, &steps.fed_kept), y)
        };
    assert(block.attends(x, seq_len, steps.attended));
    lemma_same_matrix(reading, steps.attended, steps.attended_kept, rows, d_model);
    reading.lemma_added(x, steps.attended_kept, steps.middle, rows, d_model);
    law_transformer_blocks_bend_between_two_layers(
        reading,
        block,
        steps.middle,
        steps.fed,
        rows,
        d_model,
        d_ff,
    );
    let inner = choose|inner: TransformerFeed<V>| #[trigger]
        block.is_fed(reading, steps.middle, rows, d_model, d_ff, inner, steps.fed);
    lemma_same_matrix(reading, steps.fed, steps.fed_kept, rows, d_model);
    reading.lemma_added(steps.middle, steps.fed_kept, y, rows, d_model);
    let (middle, attended, fed) = (steps.middle, steps.attended, steps.fed);
    assert forall|i: int, j: int| 0 <= i < rows && 0 <= j < d_model implies {
        &&& #[trigger] reading.at(middle, i, j) == reading.at(x, i, j) + reading.at(attended, i, j)
        &&& reading.at(y, i, j) == reading.at(middle, i, j) + reading.at(fed, i, j)
    } by {
        assert(reading.at(steps.attended_kept, i, j) == reading.at(attended, i, j));
        assert(reading.at(steps.fed_kept, i, j) == reading.at(fed, i, j));
        assert(reading.at(y, i, j) == reading.at(middle, i, j) + reading.at(steps.fed_kept, i, j));
    }
}

impl<V: Operand> QwenLikeBlock<V> {
    /// Whether the second half goes from `d_model` real numbers over `d_ff` back again.
    pub open spec fn feeds_reals(
        self,
        reading: ArrayReading<V>,
        d_model: int,
        d_ff: int,
    ) -> bool {
        &&& self.norm2.normalized_shape == d_model
        &&& (reading.numbers.finite)(self.norm2.eps)
        &&& reading.is_list(self.norm2.weight, d_model)
        &&& self.ffn_gate.is_real(reading, d_model, d_ff)
        &&& self.ffn_up.is_real(reading, d_model, d_ff)
        &&& self.ffn_down.is_real(reading, d_ff, d_model)
    }

    /// Whether `fed` is what the second half makes of the real numbers of `x`: it is
    /// brought to a common spread around zero, weighed twice, opened by one of both, and weighed
    /// again.
    pub open spec fn is_fed(
        self,
        reading: ArrayReading<V>,
        x: V,
        rows: int,
        d_model: int,
        d_ff: int,
        steps: QwenLikeFeed<V>,
        fed: V,
    ) -> bool {
        &&& reading.is_spread(
            x,
            rows,
            d_model,
            false,
            reading.numbers.of(self.norm2.eps),
            |j: int| (reading.cells)(self.norm2.weight)[j],
            |j: int| 0real,
            steps.normed,
        )
        &&& forall|i: int, f: int|
            0 <= i < rows && 0 <= f < d_ff ==> #[trigger] reading.at(steps.up, i, f)
                == self.ffn_up.output(reading, steps.normed, d_model, i, f)
        &&& forall|i: int, f: int|
            0 <= i < rows && 0 <= f < d_ff ==> #[trigger] reading.at(steps.gate, i, f)
                == self.ffn_gate.output(reading, steps.normed, d_model, i, f)
        &&& forall|i: int, f: int|
            0 <= i < rows && 0 <= f < d_ff ==> #[trigger] reading.at(steps.bent, i, f) * (1real + (
            reading.numbers.exp)(-reading.at(steps.gate, i, f))) == reading.at(steps.up, i, f)
                * reading.at(steps.gate, i, f)
        &&& reading.is_matrix(fed, rows, d_model)
        &&& forall|i: int, o: int|
            0 <= i < rows && 0 <= o < d_model ==> #[trigger] reading.at(fed, i, o)
                == self.ffn_down.output(reading, steps.bent, d_ff, i, o)
    }
}

/// The second half of a block, over real numbers.
pub proof fn law_qwen_like_blocks_bend_between_two_layers<V: Operand>(
    reading: ArrayReading<V>,
    block: QwenLikeBlock<V>,
    x: V,
    fed: V,
    rows: int,
    d_model: int,
    d_ff: int,
)
    requires
        reading.is_faithful(),
        block.feeds_reals(reading, d_model, d_ff),
        reading.is_matrix(x, rows, d_model),
        block.feeds(x, fed),
    ensures
        exists|steps: QwenLikeFeed<V>| #[trigger]
            block.is_fed(reading, x, rows, d_model, d_ff, steps, fed),
{
    let steps = choose|steps: QwenLikeFeed<V>| #[trigger] block.are_feed_steps(x, steps, fed);
    assert(reading.is_matrix(steps.normed, rows, d_model));
    layers::law_linear_layers_weigh_their_input(
        reading,
        block.ffn_up,
        steps.normed,
        steps.up,
        rows,
        d_model,
        d_ff,
    );
    layers::law_linear_layers_weigh_their_input(
        reading,
        block.ffn_gate,
        steps.normed,
        steps.gate,
        rows,
        d_model,
        d_ff,
    );
    assert(reading.is_matrix(steps.bent, rows, d_ff));
    layers::law_linear_layers_weigh_their_input(
        reading,
        block.ffn_down,
        steps.bent,
        fed,
        rows,
        d_ff,
        d_model,
    );
    assert(block.is_fed(reading, x, rows, d_model, d_ff, steps, fed));
}

/// With nothing dropped each half of a block adds to its input: attention to the input of the
/// block, and the second half to their sum.
pub proof fn law_qwen_like_blocks_add_to_their_input<V: Operand>(
    reading: ArrayReading<V>,
    block: QwenLikeBlock<V>,
    x: V,
    seq_len: usize,
    y: V,
    rows: int,
    d_model: int,
    d_ff: int,
)
    requires
        reading.is_faithful(),
        block.feeds_reals(reading, d_model, d_ff),
        reading.is_matrix(x, rows, d_model),
        forall|attended: V| #[trigger]
            block.attends(x, seq_len, attended) ==> reading.is_matrix(attended, rows, d_model),
        block.gives(x, seq_len, false, y),
    ensures
        reading.is_matrix(y, rows, d_model),
        exists|attended: V, middle: V, steps: QwenLikeFeed<V>, fed: V|
            {
                &&& #[trigger] block.attends(x, seq_len, attended)
                &&& #[trigger] block.is_fed(reading, middle, rows, d_model, d_ff, steps, fed)
                &&& forall|i: int, j: int|
                    0 <= i < rows && 0 <= j < d_model ==> {
                        &&& #[trigger] reading.at(middle, i, j) == reading.at(x, i, j)
                            + reading.at(attended, i, j)
                        &&& reading.at(y, i, j) == reading.at(middle, i, j) + reading.at(fed, i, j)
                    }
            },
{
    let steps = choose|steps: BlockSteps<V>|
        {
            &&& #[trigger] block.are_steps(x, seq_len, false, steps)
            &&& V::added.ensures((&steps.middle, &steps.fed_kept), y)
        };
    assert(block.attends(x, seq_len, steps.attended));
    lemma_same_matrix(reading, steps.attended, steps.attended_kept, rows, d_model);
    reading.lemma_added(x, steps.attended_kept, steps.middle, rows, d_model);
    law_qwen_like_blocks_bend_between_two_layers(
        reading,
        block,
        steps.middle,
        steps.fed,
        rows,
        d_model,
        d_ff,
    );
    let inner = choose|inner: QwenLikeFeed<V>| #[trigger]
        block.is_fed(reading, steps.middle, rows, d_model, d_ff, inner, steps.fed);
    lemma_same_matrix(reading, steps.fed, steps.fed_kept, rows, d_model);
    reading.lemma_added(steps.middle, steps.fed_kept, y, rows, d_model);
    let (middle, attended, fed) = (steps.middle, steps.attended, steps.fed);
    assert forall|i: int, j: int| 0 <= i < rows && 0 <= j < d_model implies {
        &&& #[trigger] reading.at(middle, i, j) == reading.at(x, i, j) + reading.at(attended, i, j)
        &&& reading.at(y, i, j) == reading.at(middle, i, j) + reading.at(fed, i, j)
    } by {
        assert(reading.at(steps.attended_kept, i, j) == reading.at(attended, i, j));
        assert(reading.at(steps.fed_kept, i, j) == reading.at(fed, i, j));
        assert(reading.at(y, i, j) == reading.at(middle, i, j) + reading.at(steps.fed_kept, i, j));
    }
}

/// New blocks drop a tenth of what each half adds while they train, and one that tells positions
/// by turns does so by powers of ten thousand.
pub proof fn law_new_blocks_drop_a_tenth<V: Operand>(
    reading: ArrayReading<V>,
    block: TransformerBlock<V>,
    other: QwenLikeBlock<V>,
    d_model: usize,
    n_head: usize,
    d_ff: usize,
)
    requires
        reading.is_faithful(),
        block.is_new(d_model, n_head, d_ff),
        other.is_new(d_model, n_head, d_ff),
    ensures
        block.attn_dropout.training && block.ffn_dropout.training,
        other.attn_dropout.training && other.ffn_dropout.training,
        reading.numbers.reads(block.attn_dropout.rate, 1real / 10real),
        reading.numbers.reads(block.ffn_dropout.rate, 1real / 10real),
        reading.numbers.reads(other.attn_dropout.rate, 1real / 10real),
        reading.numbers.reads(other.ffn_dropout.rate, 1real / 10real),
        reading.numbers.reads(other.rope_base, 10_000real),
{
    assert(reals::pow(10real, 0) == 1real);
    assert(reals::pow(10real, 1) == reals::pow(10real, 0) * 10real);
    assert(reals::pow(10real, 1) == 10real);
}

} // verus!
