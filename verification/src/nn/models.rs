//! Decoder models: rows for tokens, a stack of blocks, and scores for what follows.

use super::arrays::ArrayReading;
use super::blocks::{QwenLikeBlock, TransformerBlock};
use super::kv_cache;
use super::kv_cache::{can_fill_with, KvCache, KvCacheSpec, KvTensor};
use super::layers;
use super::layers::{Embedding, LayerNorm, Linear, Module, RmsNorm};
use super::operand;
use super::operand::{join_handles, Operand};
use super::params;
use super::params::{block_name, join_listings, NamedParameter};
use vstd::prelude::*;

verus! {

/// The sizes of a model.
#[derive(Debug, Clone, Copy, PartialEq, Eq, Structural)]
pub struct ModelSizes {
    pub vocab_size: usize,
    pub d_model: usize,
    pub n_head: usize,
    pub n_layer: usize,
    pub d_ff: usize,
    pub seq_len: usize,
}

/// The numbers of the first `n` positions.
pub open spec fn positions(n: nat) -> Seq<usize> {
    Seq::new(n, |i: int| i as usize)
}

/// The numbers of the first `n` positions.
fn count_up(n: usize) -> (list: Vec<usize>)
    ensures
        list@ == positions(n as nat),
{
    let mut list: Vec<usize> = Vec::new();
    for i in 0..n
        invariant
            list@ == positions(i as nat),
    {
        list.push(i);
        assert(list@ =~= positions((i + 1) as nat));
    }
    list
}

/// The weights of some blocks, one after the other.
pub open spec fn transformer_weights<V: Operand>(blocks: Seq<TransformerBlock<V>>) -> Seq<V>
    decreases blocks.len(),
{
    if blocks.len() == 0 {
        Seq::empty()
    } else {
        transformer_weights(blocks.drop_last()) + blocks.last().weights()
    }
}

/// The names of the weights of some blocks, one after the other.
pub open spec fn transformer_names<V: Operand>(blocks: Seq<TransformerBlock<V>>) -> Seq<Seq<char>>
    decreases blocks.len(),
{
    if blocks.len() == 0 {
        Seq::empty()
    } else {
        transformer_names(blocks.drop_last()) + blocks.last().names(
            params::block_prefix((blocks.len() - 1) as nat),
        )
    }
}

/// A model that adds a row for its position to every token.
pub struct GPT<V: Operand> {
    /// One row for each token.
    pub token_emb: Embedding<V>,
    /// One row for each position.
    pub pos_emb: Embedding<V>,
    pub blocks: Vec<TransformerBlock<V>>,
    pub ln_f: LayerNorm<V>,
    /// The projection to the scores of all tokens.
    pub lm_head: Linear<V>,
    /// The greatest number of tokens that it looks at.
    pub seq_len: usize,
}

impl<V: Operand> GPT<V> {
    /// Whether `x` is what the blocks see of the tokens: their rows plus those of their positions.
    pub open spec fn embeds(self, tokens: Seq<usize>, x: V) -> bool {
        exists|rows: V, places: V|
            {
                &&& self.token_emb.gives(tokens, rows)
                &&& self.pos_emb.gives(positions(tokens.len()), places)
                &&& #[trigger] V::added.ensures((&rows, &places), x)
            }
    }

    /// Whether `xs` is what goes through the blocks, from what they see of the tokens to what
    /// the last one gives.
    pub open spec fn flows(self, tokens: Seq<usize>, drops: bool, xs: Seq<V>) -> bool {
        &&& xs.len() == self.blocks@.len() + 1
        &&& self.embeds(tokens, xs[0])
        &&& forall|i: int|
            0 <= i < self.blocks@.len() ==> (#[trigger] self.blocks@[i]).gives(
                xs[i],
                tokens.len() as usize,
                drops,
                xs[i + 1],
            )
    }

    /// Whether `y` holds the scores that follow every one of the tokens.
    pub open spec fn gives(self, tokens: Seq<usize>, y: V) -> bool {
        exists|xs: Seq<V>, last: V|
            {
                &&& #[trigger] self.flows(tokens, true, xs)
                &&& #[trigger] self.ln_f.gives(xs.last(), last)
                &&& self.lm_head.gives(last, y)
            }
    }

    /// Whether the scores of all heads over `n` positions can be counted.
    pub open spec fn can_look_at(self, n: nat) -> bool {
        &&& n <= self.seq_len
        &&& forall|i: int|
            0 <= i < self.blocks@.len() ==> (#[trigger] self.blocks@[i]).attn.sizes(
                n as usize,
            ).valid()
    }

    /// The weights.
    pub open spec fn weights(self) -> Seq<V> {
        self.token_emb.weights() + self.pos_emb.weights() + transformer_weights(self.blocks@)
            + self.ln_f.weights() + self.lm_head.weights()
    }

    /// The names of the weights.
    pub open spec fn names(self) -> Seq<Seq<char>> {
        self.token_emb.names("token_emb"@) + self.pos_emb.names("pos_emb"@) + transformer_names(
            self.blocks@,
        ) + self.ln_f.names("ln_f"@) + self.lm_head.names("lm_head"@)
    }

    /// Whether this is a model as it is made.
    pub open spec fn is_new(self, sizes: ModelSizes) -> bool {
        &&& V::uniform.ensures((sizes.vocab_size, sizes.d_model), self.token_emb.weight)
        &&& V::uniform.ensures((sizes.seq_len, sizes.d_model), self.pos_emb.weight)
        &&& self.blocks@.len() == sizes.n_layer
        &&& forall|i: int|
            0 <= i < self.blocks@.len() ==> (#[trigger] self.blocks@[i]).is_new(
                sizes.d_model,
                sizes.n_head,
                sizes.d_ff,
            )
        &&& self.ln_f.is_new(sizes.d_model)
        &&& self.lm_head.is_new(sizes.d_model, sizes.vocab_size, false)
        &&& self.seq_len == sizes.seq_len
    }

    /// A model with weights by chance.
    pub fn new(
        vocab_size: usize,
        d_model: usize,
        n_head: usize,
        n_layer: usize,
        d_ff: usize,
        seq_len: usize,
    ) -> (model: Self)
        requires
            n_layer > 0 ==> n_head > 0 && d_model % n_head == 0,
        ensures
            model.is_new(
                ModelSizes { vocab_size, d_model, n_head, n_layer, d_ff, seq_len },
            ),
    {
        let sizes = ModelSizes { vocab_size, d_model, n_head, n_layer, d_ff, seq_len };
        let mut blocks: Vec<TransformerBlock<V>> = Vec::new();
        for i in 0..n_layer
            invariant
                n_layer > 0 ==> n_head > 0 && d_model % n_head == 0,
                blocks@.len() == i,
                forall|j: int|
                    0 <= j < i ==> (#[trigger] blocks@[j]).is_new(d_model, n_head, d_ff),
        {
            blocks.push(TransformerBlock::new(d_model, n_head, d_ff));
        }
        GPT {
            token_emb: Embedding::new(sizes.vocab_size, sizes.d_model),
            pos_emb: Embedding::new(sizes.seq_len, sizes.d_model),
            blocks,
            ln_f: LayerNorm::new(d_model),
            lm_head: Linear::new(d_model, vocab_size, false),
            seq_len,
        }
    }

    /// What the blocks see of the tokens.
    fn embed(&self, token_ids: &[usize]) -> (x: V)
        ensures
            self.embeds(token_ids@, x),
    {
        let places: Vec<usize> = count_up(token_ids.len());
        let rows: V = self.token_emb.forward_indices(token_ids);
        let added: V = self.pos_emb.forward_indices(places.as_slice());
        let x: V = rows.added(&added);
        assert(V::added.ensures((&rows, &added), x));
        x
    }

    /// The scores that follow every one of the tokens.
    pub fn forward_ids(&self, token_ids: &[usize]) -> (scores: V)
        requires
            self.can_look_at(token_ids@.len()),
        ensures
            self.gives(token_ids@, scores),
    {
        let n: usize = token_ids.len();
        let mut x: V = self.embed(token_ids);
        let ghost mut xs: Seq<V> = seq![x];
        for i in 0..self.blocks.len()
            invariant
                n == token_ids@.len(),
                self.can_look_at(n as nat),
                xs.len() == i + 1,
                xs.last() == x,
                self.embeds(token_ids@, xs[0]),
                forall|j: int|
                    0 <= j < i ==> (#[trigger] self.blocks@[j]).gives(
                        xs[j],
                        n,
                        true,
                        xs[j + 1],
                    ),
        {
            assert(self.blocks@[i as int].attn.sizes(n).valid());
            x = self.blocks[i].forward_positions(&x, n, true);
            proof {
                xs = xs.push(x);
            }
        }
        let last: V = self.ln_f.forward(&x);
        assert(self.flows(token_ids@, true, xs));
        assert(self.ln_f.gives(xs.last(), last));
        self.lm_head.forward(&last)
    }

    /// The weights.
    pub fn parameters(&self) -> (list: Vec<V>)
        ensures
            operand::are_handles(self.weights(), list@),
    {
        let list = join_handles(self.token_emb.parameters(), self.pos_emb.parameters());
        let ghost head = self.token_emb.weights() + self.pos_emb.weights();
        let mut list: Vec<V> = list;
        assert(self.blocks@.take(0) =~= Seq::<TransformerBlock<V>>::empty());
        assert(head + transformer_weights(self.blocks@.take(0)) =~= head);
        for i in 0..self.blocks.len()
            invariant
                operand::are_handles(
                    head + transformer_weights(self.blocks@.take(i as int)),
                    list@,
                ),
        {
            list = join_handles(list, self.blocks[i].parameters());
            proof {
                let more = self.blocks@.take(i + 1);
                assert(more.drop_last() =~= self.blocks@.take(i as int));
                assert(head + transformer_weights(more) =~= head + transformer_weights(
                    self.blocks@.take(i as int),
                ) + self.blocks@[i as int].weights());
            }
        }
        assert(self.blocks@.take(self.blocks@.len() as int) =~= self.blocks@);
        let list = join_handles(list, self.ln_f.parameters());
        join_handles(list, self.lm_head.parameters())
    }

    /// The weights under their names.
    pub fn named_parameters(&self) -> (list: Vec<NamedParameter<V>>)
        ensures
            params::is_listing(list@, self.names(), self.weights()),
    {
        let list = join_listings(
            self.token_emb.named_parameters("token_emb"),
            self.pos_emb.named_parameters("pos_emb"),
        );
        let ghost head = self.token_emb.weights() + self.pos_emb.weights();
        let ghost head_names = self.token_emb.names("token_emb"@) + self.pos_emb.names("pos_emb"@);
        let mut list: Vec<NamedParameter<V>> = list;
        assert(self.blocks@.take(0) =~= Seq::<TransformerBlock<V>>::empty());
        assert(head + transformer_weights(self.blocks@.take(0)) =~= head);
        assert(head_names + transformer_names(self.blocks@.take(0)) =~= head_names);
        for i in 0..self.blocks.len()
            invariant
                params::is_listing(
                    list@,
                    head_names + transformer_names(self.blocks@.take(i as int)),
                    head + transformer_weights(self.blocks@.take(i as int)),
                ),
        {
            let name = block_name(i);
            list = join_listings(list, self.blocks[i].named_parameters(name.as_str()));
            proof {
                let before = self.blocks@.take(i as int);
                let more = self.blocks@.take(i + 1);
                let block = self.blocks@[i as int];
                assert(more.drop_last() =~= before);
                assert(head + transformer_weights(more) =~= head + transformer_weights(before)
                    + block.weights());
                assert(head_names + transformer_names(more) =~= head_names + transformer_names(
                    before,
                ) + block.names(params::block_prefix(i as nat)));
            }
        }
        assert(self.blocks@.take(self.blocks@.len() as int) =~= self.blocks@);
        let list = join_listings(list, self.ln_f.named_parameters("ln_f"));
        join_listings(list, self.lm_head.named_parameters("lm_head"))
    }

    /// Turns training on or off in all blocks.
    pub fn set_training(&mut self, training: bool)
        ensures
            final(self).blocks@ == old(self).blocks@.map_values(
                |block: TransformerBlock<V>| block.with_training(training),
            ),
            *final(self) == (GPT { blocks: final(self).blocks, ..*old(self) }),
    {
        let n: usize = self.blocks.len();
        for i in 0..n
            invariant
                n == self.blocks@.len(),
                self.blocks@.len() == old(self).blocks@.len(),
                *self == (GPT { blocks: self.blocks, ..*old(self) }),
                forall|j: int|
                    0 <= j < i ==> #[trigger] self.blocks@[j]
                        == old(self).blocks@[j].with_training(training),
                forall|j: int|
                    i <= j < self.blocks@.len() ==> #[trigger] self.blocks@[j]
                        == old(self).blocks@[j],
        {
            self.blocks[i].set_training(training);
        }
        assert(self.blocks@ =~= old(self).blocks@.map_values(
            |block: TransformerBlock<V>| block.with_training(training),
        ));
    }

    /// The layout of the cache that the model fills: that of its first block's heads for every
    /// block.
    pub open spec fn layout(self) -> KvCacheSpec {
        if self.blocks@.len() > 0 {
            KvCacheSpec {
                n_layer: self.blocks@.len() as usize,
                max_context: self.seq_len,
                n_head: self.blocks@[0].attn.n_head,
                head_dim: self.blocks@[0].attn.head_dim,
            }
        } else {
            KvCacheSpec { n_layer: 0, max_context: self.seq_len, n_head: 1, head_dim: 1 }
        }
    }

    /// The layout of the cache that the model fills.
    pub fn kv_cache_spec(&self) -> (spec: KvCacheSpec)
        requires
            self.layout().valid(),
        ensures
            spec == self.layout(),
    {
        if self.blocks.len() > 0 {
            let attn = &self.blocks[0].attn;
            KvCacheSpec::new(self.blocks.len(), self.seq_len, attn.n_head, attn.head_dim)
        } else {
            KvCacheSpec::token_only(self.seq_len)
        }
    }

    /// Whether `pair` is what block `i` caches of the `n` positions of `x`.
    pub open spec fn caches(
        self,
        i: int,
        n: usize,
        x: V,
        pair: (KvTensor<V::Num>, KvTensor<V::Num>),
    ) -> bool {
        let block = self.blocks@[i];
        exists|normed: V, key: V, value: V|
            {
                &&& block.ln1.gives(x, normed)
                &&& #[trigger] block.attn.is_cached(normed, n, None, key, value)
                &&& V::cached.ensures((&key,), pair.0)
                &&& V::cached.ensures((&value,), pair.1)
            }
    }

    /// Whether `pairs` is what all blocks cache of the tokens, with nothing dropped; nothing
    /// where there are no tokens.
    pub open spec fn projects(
        self,
        tokens: Seq<usize>,
        pairs: Seq<(KvTensor<V::Num>, KvTensor<V::Num>)>,
    ) -> bool {
        if tokens.len() == 0 || self.blocks@.len() == 0 {
            pairs.len() == 0
        } else {
            exists|xs: Seq<V>|
                {
                    &&& #[trigger] self.flows(tokens, false, xs)
                    &&& pairs.len() == self.blocks@.len()
                    &&& forall|i: int|
                        0 <= i < pairs.len() ==> self.caches(
                            i,
                            tokens.len() as usize,
                            xs[i],
                            #[trigger] pairs[i],
                        )
                }
        }
    }

    /// What block `i` caches of the `n` positions of `x`.
    fn cache_block(&self, i: usize, n: usize, x: &V) -> (pair: (
        KvTensor<V::Num>,
        KvTensor<V::Num>,
    ))
        requires
            i < self.blocks@.len(),
        ensures
            self.caches(i as int, n, *x, pair),
    {
        let block = &self.blocks[i];
        let normed: V = block.ln1.forward(x);
        let (key, value) = block.attn.project_positions(&normed, n, None);
        assert(block.attn.is_cached(normed, n, None, key, value));
        (key.cached(), value.cached())
    }

    /// The keys and values of all blocks for some tokens, with nothing dropped; none where there
    /// are no tokens.
    pub fn project(&self, token_ids: &[usize]) -> (pairs: Vec<
        (KvTensor<V::Num>, KvTensor<V::Num>),
    >)
        requires
            self.can_look_at(token_ids@.len()),
        ensures
            self.projects(token_ids@, pairs@),
    {
        let n: usize = token_ids.len();
        let mut pairs: Vec<(KvTensor<V::Num>, KvTensor<V::Num>)> = Vec::new();
        if n == 0 || self.blocks.len() == 0 {
            return pairs;
        }
        let mut x: V = self.embed(token_ids);
        let ghost mut xs: Seq<V> = seq![x];
        for i in 0..self.blocks.len()
            invariant
                n == token_ids@.len(),
                self.can_look_at(n as nat),
                xs.len() == i + 1,
                xs.last() == x,
                pairs@.len() == i,
                self.embeds(token_ids@, xs[0]),
                forall|j: int|
                    0 <= j < i ==> (#[trigger] self.blocks@[j]).gives(
                        xs[j],
                        n,
                        false,
                        xs[j + 1],
                    ),
                forall|j: int|
                    0 <= j < i ==> self.caches(j, n, xs[j], #[trigger] pairs@[j]),
        {
            assert(self.blocks@[i as int].attn.sizes(n).valid());
            pairs.push(self.cache_block(i, n, &x));
            x = self.blocks[i].forward_positions(&x, n, false);
            proof {
                xs = xs.push(x);
            }
        }
        assert(self.flows(token_ids@, false, xs));
        pairs
    }

    /// Replaces what a cache holds by the keys and values of some tokens. Where what the model
    /// computes does not fit the cache, it stays as it is, and the answer is no.
    pub fn prefill_kv_cache(&self, token_ids: &[usize], cache: &mut KvCache<V::Num>) -> (done: bool)
        requires
            old(cache).well_formed(),
            old(cache).layout() == self.layout(),
            self.can_look_at(token_ids@.len()),
        ensures
            final(cache).well_formed(),
            final(cache).layout() == old(cache).layout(),
            exists|pairs: Seq<(KvTensor<V::Num>, KvTensor<V::Num>)>|
                {
                    &&& #[trigger] self.projects(token_ids@, pairs)
                    &&& done == kv_cache::can_fill(pairs, self.layout())
                    &&& if done {
                        kv_cache::is_filled(*final(cache), pairs)
                    } else {
                        *final(cache) == *old(cache)
                    }
                },
    {
        let pairs = self.project(token_ids);
        assert(self.projects(token_ids@, pairs@));
        if !can_fill_with(&pairs, cache.spec()) {
            return false;
        }
        cache.fill(pairs);
        true
    }
}

/// The weights of some blocks, one after the other.
pub open spec fn qwen_like_weights<V: Operand>(blocks: Seq<QwenLikeBlock<V>>) -> Seq<V>
    decreases blocks.len(),
{
    if blocks.len() == 0 {
        Seq::empty()
    } else {
        qwen_like_weights(blocks.drop_last()) + blocks.last().weights()
    }
}

/// The names of the weights of some blocks, one after the other.
pub open spec fn qwen_like_names<V: Operand>(blocks: Seq<QwenLikeBlock<V>>) -> Seq<Seq<char>>
    decreases blocks.len(),
{
    if blocks.len() == 0 {
        Seq::empty()
    } else {
        qwen_like_names(blocks.drop_last()) + blocks.last().names(
            params::block_prefix((blocks.len() - 1) as nat),
        )
    }
}

/// A model whose blocks tell positions by turns.
pub struct QwenLikeGPT<V: Operand> {
    /// One row for each token.
    pub token_emb: Embedding<V>,
    pub blocks: Vec<QwenLikeBlock<V>>,
    pub norm_f: RmsNorm<V>,
    /// The projection to the scores of all tokens.
    pub lm_head: Linear<V>,
    /// The greatest number of tokens that it looks at.
    pub seq_len: usize,
}

impl<V: Operand> QwenLikeGPT<V> {
    /// Whether `x` is what the blocks see of the tokens: their rows.
    pub open spec fn embeds(self, tokens: Seq<usize>, x: V) -> bool {
        self.token_emb.gives(tokens, x)
    }

    /// Whether `xs` is what goes through the blocks, from what they see of the tokens to what
    /// the last one gives.
    pub open spec fn flows(self, tokens: Seq<usize>, drops: bool, xs: Seq<V>) -> bool {
        &&& xs.len() == self.blocks@.len() + 1
        &&& self.embeds(tokens, xs[0])
        &&& forall|i: int|
            0 <= i < self.blocks@.len() ==> (#[trigger] self.blocks@[i]).gives(
                xs[i],
                tokens.len() as usize,
                drops,
                xs[i + 1],
            )
    }

    /// Whether `y` holds the scores that follow every one of the tokens.
    pub open spec fn gives(self, tokens: Seq<usize>, y: V) -> bool {
        exists|xs: Seq<V>, last: V|
            {
                &&& #[trigger] self.flows(tokens, true, xs)
                &&& #[trigger] self.norm_f.gives(xs.last(), last)
                &&& self.lm_head.gives(last, y)
            }
    }

    /// Whether the scores of all heads over `n` positions can be counted.
    pub open spec fn can_look_at(self, n: nat) -> bool {
        &&& n <= self.seq_len
        &&& forall|i: int|
            0 <= i < self.blocks@.len() ==> (#[trigger] self.blocks@[i]).attn.sizes(
                n as usize,
            ).valid()
    }

    /// The weights.
    pub open spec fn weights(self) -> Seq<V> {
        self.token_emb.weights() + qwen_like_weights(self.blocks@)
            + self.norm_f.weights() + self.lm_head.weights()
    }

    /// The names of the weights.
    pub open spec fn names(self) -> Seq<Seq<char>> {
        self.token_emb.names("token_emb"@) + qwen_like_names(
            self.blocks@,
        ) + self.norm_f.names("norm_f"@) + self.lm_head.names("lm_head"@)
    }

    /// Whether this is a model as it is made.
    pub open spec fn is_new(self, sizes: ModelSizes) -> bool {
        &&& V::uniform.ensures((sizes.vocab_size, sizes.d_model), self.token_emb.weight)
        &&& self.blocks@.len() == sizes.n_layer
        &&& forall|i: int|
            0 <= i < self.blocks@.len() ==> (#[trigger] self.blocks@[i]).is_new(
                sizes.d_model,
                sizes.n_head,
                sizes.d_ff,
            )
        &&& self.norm_f.is_new(sizes.d_model)
        &&& self.lm_head.is_new(sizes.d_model, sizes.vocab_size, false)
        &&& self.seq_len == sizes.seq_len
    }

    /// A model with weights by chance.
    pub fn new(
        vocab_size: usize,
        d_model: usize,
        n_head: usize,
        n_layer: usize,
        d_ff: usize,
        seq_len: usize,
    ) -> (model: Self)
        requires
            n_layer > 0 ==> n_head > 0 && d_model % n_head == 0,
        ensures
            model.is_new(
                ModelSizes { vocab_size, d_model, n_head, n_layer, d_ff, seq_len },
            ),
    {
        let sizes = ModelSizes { vocab_size, d_model, n_head, n_layer, d_ff, seq_len };
        let mut blocks: Vec<QwenLikeBlock<V>> = Vec::new();
        for i in 0..n_layer
            invariant
                n_layer > 0 ==> n_head > 0 && d_model % n_head == 0,
                blocks@.len() == i,
                forall|j: int|
                    0 <= j < i ==> (#[trigger] blocks@[j]).is_new(d_model, n_head, d_ff),
        {
            blocks.push(QwenLikeBlock::new(d_model, n_head, d_ff));
        }
        QwenLikeGPT {
            token_emb: Embedding::new(sizes.vocab_size, sizes.d_model),
            blocks,
            norm_f: RmsNorm::new(d_model),
            lm_head: Linear::new(d_model, vocab_size, false),
            seq_len,
        }
    }

    /// What the blocks see of the tokens.
    fn embed(&self, token_ids: &[usize]) -> (x: V)
        ensures
            self.embeds(token_ids@, x),
    {
        self.token_emb.forward_indices(token_ids)
    }

    /// The scores that follow every one of the tokens.
    pub fn forward_ids(&self, token_ids: &[usize]) -> (scores: V)
        requires
            self.can_look_at(token_ids@.len()),
        ensures
            self.gives(token_ids@, scores),
    {
        let n: usize = token_ids.len();
        let mut x: V = self.embed(token_ids);
        let ghost mut xs: Seq<V> = seq![x];
        for i in 0..self.blocks.len()
            invariant
                n == token_ids@.len(),
                self.can_look_at(n as nat),
                xs.len() == i + 1,
                xs.last() == x,
                self.embeds(token_ids@, xs[0]),
                forall|j: int|
                    0 <= j < i ==> (#[trigger] self.blocks@[j]).gives(
                        xs[j],
                        n,
                        true,
                        xs[j + 1],
                    ),
        {
            assert(self.blocks@[i as int].attn.sizes(n).valid());
            x = self.blocks[i].forward_positions(&x, n, true);
            proof {
                xs = xs.push(x);
            }
        }
        let last: V = self.norm_f.forward(&x);
        assert(self.flows(token_ids@, true, xs));
        assert(self.norm_f.gives(xs.last(), last));
        self.lm_head.forward(&last)
    }

    /// The weights.
    pub fn parameters(&self) -> (list: Vec<V>)
        ensures
            operand::are_handles(self.weights(), list@),
    {
        let list = self.token_emb.parameters();
        let ghost head = self.token_emb.weights();
        let mut list: Vec<V> = list;
        assert(self.blocks@.take(0) =~= Seq::<QwenLikeBlock<V>>::empty());
        assert(head + qwen_like_weights(self.blocks@.take(0)) =~= head);
        for i in 0..self.blocks.len()
            invariant
                operand::are_handles(
                    head + qwen_like_weights(self.blocks@.take(i as int)),
                    list@,
                ),
        {
            list = join_handles(list, self.blocks[i].parameters());
            proof {
                let more = self.blocks@.take(i + 1);
                assert(more.drop_last() =~= self.blocks@.take(i as int));
                assert(head + qwen_like_weights(more) =~= head + qwen_like_weights(
                    self.blocks@.take(i as int),
                ) + self.blocks@[i as int].weights());
            }
        }
        assert(self.blocks@.take(self.blocks@.len() as int) =~= self.blocks@);
        let list = join_handles(list, self.norm_f.parameters());
        join_handles(list, self.lm_head.parameters())
    }

    /// The weights under their names.
    pub fn named_parameters(&self) -> (list: Vec<NamedParameter<V>>)
        ensures
            params::is_listing(list@, self.names(), self.weights()),
    {
        let list = self.token_emb.named_parameters("token_emb");
        let ghost head = self.token_emb.weights();
        let ghost head_names = self.token_emb.names("token_emb"@);
        let mut list: Vec<NamedParameter<V>> = list;
        assert(self.blocks@.take(0) =~= Seq::<QwenLikeBlock<V>>::empty());
        assert(head + qwen_like_weights(self.blocks@.take(0)) =~= head);
        assert(head_names + qwen_like_names(self.blocks@.take(0)) =~= head_names);
        for i in 0..self.blocks.len()
            invariant
                params::is_listing(
                    list@,
                    head_names + qwen_like_names(self.blocks@.take(i as int)),
                    head + qwen_like_weights(self.blocks@.take(i as int)),
                ),
        {
            let name = block_name(i);
            list = join_listings(list, self.blocks[i].named_parameters(name.as_str()));
            proof {
                let before = self.blocks@.take(i as int);
                let more = self.blocks@.take(i + 1);
                let block = self.blocks@[i as int];
                assert(more.drop_last() =~= before);
                assert(head + qwen_like_weights(more) =~= head + qwen_like_weights(before)
                    + block.weights());
                assert(head_names + qwen_like_names(more) =~= head_names + qwen_like_names(
                    before,
                ) + block.names(params::block_prefix(i as nat)));
            }
        }
        assert(self.blocks@.take(self.blocks@.len() as int) =~= self.blocks@);
        let list = join_listings(list, self.norm_f.named_parameters("norm_f"));
        join_listings(list, self.lm_head.named_parameters("lm_head"))
    }

    /// Turns training on or off in all blocks.
    pub fn set_training(&mut self, training: bool)
        ensures
            final(self).blocks@ == old(self).blocks@.map_values(
                |block: QwenLikeBlock<V>| block.with_training(training),
            ),
            *final(self) == (QwenLikeGPT { blocks: final(self).blocks, ..*old(self) }),
    {
        let n: usize = self.blocks.len();
        for i in 0..n
            invariant
                n == self.blocks@.len(),
                self.blocks@.len() == old(self).blocks@.len(),
                *self == (QwenLikeGPT { blocks: self.blocks, ..*old(self) }),
                forall|j: int|
                    0 <= j < i ==> #[trigger] self.blocks@[j]
                        == old(self).blocks@[j].with_training(training),
                forall|j: int|
                    i <= j < self.blocks@.len() ==> #[trigger] self.blocks@[j]
                        == old(self).blocks@[j],
        {
            self.blocks[i].set_training(training);
        }
        assert(self.blocks@ =~= old(self).blocks@.map_values(
            |block: QwenLikeBlock<V>| block.with_training(training),
        ));
    }

    /// The layout of the cache that the model fills: that of its first block's heads for every
    /// block.
    pub open spec fn layout(self) -> KvCacheSpec {
        if self.blocks@.len() > 0 {
            KvCacheSpec {
                n_layer: self.blocks@.len() as usize,
                max_context: self.seq_len,
                n_head: self.blocks@[0].attn.n_head,
                head_dim: self.blocks@[0].attn.head_dim,
            }
        } else {
            KvCacheSpec { n_layer: 0, max_context: self.seq_len, n_head: 1, head_dim: 1 }
        }
    }

    /// The layout of the cache that the model fills.
    pub fn kv_cache_spec(&self) -> (spec: KvCacheSpec)
        requires
            self.layout().valid(),
        ensures
            spec == self.layout(),
    {
        if self.blocks.len() > 0 {
            let attn = &self.blocks[0].attn;
            KvCacheSpec::new(self.blocks.len(), self.seq_len, attn.n_head, attn.head_dim)
        } else {
            KvCacheSpec::token_only(self.seq_len)
        }
    }

    /// Whether `pair` is what block `i` caches of the `n` positions of `x`.
    pub open spec fn caches(
        self,
        i: int,
        n: usize,
        x: V,
        pair: (KvTensor<V::Num>, KvTensor<V::Num>),
    ) -> bool {
        let block = self.blocks@[i];
        exists|normed: V, key: V, value: V|
            {
                &&& block.norm1.gives(x, normed)
                &&& #[trigger] block.attn.is_cached(normed, n, Some(block.rope_base), key, value)
                &&& V::cached.ensures((&key,), pair.0)
                &&& V::cached.ensures((&value,), pair.1)
            }
    }

    /// Whether `pairs` is what all blocks cache of the tokens, with nothing dropped; nothing
    /// where there are no tokens.
    pub open spec fn projects(
        self,
        tokens: Seq<usize>,
        pairs: Seq<(KvTensor<V::Num>, KvTensor<V::Num>)>,
    ) -> bool {
        if tokens.len() == 0 || self.blocks@.len() == 0 {
            pairs.len() == 0
        } else {
            exists|xs: Seq<V>|
                {
                    &&& #[trigger] self.flows(tokens, false, xs)
                    &&& pairs.len() == self.blocks@.len()
                    &&& forall|i: int|
                        0 <= i < pairs.len() ==> self.caches(
                            i,
                            tokens.len() as usize,
                            xs[i],
                            #[trigger] pairs[i],
                        )
                }
        }
    }

    /// What block `i` caches of the `n` positions of `x`.
    fn cache_block(&self, i: usize, n: usize, x: &V) -> (pair: (
        KvTensor<V::Num>,
        KvTensor<V::Num>,
    ))
        requires
            i < self.blocks@.len(),
        ensures
            self.caches(i as int, n, *x, pair),
    {
        let block = &self.blocks[i];
        let normed: V = block.norm1.forward(x);
        let (key, value) = block.attn.project_positions(&normed, n, Some(block.rope_base));
        assert(block.attn.is_cached(normed, n, Some(block.rope_base), key, value));
        (key.cached(), value.cached())
    }

    /// The keys and values of all blocks for some tokens, with nothing dropped; none where there
    /// are no tokens.
    pub fn project(&self, token_ids: &[usize]) -> (pairs: Vec<
        (KvTensor<V::Num>, KvTensor<V::Num>),
    >)
        requires
            self.can_look_at(token_ids@.len()),
        ensures
            self.projects(token_ids@, pairs@),
    {
        let n: usize = token_ids.len();
        let mut pairs: Vec<(KvTensor<V::Num>, KvTensor<V::Num>)> = Vec::new();
        if n == 0 || self.blocks.len() == 0 {
            return pairs;
        }
        let mut x: V = self.embed(token_ids);
        let ghost mut xs: Seq<V> = seq![x];
        for i in 0..self.blocks.len()
            invariant
                n == token_ids@.len(),
                self.can_look_at(n as nat),
                xs.len() == i + 1,
                xs.last() == x,
                pairs@.len() == i,
                self.embeds(token_ids@, xs[0]),
                forall|j: int|
                    0 <= j < i ==> (#[trigger] self.blocks@[j]).gives(
                        xs[j],
                        n,
                        false,
                        xs[j + 1],
                    ),
                forall|j: int|
                    0 <= j < i ==> self.caches(j, n, xs[j], #[trigger] pairs@[j]),
        {
            assert(self.blocks@[i as int].attn.sizes(n).valid());
            pairs.push(self.cache_block(i, n, &x));
            x = self.blocks[i].forward_positions(&x, n, false);
            proof {
                xs = xs.push(x);
            }
        }
        assert(self.flows(token_ids@, false, xs));
        pairs
    }

    /// Replaces what a cache holds by the keys and values of some tokens. Where what the model
    /// computes does not fit the cache, it stays as it is, and the answer is no.
    pub fn prefill_kv_cache(&self, token_ids: &[usize], cache: &mut KvCache<V::Num>) -> (done: bool)
        requires
            old(cache).well_formed(),
            old(cache).layout() == self.layout(),
            self.can_look_at(token_ids@.len()),
        ensures
            final(cache).well_formed(),
            final(cache).layout() == old(cache).layout(),
            exists|pairs: Seq<(KvTensor<V::Num>, KvTensor<V::Num>)>|
                {
                    &&& #[trigger] self.projects(token_ids@, pairs)
                    &&& done == kv_cache::can_fill(pairs, self.layout())
                    &&& if done {
                        kv_cache::is_filled(*final(cache), pairs)
                    } else {
                        *final(cache) == *old(cache)
                    }
                },
    {
        let pairs = self.project(token_ids);
        assert(self.projects(token_ids@, pairs@));
        if !can_fill_with(&pairs, cache.spec()) {
            return false;
        }
        cache.fill(pairs);
        true
    }
}

/// The weights of a [`GPT`] as it is made have names that its number of blocks tells, and there
/// is a weight for each name.
pub proof fn law_new_gpt_names<V: Operand>(model: GPT<V>, sizes: ModelSizes)
    requires
        model.is_new(sizes),
    ensures
        model.names() == params::gpt(sizes.n_layer as nat),
        model.weights().len() == model.names().len(),
{
    lemma_new_transformer_blocks(model.blocks@, sizes);
}

proof fn lemma_new_transformer_blocks<V: Operand>(blocks: Seq<TransformerBlock<V>>, sizes: ModelSizes)
    requires
        forall|i: int|
            0 <= i < blocks.len() ==> (#[trigger] blocks[i]).is_new(
                sizes.d_model,
                sizes.n_head,
                sizes.d_ff,
            ),
    ensures
        transformer_names(blocks) == params::gpt_blocks(blocks.len()),
        transformer_weights(blocks).len() == transformer_names(blocks).len(),
    decreases blocks.len(),
{
    if blocks.len() > 0 {
        lemma_new_transformer_blocks(blocks.drop_last(), sizes);
        assert(blocks.last().is_new(sizes.d_model, sizes.n_head, sizes.d_ff));
    }
}

/// The weights of a [`QwenLikeGPT`] as it is made have names that its number of blocks tells, and there
/// is a weight for each name.
pub proof fn law_new_qwen_like_gpt_names<V: Operand>(model: QwenLikeGPT<V>, sizes: ModelSizes)
    requires
        model.is_new(sizes),
    ensures
        model.names() == params::qwen_like_gpt(sizes.n_layer as nat),
        model.weights().len() == model.names().len(),
{
    lemma_new_qwen_like_blocks(model.blocks@, sizes);
}

proof fn lemma_new_qwen_like_blocks<V: Operand>(blocks: Seq<QwenLikeBlock<V>>, sizes: ModelSizes)
    requires
        forall|i: int|
            0 <= i < blocks.len() ==> (#[trigger] blocks[i]).is_new(
                sizes.d_model,
                sizes.n_head,
                sizes.d_ff,
            ),
    ensures
        qwen_like_names(blocks) == params::qwen_like_blocks(blocks.len()),
        qwen_like_weights(blocks).len() == qwen_like_names(blocks).len(),
    decreases blocks.len(),
{
    if blocks.len() > 0 {
        lemma_new_qwen_like_blocks(blocks.drop_last(), sizes);
        assert(blocks.last().is_new(sizes.d_model, sizes.n_head, sizes.d_ff));
    }
}

/// What the blocks see of a token is its row plus that of its position, over real numbers.
pub proof fn law_tokens_are_placed<V: Operand>(
    reading: ArrayReading<V>,
    model: GPT<V>,
    tokens: Seq<usize>,
    x: V,
    vocab: int,
    d_model: int,
)
    requires
        reading.is_faithful(),
        reading.is_matrix(model.token_emb.weight, vocab, d_model),
        reading.is_matrix(model.pos_emb.weight, model.seq_len as int, d_model),
        tokens.len() <= model.seq_len,
        forall|i: int| 0 <= i < tokens.len() ==> (#[trigger] tokens[i]) < vocab,
        model.embeds(tokens, x),
    ensures
        reading.is_matrix(x, tokens.len() as int, d_model),
        forall|i: int, j: int|
            0 <= i < tokens.len() && 0 <= j < d_model ==> #[trigger] reading.at(x, i, j)
                == reading.at(model.token_emb.weight, tokens[i] as int, j) + reading.at(
                model.pos_emb.weight,
                i,
                j,
            ),
{
    let (rows, places) = choose|rows: V, places: V|
        {
            &&& model.token_emb.gives(tokens, rows)
            &&& model.pos_emb.gives(positions(tokens.len()), places)
            &&& #[trigger] V::added.ensures((&rows, &places), x)
        };
    layers::law_embeddings_look_rows_up(reading, model.token_emb, tokens, rows, vocab, d_model);
    layers::law_embeddings_look_rows_up(
        reading,
        model.pos_emb,
        positions(tokens.len()),
        places,
        model.seq_len as int,
        d_model,
    );
    reading.lemma_added(rows, places, x, tokens.len() as int, d_model);
}

} // verus!
