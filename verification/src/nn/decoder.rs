//! Generation with a model: what it says of the tokens so far decides, by chance, what follows.

use super::choice;
use super::choice::sample_token;
use super::constrained;
use super::constrained::{decode_constrained_inner, generate_constrained_inner};
use super::kv_cache;
use super::kv_cache::{KvCache, KvCacheSpec, KvTensor};
use super::models::{QwenLikeGPT, GPT};
use super::operand::Operand;
use super::sampling;
use super::sampling::TokenCandidate;
use super::scheduler::InferenceBatch;
use super::session;
use super::session::{
    decode_batch_round_with, InferenceBatchState, InferenceBatchStep, InferenceSession, Projector,
    Samplers,
};
use super::state;
use super::state::{
    decode_next_token_inner, generate_with_config_inner, DecodeStep, GenerationConfig,
    InferenceState, Sampled, Sampler, TokenState,
};
use super::trie::TokenConstraint;
use crate::tensor::number::Number;
use vstd::prelude::*;

verus! {

/// A model that scores what may follow some tokens.
pub trait AutoregressiveForward<V: Operand>: Sized {
    /// Whether `scores` is what the model may say of some tokens.
    open spec fn says(&self, tokens: Seq<usize>, scores: V) -> bool {
        true
    }

    /// Whether the model can look at `n` tokens.
    open spec fn can_read(&self, n: nat) -> bool {
        true
    }

    /// The greatest number of tokens that the model looks at.
    open spec fn window(&self) -> usize {
        arbitrary()
    }

    /// The greatest number of tokens that the model looks at.
    fn max_context_len(&self) -> (n: usize)
        ensures
            n == self.window(),
    ;

    /// The scores that follow every one of the tokens.
    fn forward_token_ids(&self, token_ids: &[usize]) -> (scores: V)
        requires
            self.can_read(token_ids@.len()),
        ensures
            self.says(token_ids@, scores),
    ;
}

impl<V: Operand> AutoregressiveForward<V> for GPT<V> {
    open spec fn says(&self, tokens: Seq<usize>, scores: V) -> bool {
        self.gives(tokens, scores)
    }

    open spec fn can_read(&self, n: nat) -> bool {
        self.can_look_at(n)
    }

    open spec fn window(&self) -> usize {
        self.seq_len
    }

    fn max_context_len(&self) -> (n: usize) {
        self.seq_len
    }

    fn forward_token_ids(&self, token_ids: &[usize]) -> (scores: V) {
        self.forward_ids(token_ids)
    }
}

impl<V: Operand> AutoregressiveForward<V> for QwenLikeGPT<V> {
    open spec fn says(&self, tokens: Seq<usize>, scores: V) -> bool {
        self.gives(tokens, scores)
    }

    open spec fn can_read(&self, n: nat) -> bool {
        self.can_look_at(n)
    }

    open spec fn window(&self) -> usize {
        self.seq_len
    }

    fn max_context_len(&self) -> (n: usize) {
        self.seq_len
    }

    fn forward_token_ids(&self, token_ids: &[usize]) -> (scores: V) {
        self.forward_ids(token_ids)
    }
}

/// Whether `logits` are the bits of some numbers.
pub open spec fn are_bits<T: Number>(numbers: Seq<T>, logits: Seq<u32>) -> bool {
    &&& logits.len() == numbers.len()
    &&& forall|i: int|
        0 <= i < logits.len() ==> T::to_bits.ensures((numbers[i],), #[trigger] logits[i])
}

/// The bits of some numbers.
fn bits_of<T: Number>(numbers: &Vec<T>) -> (logits: Vec<u32>)
    ensures
        are_bits(numbers@, logits@),
{
    let mut logits: Vec<u32> = Vec::new();
    for i in 0..numbers.len()
        invariant
            are_bits(numbers@.take(i as int), logits@),
    {
        let bits: u32 = numbers[i].to_bits();
        assert(T::to_bits.ensures((numbers@[i as int],), bits));
        logits.push(bits);
        assert(are_bits(numbers@.take(i + 1), logits@)) by {
            assert forall|j: int| 0 <= j < logits@.len() implies T::to_bits.ensures(
                (numbers@.take(i + 1)[j],),
                #[trigger] logits@[j],
            ) by {
                assert(j < i ==> numbers@.take(i as int)[j] == numbers@.take(i + 1)[j]);
            }
        }
    }
    assert(numbers@.take(numbers@.len() as int) =~= numbers@);
    logits
}

/// Whether `logits` are the bits of the elements of `scores`.
pub open spec fn is_read<V: Operand>(scores: V, logits: Seq<u32>) -> bool {
    exists|numbers: Vec<V::Num>| #[trigger]
        V::elements.ensures((&scores,), numbers) && are_bits(numbers@, logits)
}

/// Whether `found` is what the model and chance make of the state `shown`: the model scores what
/// it sees of the tokens, the scores of the last position that the constraint leaves in become
/// candidates, and chance falls on one of them.
pub open spec fn finds<V: Operand, M: AutoregressiveForward<V>, R: Fn() -> V::Num>(
    model: M,
    chance: R,
    config: GenerationConfig,
    allowed: Option<Vec<usize>>,
    shown: TokenState,
    found: Sampled<TokenCandidate<V::Num>>,
) -> bool {
    exists|scores: V, logits: Seq<u32>, threshold: V::Num|
        {
            &&& model.says(shown.context(), scores)
            &&& #[trigger] is_read(scores, logits)
            &&& #[trigger] chance.ensures((), threshold)
            &&& sampling::are_candidates(
                choice::masked(choice::last_row(logits, config.vocab_size), allowed),
                config,
                shown.tokens,
                found.candidates@,
            )
            &&& choice::falls_on(found.candidates@, threshold, found.choice)
        }
}

/// What the model and chance may find under a configuration.
pub open spec fn finder<V: Operand, M: AutoregressiveForward<V>, R: Fn() -> V::Num>(
    model: M,
    chance: R,
    config: GenerationConfig,
) -> Sampler<TokenCandidate<V::Num>> {
    |shown: TokenState, found: Sampled<TokenCandidate<V::Num>>|
        finds::<V, M, R>(model, chance, config, None, shown, found)
}

/// What the model and chance may find under a configuration and a constraint, which is asked about
/// what was generated so far.
pub open spec fn finder_within<
    V: Operand,
    M: AutoregressiveForward<V>,
    K: TokenConstraint,
    R: Fn() -> V::Num,
>(model: M, chance: R, constraint: K, config: GenerationConfig) -> Sampler<
    TokenCandidate<V::Num>,
> {
    |shown: TokenState, found: Sampled<TokenCandidate<V::Num>>|
        exists|allowed: Option<Vec<usize>>|
            {
                &&& constraint.answers(shown.generated(), allowed)
                &&& #[trigger] finds::<V, M, R>(model, chance, config, allowed, shown, found)
            }
}

/// Whether the model scores at least a vocabulary, whatever tokens it looks at.
pub open spec fn scores_all<V: Operand, M: AutoregressiveForward<V>>(
    model: &M,
    vocab_size: usize,
) -> bool {
    &&& vocab_size > 0
    &&& forall|tokens: Seq<usize>, scores: V, logits: Seq<u32>|
        0 < tokens.len() <= model.window() && #[trigger] model.says(tokens, scores)
            && #[trigger] is_read(scores, logits) ==> vocab_size <= logits.len()
}

/// Whether the model can look at what a state shows it.
pub open spec fn can_see<V: Operand, M: AutoregressiveForward<V>>(
    model: &M,
    shown: TokenState,
) -> bool {
    &&& shown.well_formed()
    &&& shown.tokens.len() > 0
    &&& shown.context().len() <= model.window()
    &&& model.can_read(shown.context().len())
}

/// Asks the model what it says of a state, and chance which candidate to take.
fn ask<V: Operand, M: AutoregressiveForward<V>, R: Fn() -> V::Num>(
    model: &M,
    state: &InferenceState,
    config: &GenerationConfig,
    allowed: &Option<Vec<usize>>,
    chance: &R,
) -> (found: Sampled<TokenCandidate<V::Num>>)
    requires
        can_see::<V, M>(model, state@),
        scores_all::<V, M>(model, config.vocab_size),
        chance.requires(()),
    ensures
        finds::<V, M, R>(*model, *chance, *config, *allowed, state@, found),
{
    let scores: V = model.forward_token_ids(state.context());
    let numbers: Vec<V::Num> = scores.elements();
    let logits: Vec<u32> = bits_of(&numbers);
    assert(V::elements.ensures((&scores,), numbers));
    assert(is_read(scores, logits@));
    assert(model.says(state@.context(), scores));
    let threshold: V::Num = chance();
    assert(chance.ensures((), threshold));
    sample_token(logits.as_slice(), config, state.tokens(), allowed, threshold)
}

/// Whether the model can look at up to as many tokens as it says.
pub open spec fn reads_window<V: Operand, M: AutoregressiveForward<V>>(model: M) -> bool {
    &&& model.window() > 0
    &&& forall|n: nat| n <= model.window() ==> #[trigger] model.can_read(n)
}

/// A model that can look at as many tokens as it holds can look at fewer.
pub proof fn law_gpt_reads_its_window<V: Operand>(model: GPT<V>)
    requires
        model.seq_len > 0,
        model.can_look_at(model.seq_len as nat),
    ensures
        reads_window::<V, GPT<V>>(model),
{
    assert forall|n: nat| n <= model.window() implies #[trigger] model.can_read(n) by {
        assert forall|i: int| 0 <= i < model.blocks@.len() implies (
        #[trigger] model.blocks@[i]).attn.sizes(n as usize).valid() by {
            lemma_fewer_scores(model.blocks@[i].attn.n_head, n as usize, model.seq_len);
            assert(model.blocks@[i].attn.sizes(model.seq_len).valid());
        }
    }
}

/// A model that can look at as many tokens as it holds can look at fewer.
pub proof fn law_qwen_like_gpt_reads_its_window<V: Operand>(model: QwenLikeGPT<V>)
    requires
        model.seq_len > 0,
        model.can_look_at(model.seq_len as nat),
    ensures
        reads_window::<V, QwenLikeGPT<V>>(model),
{
    assert forall|n: nat| n <= model.window() implies #[trigger] model.can_read(n) by {
        assert forall|i: int| 0 <= i < model.blocks@.len() implies (
        #[trigger] model.blocks@[i]).attn.sizes(n as usize).valid() by {
            lemma_fewer_scores(model.blocks@[i].attn.n_head, n as usize, model.seq_len);
            assert(model.blocks@[i].attn.sizes(model.seq_len).valid());
        }
    }
}

/// Fewer positions have fewer scores.
proof fn lemma_fewer_scores(heads: usize, n: usize, m: usize)
    by (nonlinear_arith)
    requires
        n <= m,
    ensures
        heads * n * n <= heads * m * m,
{
}

/// Generates one token with a model.
fn decode_by<V: Operand, M: AutoregressiveForward<V>, R: Fn() -> V::Num>(
    model: &M,
    state: &mut InferenceState,
    config: &GenerationConfig,
    chance: &R,
) -> (step: DecodeStep<TokenCandidate<V::Num>>)
    requires
        old(state)@.well_formed(),
        config.vocab_size > 0,
        !old(state)@.ended(*config) ==> can_see::<V, M>(model, old(state)@) && scores_all::<
            V,
            M,
        >(model, config.vocab_size),
        chance.requires(()),
    ensures
        final(state)@.well_formed(),
        state::is_decoded(
            finder::<V, M, R>(*model, *chance, *config),
            *config,
            old(state)@,
            step,
            final(state)@,
        ),
{
    let sample = |s: &InferenceState, c: &GenerationConfig| -> (found: Sampled<
        TokenCandidate<V::Num>,
    >)
        requires
            can_see::<V, M>(model, s@),
            scores_all::<V, M>(model, c.vocab_size),
        ensures
            finds::<V, M, R>(*model, *chance, *c, None, s@, found),
        { ask::<V, M, R>(model, s, c, &None, chance) };
    let step = decode_next_token_inner(state, config, &sample);
    proof {
        state::lemma_wider_step(
            state::samples(sample, *config),
            finder::<V, M, R>(*model, *chance, *config),
            *config,
            old(state)@,
            step,
            state@,
        );
    }
    step
}

/// Whether a model can generate after a prompt. It is not asked where nothing is to be generated,
/// or where the prompt has ended.
pub open spec fn can_generate<V: Operand, M: AutoregressiveForward<V>>(
    model: &M,
    prompt: Seq<usize>,
    config: GenerationConfig,
) -> bool {
    &&& config.vocab_size > 0
    &&& model.window() > 0
    &&& config.max_new_tokens > 0 && !state::ends_with(prompt, config.eos_token_id) ==> {
        &&& prompt.len() > 0
        &&& reads_window::<V, M>(*model)
        &&& scores_all::<V, M>(model, config.vocab_size)
    }
}

/// Generates tokens after a prompt with a model.
fn generate_by<V: Operand, M: AutoregressiveForward<V>, R: Fn() -> V::Num>(
    model: &M,
    prompt: &[usize],
    config: &GenerationConfig,
    chance: &R,
) -> (tokens: Vec<usize>)
    requires
        can_generate::<V, M>(model, prompt@, *config),
        chance.requires(()),
    ensures
        state::is_generated(
            finder::<V, M, R>(*model, *chance, *config),
            *config,
            state::start_state(prompt@, model.window()),
            tokens@,
        ),
{
    let sample = |s: &InferenceState, c: &GenerationConfig| -> (found: Sampled<
        TokenCandidate<V::Num>,
    >)
        requires
            can_see::<V, M>(model, s@),
            scores_all::<V, M>(model, c.vocab_size),
        ensures
            finds::<V, M, R>(*model, *chance, *c, None, s@, found),
        { ask::<V, M, R>(model, s, c, &None, chance) };
    let max_context: usize = model.max_context_len();
    proof {
        if config.max_new_tokens > 0 && !state::ends_with(prompt@, config.eos_token_id) {
            let start = state::start_state(prompt@, max_context);
            assert forall|s: &InferenceState|
                state::may_follow(start, s@) implies #[trigger] sample.requires((s, config)) by {
                lemma_sees_what_follows::<V, M>(*model, start, s@);
            }
        }
    }
    let tokens: Vec<usize> = generate_with_config_inner(prompt, max_context, config, &sample);
    proof {
        state::lemma_wider_sampler(
            state::samples(sample, *config),
            finder::<V, M, R>(*model, *chance, *config),
            *config,
            state::start_state(prompt@, max_context),
            tokens@,
        );
    }
    tokens
}

/// A model can look at whatever follows a prompt.
proof fn lemma_sees_what_follows<V: Operand, M: AutoregressiveForward<V>>(
    model: M,
    start: TokenState,
    later: TokenState,
)
    requires
        reads_window::<V, M>(model),
        start.tokens.len() > 0,
        start.max_context <= model.window(),
        state::may_follow(start, later),
    ensures
        can_see::<V, M>(&model, later),
{
    state::law_context_is_a_recent_window(later);
    assert(model.can_read(later.context().len()));
}

/// The configuration of a generation with a temperature and a greatest number of candidates.
pub open spec fn sampling_config(
    max_new_tokens: usize,
    vocab_size: usize,
    temperature: u32,
    top_k: usize,
) -> GenerationConfig {
    GenerationConfig {
        max_new_tokens,
        vocab_size,
        temperature,
        top_k,
        top_p: state::ONE_BITS,
        repetition_penalty: state::ONE_BITS,
        eos_token_id: None,
    }
}

/// Generates one token.
pub fn decode_next_token<V: Operand, R: Fn() -> V::Num>(
    model: &GPT<V>,
    state: &mut InferenceState,
    config: &GenerationConfig,
    chance: &R,
) -> (step: DecodeStep<TokenCandidate<V::Num>>)
    requires
        old(state)@.well_formed(),
        config.vocab_size > 0,
        !old(state)@.ended(*config) ==> can_see::<V, GPT<V>>(model, old(state)@) && scores_all::<
            V,
            GPT<V>,
        >(model, config.vocab_size),
        chance.requires(()),
    ensures
        final(state)@.well_formed(),
        state::is_decoded(
            finder::<V, GPT<V>, R>(*model, *chance, *config),
            *config,
            old(state)@,
            step,
            final(state)@,
        ),
{
    decode_by::<V, GPT<V>, R>(model, state, config, chance)
}

/// Generates one token.
pub fn decode_qwen_like_next_token<V: Operand, R: Fn() -> V::Num>(
    model: &QwenLikeGPT<V>,
    state: &mut InferenceState,
    config: &GenerationConfig,
    chance: &R,
) -> (step: DecodeStep<TokenCandidate<V::Num>>)
    requires
        old(state)@.well_formed(),
        config.vocab_size > 0,
        !old(state)@.ended(*config) ==> can_see::<V, QwenLikeGPT<V>>(model, old(state)@) && scores_all::<
            V,
            QwenLikeGPT<V>,
        >(model, config.vocab_size),
        chance.requires(()),
    ensures
        final(state)@.well_formed(),
        state::is_decoded(
            finder::<V, QwenLikeGPT<V>, R>(*model, *chance, *config),
            *config,
            old(state)@,
            step,
            final(state)@,
        ),
{
    decode_by::<V, QwenLikeGPT<V>, R>(model, state, config, chance)
}

/// Generates tokens after a prompt.
pub fn generate_with_config<V: Operand, R: Fn() -> V::Num>(
    model: &GPT<V>,
    prompt: &[usize],
    config: GenerationConfig,
    chance: &R,
) -> (tokens: Vec<usize>)
    requires
        can_generate::<V, GPT<V>>(model, prompt@, config),
        chance.requires(()),
    ensures
        state::is_generated(
            finder::<V, GPT<V>, R>(*model, *chance, config),
            config,
            state::start_state(prompt@, model.seq_len),
            tokens@,
        ),
{
    generate_by::<V, GPT<V>, R>(model, prompt, &config, chance)
}

/// Generates tokens after a prompt.
pub fn generate_qwen_like_with_config<V: Operand, R: Fn() -> V::Num>(
    model: &QwenLikeGPT<V>,
    prompt: &[usize],
    config: GenerationConfig,
    chance: &R,
) -> (tokens: Vec<usize>)
    requires
        can_generate::<V, QwenLikeGPT<V>>(model, prompt@, config),
        chance.requires(()),
    ensures
        state::is_generated(
            finder::<V, QwenLikeGPT<V>, R>(*model, *chance, config),
            config,
            state::start_state(prompt@, model.seq_len),
            tokens@,
        ),
{
    generate_by::<V, QwenLikeGPT<V>, R>(model, prompt, &config, chance)
}

/// Generates tokens after a prompt, the best one at every step.
pub fn generate_greedy<V: Operand, R: Fn() -> V::Num>(
    model: &GPT<V>,
    prompt: &[usize],
    max_new_tokens: usize,
    vocab_size: usize,
    chance: &R,
) -> (tokens: Vec<usize>)
    requires
        can_generate::<V, GPT<V>>(
            model,
            prompt@,
            sampling_config(max_new_tokens, vocab_size, state::ONE_BITS, 1),
        ),
        chance.requires(()),
    ensures
        ({
            let config = sampling_config(max_new_tokens, vocab_size, state::ONE_BITS, 1);
            state::is_generated(
                finder::<V, GPT<V>, R>(*model, *chance, config),
                config,
                state::start_state(prompt@, model.seq_len),
                tokens@,
            )
        }),
{
    let config = GenerationConfig::greedy(max_new_tokens, vocab_size);
    generate_with_config(model, prompt, config, chance)
}

/// Generates tokens after a prompt, each by chance from the best candidates. The temperature is
/// given by its bits.
pub fn generate_with_sampling<V: Operand, R: Fn() -> V::Num>(
    model: &GPT<V>,
    prompt: &[usize],
    max_new_tokens: usize,
    vocab_size: usize,
    temperature: u32,
    top_k: usize,
    chance: &R,
) -> (tokens: Vec<usize>)
    requires
        can_generate::<V, GPT<V>>(
            model,
            prompt@,
            sampling_config(max_new_tokens, vocab_size, temperature, top_k),
        ),
        chance.requires(()),
    ensures
        ({
            let config = sampling_config(max_new_tokens, vocab_size, temperature, top_k);
            state::is_generated(
                finder::<V, GPT<V>, R>(*model, *chance, config),
                config,
                state::start_state(prompt@, model.seq_len),
                tokens@,
            )
        }),
{
    let config = GenerationConfig {
        temperature,
        top_k,
        ..GenerationConfig::new(max_new_tokens, vocab_size)
    };
    generate_with_config(model, prompt, config, chance)
}

/// Generates one token under a constraint.
pub fn decode_constrained_next_token<V: Operand, K: TokenConstraint, R: Fn() -> V::Num>(
    model: &GPT<V>,
    state: &mut InferenceState,
    config: &GenerationConfig,
    constraint: &K,
    chance: &R,
) -> (step: DecodeStep<TokenCandidate<V::Num>>)
    requires
        old(state)@.well_formed(),
        config.vocab_size > 0,
        !old(state)@.ended(*config) ==> can_see::<V, GPT<V>>(model, old(state)@) && scores_all::<
            V,
            GPT<V>,
        >(model, config.vocab_size),
        constraint.ready(),
        chance.requires(()),
    ensures
        final(state)@.well_formed(),
        state::is_decoded(
            finder_within::<V, GPT<V>, K, R>(*model, *chance, *constraint, *config),
            *config,
            old(state)@,
            step,
            final(state)@,
        ),
{
    let sample = |s: &InferenceState, c: &GenerationConfig, allowed: &Option<Vec<usize>>| -> (found:
        Sampled<TokenCandidate<V::Num>>)
        requires
            can_see::<V, GPT<V>>(model, s@),
            scores_all::<V, GPT<V>>(model, c.vocab_size),
        ensures
            finds::<V, GPT<V>, R>(*model, *chance, *c, *allowed, s@, found),
        { ask::<V, GPT<V>, R>(model, s, c, allowed, chance) };
    let step = decode_constrained_inner(state, config, constraint, &sample);
    proof {
        state::lemma_wider_step(
            constrained::samples_within(*constraint, sample, *config),
            finder_within::<V, GPT<V>, K, R>(*model, *chance, *constraint, *config),
            *config,
            old(state)@,
            step,
            state@,
        );
    }
    step
}

/// Generates tokens after a prompt under a constraint, each by chance from the best candidates.
/// The temperature is given by its bits.
pub fn generate_constrained<V: Operand, K: TokenConstraint, R: Fn() -> V::Num>(
    model: &GPT<V>,
    prompt: &[usize],
    max_new_tokens: usize,
    vocab_size: usize,
    temperature: u32,
    top_k: usize,
    constraint: &K,
    chance: &R,
) -> (tokens: Vec<usize>)
    requires
        can_generate::<V, GPT<V>>(
            model,
            prompt@,
            sampling_config(max_new_tokens, vocab_size, temperature, top_k),
        ),
        constraint.ready(),
        chance.requires(()),
    ensures
        ({
            let config = sampling_config(max_new_tokens, vocab_size, temperature, top_k);
            state::is_generated(
                finder_within::<V, GPT<V>, K, R>(*model, *chance, *constraint, config),
                config,
                state::start_state(prompt@, model.seq_len),
                tokens@,
            )
        }),
{
    let config = GenerationConfig {
        temperature,
        top_k,
        ..GenerationConfig::new(max_new_tokens, vocab_size)
    };
    let sample = |s: &InferenceState, c: &GenerationConfig, allowed: &Option<Vec<usize>>| -> (found:
        Sampled<TokenCandidate<V::Num>>)
        requires
            can_see::<V, GPT<V>>(model, s@),
            scores_all::<V, GPT<V>>(model, c.vocab_size),
        ensures
            finds::<V, GPT<V>, R>(*model, *chance, *c, *allowed, s@, found),
        { ask::<V, GPT<V>, R>(model, s, c, allowed, chance) };
    let ghost start = state::start_state(prompt@, model.seq_len);
    proof {
        if max_new_tokens > 0 {
            assert forall|later: TokenState|
                state::may_follow(start, later) implies #[trigger] constrained::can_sample_within(
                sample,
                config,
                later,
            ) by {
                lemma_sees_what_follows::<V, GPT<V>>(*model, start, later);
            }
        }
    }
    let tokens: Vec<usize> = generate_constrained_inner(
        prompt,
        model.seq_len,
        &config,
        constraint,
        &sample,
    );
    proof {
        state::lemma_wider_sampler(
            constrained::samples_within(*constraint, sample, config),
            finder_within::<V, GPT<V>, K, R>(*model, *chance, *constraint, config),
            config,
            start,
            tokens@,
        );
    }
    tokens
}

/// A token that a constraint leaves out never follows, as long as scaling leaves minus infinity
/// without a finite score.
pub proof fn law_constraints_are_obeyed<
    V: Operand,
    M: AutoregressiveForward<V>,
    K: TokenConstraint,
    R: Fn() -> V::Num,
>(
    model: M,
    chance: R,
    constraint: K,
    config: GenerationConfig,
    shown: TokenState,
    found: Sampled<TokenCandidate<V::Num>>,
)
    requires
        can_see::<V, M>(&model, shown),
        scores_all::<V, M>(&model, config.vocab_size),
        forall|seen: bool, penalty: V::Num, temperature: V::Num, score: u32| #[trigger]
            sampling::is_score(choice::LEFT_OUT_BITS, seen, penalty, temperature, score)
                ==> sampling::key_of(score) is None,
        finder_within::<V, M, K, R>(model, chance, constraint, config)(shown, found),
    ensures
        exists|allowed: Option<Vec<usize>>|
            {
                &&& #[trigger] constraint.answers(shown.generated(), allowed)
                &&& found.choice matches Some(token) ==> constrained::leaves_in(allowed, token)
            },
{
    let allowed = choose|allowed: Option<Vec<usize>>|
        {
            &&& constraint.answers(shown.generated(), allowed)
            &&& #[trigger] finds::<V, M, R>(model, chance, config, allowed, shown, found)
        };
    let (scores, logits, threshold) = choose|scores: V, logits: Seq<u32>, threshold: V::Num|
        {
            &&& model.says(shown.context(), scores)
            &&& #[trigger] is_read(scores, logits)
            &&& #[trigger] chance.ensures((), threshold)
            &&& sampling::are_candidates(
                choice::masked(choice::last_row(logits, config.vocab_size), allowed),
                config,
                shown.tokens,
                found.candidates@,
            )
            &&& choice::falls_on(found.candidates@, threshold, found.choice)
        };
    let row = choice::last_row(logits, config.vocab_size);
    assert(0 < shown.context().len());
    assert(row.len() == config.vocab_size);
    choice::law_left_out_tokens_are_never_chosen(
        row,
        config,
        shown.tokens,
        allowed,
        threshold,
        found.candidates@,
        found.choice,
    );
    assert(constraint.answers(shown.generated(), allowed));
}

/// A model whose keys and values can be cached.
pub trait PrefillCache<V: Operand>: Sized {
    /// The layout of the cache that the model fills.
    open spec fn cache_layout(&self) -> KvCacheSpec {
        arbitrary()
    }

    /// Whether the model can look at `n` tokens.
    open spec fn can_project(&self, n: nat) -> bool {
        true
    }

    /// Whether `pairs` is what the model may cache of some tokens.
    open spec fn projects_to(
        &self,
        tokens: Seq<usize>,
        pairs: Seq<(KvTensor<V::Num>, KvTensor<V::Num>)>,
    ) -> bool {
        true
    }

    /// The layout of the cache that the model fills.
    fn kv_cache_spec(&self) -> (spec: KvCacheSpec)
        requires
            self.cache_layout().valid(),
        ensures
            spec == self.cache_layout(),
    ;

    /// The keys and values of all layers for some tokens.
    fn project(&self, token_ids: &[usize]) -> (pairs: Vec<(KvTensor<V::Num>, KvTensor<V::Num>)>)
        requires
            self.can_project(token_ids@.len()),
        ensures
            self.projects_to(token_ids@, pairs@),
    ;

    /// Replaces what a cache holds by the keys and values of some tokens. Where what the model
    /// computes does not fit the cache, it stays as it is, and the answer is no.
    fn prefill_kv_cache(&self, token_ids: &[usize], cache: &mut KvCache<V::Num>) -> (done: bool)
        requires
            old(cache).well_formed(),
            old(cache).layout() == self.cache_layout(),
            self.can_project(token_ids@.len()),
        ensures
            final(cache).well_formed(),
            final(cache).layout() == old(cache).layout(),
            exists|pairs: Seq<(KvTensor<V::Num>, KvTensor<V::Num>)>|
                {
                    &&& #[trigger] self.projects_to(token_ids@, pairs)
                    &&& done == kv_cache::can_fill(pairs, self.cache_layout())
                    &&& if done {
                        kv_cache::is_filled(*final(cache), pairs)
                    } else {
                        *final(cache) == *old(cache)
                    }
                },
    ;
}

impl<V: Operand> PrefillCache<V> for GPT<V> {
    open spec fn cache_layout(&self) -> KvCacheSpec {
        self.layout()
    }

    open spec fn can_project(&self, n: nat) -> bool {
        self.can_look_at(n)
    }

    open spec fn projects_to(
        &self,
        tokens: Seq<usize>,
        pairs: Seq<(KvTensor<V::Num>, KvTensor<V::Num>)>,
    ) -> bool {
        self.projects(tokens, pairs)
    }

    fn kv_cache_spec(&self) -> (spec: KvCacheSpec) {
        GPT::kv_cache_spec(self)
    }

    fn project(&self, token_ids: &[usize]) -> (pairs: Vec<
        (KvTensor<V::Num>, KvTensor<V::Num>),
    >) {
        GPT::project(self, token_ids)
    }

    fn prefill_kv_cache(&self, token_ids: &[usize], cache: &mut KvCache<V::Num>) -> (done: bool) {
        let done: bool = GPT::prefill_kv_cache(self, token_ids, cache);
        let ghost pairs = choose|pairs: Seq<(KvTensor<V::Num>, KvTensor<V::Num>)>|
            {
                &&& #[trigger] self.projects(token_ids@, pairs)
                &&& done == kv_cache::can_fill(pairs, self.layout())
                &&& if done {
                    kv_cache::is_filled(*cache, pairs)
                } else {
                    *cache == *old(cache)
                }
            };
        assert(self.projects_to(token_ids@, pairs));
        done
    }
}

impl<V: Operand> PrefillCache<V> for QwenLikeGPT<V> {
    open spec fn cache_layout(&self) -> KvCacheSpec {
        self.layout()
    }

    open spec fn can_project(&self, n: nat) -> bool {
        self.can_look_at(n)
    }

    open spec fn projects_to(
        &self,
        tokens: Seq<usize>,
        pairs: Seq<(KvTensor<V::Num>, KvTensor<V::Num>)>,
    ) -> bool {
        self.projects(tokens, pairs)
    }

    fn kv_cache_spec(&self) -> (spec: KvCacheSpec) {
        QwenLikeGPT::kv_cache_spec(self)
    }

    fn project(&self, token_ids: &[usize]) -> (pairs: Vec<
        (KvTensor<V::Num>, KvTensor<V::Num>),
    >) {
        QwenLikeGPT::project(self, token_ids)
    }

    fn prefill_kv_cache(&self, token_ids: &[usize], cache: &mut KvCache<V::Num>) -> (done: bool) {
        let done: bool = QwenLikeGPT::prefill_kv_cache(self, token_ids, cache);
        let ghost pairs = choose|pairs: Seq<(KvTensor<V::Num>, KvTensor<V::Num>)>|
            {
                &&& #[trigger] self.projects(token_ids@, pairs)
                &&& done == kv_cache::can_fill(pairs, self.layout())
                &&& if done {
                    kv_cache::is_filled(*cache, pairs)
                } else {
                    *cache == *old(cache)
                }
            };
        assert(self.projects_to(token_ids@, pairs));
        done
    }
}

/// What a model may cache of some tokens.
pub open spec fn caching<V: Operand, M: PrefillCache<V>>(model: M) -> Projector<V::Num> {
    |tokens: Seq<usize>, pairs: Seq<(KvTensor<V::Num>, KvTensor<V::Num>)>|
        model.projects_to(tokens, pairs)
}

/// Whether the model can look at up to `max` tokens, and what it computes of them fits its cache.
pub open spec fn caches_up_to<V: Operand, M: PrefillCache<V>>(model: &M, max: nat) -> bool {
    &&& forall|n: nat| n <= max ==> #[trigger] model.can_project(n)
    &&& forall|tokens: Seq<usize>, pairs: Seq<(KvTensor<V::Num>, KvTensor<V::Num>)>|
        tokens.len() <= max && #[trigger] model.projects_to(tokens, pairs) ==> kv_cache::can_fill(
            pairs,
            model.cache_layout(),
        )
}

/// Starts the requests of a batch, with their prompts cached by a model.
fn activate_by<V: Operand, M: PrefillCache<V>>(
    model: &M,
    batch: InferenceBatch,
) -> (state: InferenceBatchState<V::Num>)
    requires
        model.cache_layout().valid(),
        forall|i: int|
            0 <= i < batch.requests@.len() ==> caches_up_to::<V, M>(
                model,
                (#[trigger] batch.requests@[i]).prompt@.len(),
            ),
    ensures
        is_activated::<V, M>(*model, batch, state),
{
    let project = |ids: &[usize]| -> (pairs: Vec<(KvTensor<V::Num>, KvTensor<V::Num>)>)
        requires
            caches_up_to::<V, M>(model, ids@.len()),
        ensures
            model.projects_to(ids@, pairs@),
            kv_cache::can_fill(pairs@, model.cache_layout()),
        { model.project(ids) };
    let spec: KvCacheSpec = model.kv_cache_spec();
    let ghost requests = batch.requests@;
    proof {
        assert forall|i: int| 0 <= i < requests.len() implies session::projects_into(
            project,
            (#[trigger] requests[i]).prompt@.len(),
            spec,
        ) by {
            assert(caches_up_to::<V, M>(model, requests[i].prompt@.len()));
            assert forall|ids: &[usize]|
                ids@.len() <= requests[i].prompt@.len() implies #[trigger] project.requires(
                (ids,),
            ) by {
                assert(caches_up_to::<V, M>(model, ids@.len()));
            }
        }
    }
    let state = InferenceBatchState::from_batch_with_prefill(batch, spec, &project);
    proof {
        assert forall|i: int| 0 <= i < state.sessions@.len() implies session::holds_projection(
            (#[trigger] state.sessions@[i]).kv_cache,
            caching::<V, M>(*model),
            requests[i].prompt@,
        ) by {
            lemma_wider_projection(
                session::projections(project),
                caching::<V, M>(*model),
                state.sessions@[i].kv_cache,
                requests[i].prompt@,
            );
        }
    }
    state
}

/// A cache that holds what one projector gives holds what a wider one gives.
proof fn lemma_wider_projection<T>(
    narrow: Projector<T>,
    wide: Projector<T>,
    cache: KvCache<T>,
    tokens: Seq<usize>,
)
    requires
        session::holds_projection(cache, narrow, tokens),
        forall|shown: Seq<usize>, pairs: Seq<(KvTensor<T>, KvTensor<T>)>| #[trigger]
            narrow(shown, pairs) ==> wide(shown, pairs),
    ensures
        session::holds_projection(cache, wide, tokens),
{
    let pairs = choose|pairs: Seq<(KvTensor<T>, KvTensor<T>)>|
        {
            &&& #[trigger] narrow(tokens, pairs)
            &&& kv_cache::is_filled(cache, pairs)
        };
    assert(wide(tokens, pairs));
}

/// Whether `state` holds the requests of a batch at their start, with their prompts cached by the
/// model.
pub open spec fn is_activated<V: Operand, M: PrefillCache<V>>(
    model: M,
    batch: InferenceBatch,
    state: InferenceBatchState<V::Num>,
) -> bool {
    &&& state.well_formed()
    &&& state.has_layout(model.cache_layout())
    &&& state.sessions@.len() == batch.requests@.len()
    &&& forall|i: int|
        0 <= i < state.sessions@.len() ==> session::is_fresh(#[trigger] state.sessions@[i])
    &&& forall|i: int|
        0 <= i < state.sessions@.len() ==> (#[trigger] state.sessions@[i]).request
            == batch.requests@[i]
    &&& forall|i: int|
        0 <= i < state.sessions@.len() ==> session::holds_projection(
            (#[trigger] state.sessions@[i]).kv_cache,
            caching::<V, M>(model),
            batch.requests@[i].prompt@,
        )
}

/// Starts the requests of a batch, with their prompts cached by a model.
pub fn activate_inference_batch<V: Operand>(
    model: &GPT<V>,
    batch: InferenceBatch,
) -> (state: InferenceBatchState<V::Num>)
    requires
        model.layout().valid(),
        forall|i: int|
            0 <= i < batch.requests@.len() ==> caches_up_to::<V, GPT<V>>(
                model,
                (#[trigger] batch.requests@[i]).prompt@.len(),
            ),
    ensures
        is_activated::<V, GPT<V>>(*model, batch, state),
{
    activate_by::<V, GPT<V>>(model, batch)
}

/// Starts the requests of a batch, with their prompts cached by a model.
pub fn activate_qwen_like_inference_batch<V: Operand>(
    model: &QwenLikeGPT<V>,
    batch: InferenceBatch,
) -> (state: InferenceBatchState<V::Num>)
    requires
        model.layout().valid(),
        forall|i: int|
            0 <= i < batch.requests@.len() ==> caches_up_to::<V, QwenLikeGPT<V>>(
                model,
                (#[trigger] batch.requests@[i]).prompt@.len(),
            ),
    ensures
        is_activated::<V, QwenLikeGPT<V>>(*model, batch, state),
{
    activate_by::<V, QwenLikeGPT<V>>(model, batch)
}

/// What a model and chance may find, by the configuration of a request.
pub open spec fn finders<V: Operand, M: AutoregressiveForward<V>, R: Fn() -> V::Num>(
    model: M,
    chance: R,
) -> Samplers<TokenCandidate<V::Num>> {
    |config: GenerationConfig| finder::<V, M, R>(model, chance, config)
}

/// Whether a session can take a step with a model: one that is over, or has generated all its
/// tokens, does not ask it.
pub open spec fn can_step_with<V: Operand, M: AutoregressiveForward<V> + PrefillCache<V>>(
    model: &M,
    session: InferenceSession<V::Num>,
) -> bool {
    let config = session.request.config;
    !session.finished && session.generated_steps < config.max_new_tokens ==> {
        &&& config.vocab_size > 0
        &&& !session.state@.ended(config) ==> {
            &&& session.kv_cache.layout() == model.cache_layout()
            &&& caches_up_to::<V, M>(model, session.kv_cache.layout().max_context as nat)
            &&& scores_all::<V, M>(model, config.vocab_size)
            &&& can_see::<V, M>(model, session.state@)
        }
    }
}

/// Takes one step of every session that is not finished, with a model.
fn round_by<V: Operand, M: AutoregressiveForward<V> + PrefillCache<V>, R: Fn() -> V::Num>(
    model: &M,
    batch: &mut InferenceBatchState<V::Num>,
    chance: &R,
) -> (steps: Vec<InferenceBatchStep<TokenCandidate<V::Num>>>)
    requires
        old(batch).well_formed(),
        forall|i: int|
            0 <= i < old(batch).sessions@.len() ==> can_step_with::<V, M>(
                model,
                #[trigger] old(batch).sessions@[i],
            ),
        chance.requires(()),
    ensures
        final(batch).well_formed(),
        session::is_round(
            caching::<V, M>(*model),
            finders::<V, M, R>(*model, *chance),
            old(batch).sessions@,
            steps@,
            final(batch).sessions@,
        ),
{
    let project = |ids: &[usize]| -> (pairs: Vec<(KvTensor<V::Num>, KvTensor<V::Num>)>)
        requires
            caches_up_to::<V, M>(model, ids@.len()),
        ensures
            model.projects_to(ids@, pairs@),
            kv_cache::can_fill(pairs@, model.cache_layout()),
        { PrefillCache::<V>::project(model, ids) };
    let sample = |s: &InferenceState, c: &GenerationConfig| -> (found: Sampled<
        TokenCandidate<V::Num>,
    >)
        requires
            can_see::<V, M>(model, s@),
            scores_all::<V, M>(model, c.vocab_size),
        ensures
            finds::<V, M, R>(*model, *chance, *c, None, s@, found),
        { ask::<V, M, R>(model, s, c, &None, chance) };
    let ghost before = batch.sessions@;
    proof {
        reveal(session::can_advance);
        reveal(session::can_step);
        assert forall|i: int| 0 <= i < before.len() implies session::can_step(
            #[trigger] before[i],
            project,
            sample,
        ) by {
            assert(can_step_with::<V, M>(model, before[i]));
            assert forall|ids: &[usize]|
                caches_up_to::<V, M>(
                    model,
                    before[i].kv_cache.layout().max_context as nat,
                ) && ids@.len() <= before[i].kv_cache.layout().max_context implies
                #[trigger] project.requires((ids,)) by {
                assert(caches_up_to::<V, M>(model, ids@.len()));
            }
        }
    }
    let steps = decode_batch_round_with(batch, &project, &sample);
    proof {
        assert forall|i: int| 0 <= i < before.len() && !(#[trigger] before[i]).finished implies
            session::reports(
            caching::<V, M>(*model),
            finders::<V, M, R>(*model, *chance),
            before[i],
            steps@[session::active(before, i as nat) as int],
            batch.sessions@[i],
        ) by {
            session::lemma_wider_reports(
                session::projections(project),
                session::samples_by_config(sample),
                caching::<V, M>(*model),
                finders::<V, M, R>(*model, *chance),
                before[i],
                steps@[session::active(before, i as nat) as int],
                batch.sessions@[i],
            );
        }
    }
    steps
}

/// Takes one step of every session that is not finished.
pub fn decode_inference_batch_round<V: Operand, R: Fn() -> V::Num>(
    model: &GPT<V>,
    batch: &mut InferenceBatchState<V::Num>,
    chance: &R,
) -> (steps: Vec<InferenceBatchStep<TokenCandidate<V::Num>>>)
    requires
        old(batch).well_formed(),
        forall|i: int|
            0 <= i < old(batch).sessions@.len() ==> can_step_with::<V, GPT<V>>(
                model,
                #[trigger] old(batch).sessions@[i],
            ),
        chance.requires(()),
    ensures
        final(batch).well_formed(),
        session::is_round(
            caching::<V, GPT<V>>(*model),
            finders::<V, GPT<V>, R>(*model, *chance),
            old(batch).sessions@,
            steps@,
            final(batch).sessions@,
        ),
{
    round_by::<V, GPT<V>, R>(model, batch, chance)
}

/// Takes one step of every session that is not finished.
pub fn decode_qwen_like_inference_batch_round<V: Operand, R: Fn() -> V::Num>(
    model: &QwenLikeGPT<V>,
    batch: &mut InferenceBatchState<V::Num>,
    chance: &R,
) -> (steps: Vec<InferenceBatchStep<TokenCandidate<V::Num>>>)
    requires
        old(batch).well_formed(),
        forall|i: int|
            0 <= i < old(batch).sessions@.len() ==> can_step_with::<V, QwenLikeGPT<V>>(
                model,
                #[trigger] old(batch).sessions@[i],
            ),
        chance.requires(()),
    ensures
        final(batch).well_formed(),
        session::is_round(
            caching::<V, QwenLikeGPT<V>>(*model),
            finders::<V, QwenLikeGPT<V>, R>(*model, *chance),
            old(batch).sessions@,
            steps@,
            final(batch).sessions@,
        ),
{
    round_by::<V, QwenLikeGPT<V>, R>(model, batch, chance)
}

} // verus!
