//! The tokens of a generation and the control of its steps.

use vstd::prelude::*;
use vstd::slice::{slice_subrange, slice_to_vec};

verus! {

/// The bits of the single precision number one.
pub const ONE_BITS: u32 = 0x3f80_0000;

/// How long to generate, over which vocabulary, how to choose and where to stop. Numbers with a
/// fraction are single precision, given by their bits.
#[derive(Debug, Clone, Copy, PartialEq, Eq)]
pub struct GenerationConfig {
    /// The greatest number of new tokens.
    pub max_new_tokens: usize,
    /// The number of tokens of the vocabulary.
    pub vocab_size: usize,
    /// What scores are divided by.
    pub temperature: u32,
    /// How many of the best candidates stay; all if zero.
    pub top_k: usize,
    /// The share that the candidates that stay have together.
    pub top_p: u32,
    /// How much the scores of tokens that came before are lowered; not at all if one.
    pub repetition_penalty: u32,
    /// The token that ends a generation.
    pub eos_token_id: Option<usize>,
}

impl GenerationConfig {
    /// A configuration that keeps all candidates and knows no end token.
    pub fn new(max_new_tokens: usize, vocab_size: usize) -> (config: Self)
        ensures
            config == (GenerationConfig {
                max_new_tokens,
                vocab_size,
                temperature: ONE_BITS,
                top_k: 0,
                top_p: ONE_BITS,
                repetition_penalty: ONE_BITS,
                eos_token_id: None,
            }),
    {
        GenerationConfig {
            max_new_tokens,
            vocab_size,
            temperature: ONE_BITS,
            top_k: 0,
            top_p: ONE_BITS,
            repetition_penalty: ONE_BITS,
            eos_token_id: None,
        }
    }

    /// A configuration that keeps the best candidate only.
    pub fn greedy(max_new_tokens: usize, vocab_size: usize) -> (config: Self)
        ensures
            config == (GenerationConfig {
                max_new_tokens,
                vocab_size,
                temperature: ONE_BITS,
                top_k: 1,
                top_p: ONE_BITS,
                repetition_penalty: ONE_BITS,
                eos_token_id: None,
            }),
    {
        GenerationConfig {
            max_new_tokens,
            vocab_size,
            temperature: ONE_BITS,
            top_k: 1,
            top_p: ONE_BITS,
            repetition_penalty: ONE_BITS,
            eos_token_id: None,
        }
    }
}

/// The prompt and what was generated after it.
#[derive(Debug, PartialEq, Eq)]
pub struct InferenceState {
    tokens: Vec<usize>,
    prompt_len: usize,
    max_context: usize,
}

/// The content of an [`InferenceState`].
#[verifier::ext_equal]
pub struct TokenState {
    pub tokens: Seq<usize>,
    pub prompt_len: nat,
    pub max_context: nat,
}

impl TokenState {
    /// The prompt is part of the tokens, and the model sees at least one token.
    pub open spec fn well_formed(self) -> bool {
        self.prompt_len <= self.tokens.len() && self.max_context > 0
    }

    /// What was generated.
    pub open spec fn generated(self) -> Seq<usize> {
        self.tokens.skip(self.prompt_len as int)
    }

    /// What the model sees: the last tokens, as many as it can hold.
    pub open spec fn context(self) -> Seq<usize> {
        if self.tokens.len() > self.max_context {
            self.tokens.skip(self.tokens.len() - self.max_context)
        } else {
            self.tokens
        }
    }

    /// The state with one more token.
    pub open spec fn with_token(self, token: usize) -> TokenState {
        TokenState { tokens: self.tokens.push(token), ..self }
    }

    /// Whether the tokens end with the end token.
    pub open spec fn ended(self, config: GenerationConfig) -> bool {
        ends_with(self.tokens, config.eos_token_id)
    }
}

/// Whether `tokens` ends with the end token.
pub open spec fn ends_with(tokens: Seq<usize>, eos_token_id: Option<usize>) -> bool {
    eos_token_id matches Some(eos) && tokens.len() > 0 && tokens.last() == eos
}

/// Whether `tokens` ends with the end token.
pub fn prompt_ended(tokens: &[usize], eos_token_id: Option<usize>) -> (yes: bool)
    ensures
        yes == ends_with(tokens@, eos_token_id),
{
    match eos_token_id {
        Some(eos) => tokens.len() > 0 && tokens[tokens.len() - 1] == eos,
        None => false,
    }
}

impl View for InferenceState {
    type V = TokenState;

    closed spec fn view(&self) -> TokenState {
        TokenState {
            tokens: self.tokens@,
            prompt_len: self.prompt_len as nat,
            max_context: self.max_context as nat,
        }
    }
}

impl Clone for InferenceState {
    fn clone(&self) -> (copy: Self)
        ensures
            copy@ == self@,
    {
        InferenceState {
            tokens: slice_to_vec(self.tokens.as_slice()),
            prompt_len: self.prompt_len,
            max_context: self.max_context,
        }
    }
}

impl InferenceState {
    /// The state before anything was generated.
    pub fn new(prompt: &[usize], max_context: usize) -> (state: Self)
        requires
            max_context > 0,
        ensures
            state@.well_formed(),
            state@ == (TokenState {
                tokens: prompt@,
                prompt_len: prompt@.len(),
                max_context: max_context as nat,
            }),
    {
        InferenceState { tokens: slice_to_vec(prompt), prompt_len: prompt.len(), max_context }
    }

    /// Starts over with another prompt.
    pub fn reset(&mut self, prompt: &[usize])
        requires
            old(self)@.well_formed(),
        ensures
            final(self)@.well_formed(),
            final(self)@ == (TokenState {
                tokens: prompt@,
                prompt_len: prompt@.len(),
                max_context: old(self)@.max_context,
            }),
    {
        self.tokens = slice_to_vec(prompt);
        self.prompt_len = prompt.len();
    }

    /// Adds a generated token.
    pub fn push_token(&mut self, token: usize)
        ensures
            final(self)@ == old(self)@.with_token(token),
    {
        self.tokens.push(token);
    }

    /// The prompt and what was generated.
    pub fn tokens(&self) -> (tokens: &[usize])
        ensures
            tokens@ == self@.tokens,
    {
        self.tokens.as_slice()
    }

    /// What was generated.
    pub fn generated_tokens(&self) -> (tokens: &[usize])
        requires
            self@.well_formed(),
        ensures
            tokens@ == self@.generated(),
    {
        slice_subrange(self.tokens.as_slice(), self.prompt_len, self.tokens.len())
    }

    /// What the model sees.
    pub fn context(&self) -> (tokens: &[usize])
        ensures
            tokens@ == self@.context(),
    {
        if self.tokens.len() > self.max_context {
            slice_subrange(
                self.tokens.as_slice(),
                self.tokens.len() - self.max_context,
                self.tokens.len(),
            )
        } else {
            self.tokens.as_slice()
        }
    }

    /// The number of tokens of the prompt.
    pub fn prompt_len(&self) -> (n: usize)
        ensures
            n == self@.prompt_len,
    {
        self.prompt_len
    }

    /// The number of generated tokens.
    pub fn generated_len(&self) -> (n: usize)
        requires
            self@.well_formed(),
        ensures
            n == self@.generated().len(),
    {
        self.tokens.len() - self.prompt_len
    }

    /// The prompt and what was generated.
    pub fn into_tokens(self) -> (tokens: Vec<usize>)
        ensures
            tokens@ == self@.tokens,
    {
        self.tokens
    }
}

/// The model never sees more than it can hold, and what it sees are the latest tokens.
pub proof fn law_context_is_a_recent_window(state: TokenState)
    requires
        state.well_formed(),
    ensures
        state.context().len() <= state.max_context,
        state.tokens.len() <= state.max_context ==> state.context() == state.tokens,
        forall|i: int|
            0 <= i < state.context().len() ==> #[trigger] state.context()[i] == state.tokens[i
                + state.tokens.len() - state.context().len()],
{
}

/// Generating a token changes nothing of the prompt: it is added at the end of what was
/// generated.
pub proof fn law_tokens_are_added_at_the_end(state: TokenState, token: usize)
    requires
        state.well_formed(),
    ensures
        state.with_token(token).well_formed(),
        state.with_token(token).generated() == state.generated().push(token),
        state.with_token(token).tokens.take(state.prompt_len as int) == state.tokens.take(
            state.prompt_len as int,
        ),
{
    assert(state.with_token(token).generated() =~= state.generated().push(token));
    assert(state.with_token(token).tokens.take(state.prompt_len as int) =~= state.tokens.take(
        state.prompt_len as int,
    ));
}

/// Why a step did not lead to another.
#[derive(Debug, Clone, Copy, PartialEq, Eq, Structural)]
pub enum DecodeStopReason {
    /// It did: a token was generated, and more may follow.
    NotStopped,
    /// The tokens had ended before the step.
    AlreadyEnded,
    /// No token was left to choose from.
    NoCandidates,
    /// The end token was generated.
    EosToken,
    /// As many tokens were generated as were asked for.
    MaxNewTokens,
}

/// What a step did.
#[derive(Debug, Clone, PartialEq, Eq)]
pub struct DecodeStep<C> {
    pub token_id: Option<usize>,
    pub candidates: Vec<C>,
    pub finished: bool,
    pub stop_reason: DecodeStopReason,
}

/// What a sampler found: the candidates, and the one that it chose, if any.
#[derive(Debug, Clone, PartialEq, Eq)]
pub struct Sampled<C> {
    pub candidates: Vec<C>,
    pub choice: Option<usize>,
}

/// The step that ends at once, for a reason known before.
pub open spec fn is_idle_step<C>(step: DecodeStep<C>, reason: DecodeStopReason) -> bool {
    &&& step.token_id is None
    &&& step.candidates@.len() == 0
    &&& step.finished
    &&& step.stop_reason == reason
}

/// Whether `step` is what a choice makes of a generation with the end token `eos`.
pub open spec fn is_step_of<C>(
    step: DecodeStep<C>,
    sampled: Sampled<C>,
    eos_token_id: Option<usize>,
) -> bool {
    &&& step.candidates == sampled.candidates
    &&& step.token_id == sampled.choice
    &&& step.stop_reason == match sampled.choice {
        None => DecodeStopReason::NoCandidates,
        Some(token) => if Some(token) == eos_token_id {
            DecodeStopReason::EosToken
        } else {
            DecodeStopReason::NotStopped
        },
    }
    &&& step.finished == (step.stop_reason != DecodeStopReason::NotStopped)
}

/// The state after a choice.
pub open spec fn state_after(state: TokenState, choice: Option<usize>) -> TokenState {
    match choice {
        Some(token) => state.with_token(token),
        None => state,
    }
}

/// The step that ends at once.
pub fn idle_step<C>(reason: DecodeStopReason) -> (step: DecodeStep<C>)
    ensures
        is_idle_step(step, reason),
{
    DecodeStep { token_id: None, candidates: Vec::new(), finished: true, stop_reason: reason }
}

/// Takes a choice into the state.
pub fn take_choice<C>(
    state: &mut InferenceState,
    config: &GenerationConfig,
    sampled: Sampled<C>,
) -> (step: DecodeStep<C>)
    ensures
        is_step_of(step, sampled, config.eos_token_id),
        final(state)@ == state_after(old(state)@, sampled.choice),
{
    match sampled.choice {
        None => DecodeStep {
            token_id: None,
            candidates: sampled.candidates,
            finished: true,
            stop_reason: DecodeStopReason::NoCandidates,
        },
        Some(next) => {
            state.push_token(next);
            let stop_reason = match config.eos_token_id {
                Some(eos) => if next == eos {
                    DecodeStopReason::EosToken
                } else {
                    DecodeStopReason::NotStopped
                },
                None => DecodeStopReason::NotStopped,
            };
            DecodeStep {
                token_id: Some(next),
                candidates: sampled.candidates,
                finished: stop_reason != DecodeStopReason::NotStopped,
                stop_reason,
            }
        },
    }
}

/// What a sampler may find, by the state that it is shown.
pub type Sampler<C> = spec_fn(TokenState, Sampled<C>) -> bool;

/// What `sample` may find under a configuration.
pub open spec fn samples<C, F: Fn(&InferenceState, &GenerationConfig) -> Sampled<C>>(
    sample: F,
    config: GenerationConfig,
) -> Sampler<C> {
    |shown: TokenState, found: Sampled<C>|
        exists|state: InferenceState|
            state@ == shown && #[trigger] sample.ensures((&state, &config), found)
}

/// Whether `later` is a state that steps from `start` may lead to, as far as its size goes.
pub open spec fn may_follow(start: TokenState, later: TokenState) -> bool {
    &&& later.well_formed()
    &&& later.max_context == start.max_context
    &&& later.tokens.len() >= start.tokens.len()
}

/// Whether `sample` may be asked in the state `shown`, unless its tokens have ended.
pub open spec fn can_sample_at<C, F: Fn(&InferenceState, &GenerationConfig) -> Sampled<C>>(
    sample: F,
    config: GenerationConfig,
    shown: TokenState,
) -> bool {
    !shown.ended(config) ==> forall|s: &InferenceState|
        s@ == shown ==> #[trigger] sample.requires((s, &config))
}

/// Whether `sample` may be asked under a configuration, from the state `start` on.
pub open spec fn can_sample<C, F: Fn(&InferenceState, &GenerationConfig) -> Sampled<C>>(
    sample: F,
    config: GenerationConfig,
    start: TokenState,
) -> bool {
    forall|s: &InferenceState|
        may_follow(start, s@) ==> #[trigger] sample.requires((s, &config))
}

/// Whether `step` leads from `before` to `after`, by what the sampler finds. Tokens that have
/// ended stay as they are, and the sampler is not asked.
pub open spec fn is_decoded<C>(
    sampler: Sampler<C>,
    config: GenerationConfig,
    before: TokenState,
    step: DecodeStep<C>,
    after: TokenState,
) -> bool {
    if before.ended(config) {
        is_idle_step(step, DecodeStopReason::AlreadyEnded) && after == before
    } else {
        exists|found: Sampled<C>|
            {
                &&& #[trigger] sampler(before, found)
                &&& is_step_of(step, found, config.eos_token_id)
                &&& after == state_after(before, found.choice)
            }
    }
}

/// Generates one token. `sample` looks at the state and the configuration, and chooses.
pub fn decode_next_token_inner<C, F>(
    state: &mut InferenceState,
    config: &GenerationConfig,
    sample: &F,
) -> (step: DecodeStep<C>) where F: Fn(&InferenceState, &GenerationConfig) -> Sampled<C>
    requires
        old(state)@.well_formed(),
        can_sample_at::<C, F>(*sample, *config, old(state)@),
    ensures
        final(state)@.well_formed(),
        is_decoded(samples::<C, F>(*sample, *config), *config, old(state)@, step, final(state)@),
{
    if prompt_ended(state.tokens(), config.eos_token_id) {
        return idle_step(DecodeStopReason::AlreadyEnded);
    }
    let ghost before = *state;
    let found = sample(&*state, config);
    assert(sample.ensures((&before, config), found));
    assert(samples::<C, F>(*sample, *config)(before@, found));
    take_choice(state, config, found)
}

/// Whether `n` steps lead from `before` to `after`, none of which stopped.
pub open spec fn goes_on<C>(
    sampler: Sampler<C>,
    config: GenerationConfig,
    before: TokenState,
    n: nat,
    after: TokenState,
) -> bool
    decreases n,
{
    if n == 0 {
        after == before
    } else {
        exists|middle: TokenState, step: DecodeStep<C>|
            {
                &&& goes_on(sampler, config, before, (n - 1) as nat, middle)
                &&& #[trigger] is_decoded(sampler, config, middle, step, after)
                &&& !step.finished
            }
    }
}

/// Whether one step leads from `last` to `tokens` and stops there.
pub open spec fn stops_with<C>(
    sampler: Sampler<C>,
    config: GenerationConfig,
    last: TokenState,
    tokens: Seq<usize>,
) -> bool {
    exists|step: DecodeStep<C>, end: TokenState|
        {
            &&& #[trigger] is_decoded(sampler, config, last, step, end)
            &&& step.finished
            &&& tokens == end.tokens
        }
}

/// Whether `tokens` is what a generation from `start` may give: the outcome of as many steps
/// as were asked for, or of fewer, the last of which stopped.
pub open spec fn is_generated<C>(
    sampler: Sampler<C>,
    config: GenerationConfig,
    start: TokenState,
    tokens: Seq<usize>,
) -> bool {
    exists|n: nat, last: TokenState|
        {
            &&& #[trigger] goes_on(sampler, config, start, n, last)
            &&& n <= config.max_new_tokens
            &&& if n == config.max_new_tokens {
                tokens == last.tokens
            } else {
                stops_with(sampler, config, last, tokens)
            }
        }
}

/// The state before anything was generated after `prompt`.
pub open spec fn start_state(prompt: Seq<usize>, max_context: usize) -> TokenState {
    TokenState { tokens: prompt, prompt_len: prompt.len(), max_context: max_context as nat }
}

/// Generates tokens after a prompt until a step stops or as many were generated as were
/// asked for. A prompt that has ended comes back as it is.
pub fn generate_with_config_inner<C, F>(
    prompt: &[usize],
    max_context: usize,
    config: &GenerationConfig,
    sample: &F,
) -> (tokens: Vec<usize>) where F: Fn(&InferenceState, &GenerationConfig) -> Sampled<C>
    requires
        max_context > 0,
        config.max_new_tokens > 0 && !ends_with(prompt@, config.eos_token_id) ==> can_sample::<
            C,
            F,
        >(*sample, *config, start_state(prompt@, max_context)),
    ensures
        is_generated(
            samples::<C, F>(*sample, *config),
            *config,
            start_state(prompt@, max_context),
            tokens@,
        ),
{
    let mut state = InferenceState::new(prompt, max_context);
    let ghost start = state@;
    let ghost sampler = samples::<C, F>(*sample, *config);
    let mut n: usize = 0;
    assert(goes_on(sampler, *config, start, 0, start));
    while n < config.max_new_tokens
        invariant
            n <= config.max_new_tokens,
            may_follow(start, state@),
            start == start_state(prompt@, max_context),
            sampler == samples::<C, F>(*sample, *config),
            goes_on(sampler, *config, start, n as nat, state@),
            n == 0 ==> state@ == start,
            start.ended(*config) ==> n == 0,
            config.max_new_tokens > 0 && !start.ended(*config) ==> can_sample::<C, F>(
                *sample,
                *config,
                start,
            ),
        decreases config.max_new_tokens - n,
    {
        let ghost before = state@;
        let step = decode_next_token_inner(&mut state, config, sample);
        assert(is_decoded(sampler, *config, before, step, state@));
        if step.finished {
            assert(stops_with(sampler, *config, before, state@.tokens));
            assert(goes_on(sampler, *config, start, n as nat, before));
            return state.into_tokens();
        }
        n = n + 1;
    }
    state.into_tokens()
}

/// A generation keeps its prompt, adds no more tokens than were asked for, and leaves a
/// prompt that has ended as it is.
pub proof fn law_generation_keeps_its_prompt<C>(
    sampler: Sampler<C>,
    config: GenerationConfig,
    start: TokenState,
    tokens: Seq<usize>,
)
    requires
        is_generated(sampler, config, start, tokens),
    ensures
        start.tokens.is_prefix_of(tokens),
        tokens.len() <= start.tokens.len() + config.max_new_tokens,
        start.ended(config) ==> tokens == start.tokens,
{
    let (n, last) = choose|n: nat, last: TokenState|
        {
            &&& #[trigger] goes_on(sampler, config, start, n, last)
            &&& n <= config.max_new_tokens
            &&& if n == config.max_new_tokens {
                tokens == last.tokens
            } else {
                stops_with(sampler, config, last, tokens)
            }
        };
    lemma_steps_extend(sampler, config, start, n, last);
    if n < config.max_new_tokens {
        let (step, end) = choose|step: DecodeStep<C>, end: TokenState|
            {
                &&& #[trigger] is_decoded(sampler, config, last, step, end)
                &&& step.finished
                &&& tokens == end.tokens
            };
        assert(start.tokens.is_prefix_of(end.tokens));
    }
}

/// Steps only add tokens, one at most each, and none to tokens that have ended.
proof fn lemma_steps_extend<C>(
    sampler: Sampler<C>,
    config: GenerationConfig,
    start: TokenState,
    n: nat,
    last: TokenState,
)
    requires
        goes_on(sampler, config, start, n, last),
    ensures
        start.tokens.is_prefix_of(last.tokens),
        last.tokens.len() <= start.tokens.len() + n,
        start.ended(config) ==> n == 0,
    decreases n,
{
    if n > 0 {
        let (middle, step) = choose|middle: TokenState, step: DecodeStep<C>|
            {
                &&& goes_on(sampler, config, start, (n - 1) as nat, middle)
                &&& #[trigger] is_decoded(sampler, config, middle, step, last)
                &&& !step.finished
            };
        lemma_steps_extend(sampler, config, start, (n - 1) as nat, middle);
    }
}

/// What one sampler may find another may find too: then its steps are possible with the other.
pub proof fn lemma_wider_step<C>(
    narrow: Sampler<C>,
    wide: Sampler<C>,
    config: GenerationConfig,
    before: TokenState,
    step: DecodeStep<C>,
    after: TokenState,
)
    requires
        is_decoded(narrow, config, before, step, after),
        forall|shown: TokenState, found: Sampled<C>| #[trigger]
            narrow(shown, found) ==> wide(shown, found),
    ensures
        is_decoded(wide, config, before, step, after),
{
    if !before.ended(config) {
        let found = choose|found: Sampled<C>|
            {
                &&& #[trigger] narrow(before, found)
                &&& is_step_of(step, found, config.eos_token_id)
                &&& after == state_after(before, found.choice)
            };
        assert(wide(before, found));
    }
}

/// What one sampler may find another may find too: then its generations are possible with
/// the other.
pub proof fn lemma_wider_sampler<C>(
    narrow: Sampler<C>,
    wide: Sampler<C>,
    config: GenerationConfig,
    start: TokenState,
    tokens: Seq<usize>,
)
    requires
        is_generated(narrow, config, start, tokens),
        forall|shown: TokenState, found: Sampled<C>| #[trigger]
            narrow(shown, found) ==> wide(shown, found),
    ensures
        is_generated(wide, config, start, tokens),
{
    let (n, last) = choose|n: nat, last: TokenState|
        {
            &&& #[trigger] goes_on(narrow, config, start, n, last)
            &&& n <= config.max_new_tokens
            &&& if n == config.max_new_tokens {
                tokens == last.tokens
            } else {
                stops_with(narrow, config, last, tokens)
            }
        };
    lemma_wider_steps(narrow, wide, config, start, n, last);
    if n < config.max_new_tokens {
        let (step, end) = choose|step: DecodeStep<C>, end: TokenState|
            {
                &&& #[trigger] is_decoded(narrow, config, last, step, end)
                &&& step.finished
                &&& tokens == end.tokens
            };
        assert(is_decoded(wide, config, last, step, end));
    }
}

proof fn lemma_wider_steps<C>(
    narrow: Sampler<C>,
    wide: Sampler<C>,
    config: GenerationConfig,
    start: TokenState,
    n: nat,
    last: TokenState,
)
    requires
        goes_on(narrow, config, start, n, last),
        forall|shown: TokenState, found: Sampled<C>| #[trigger]
            narrow(shown, found) ==> wide(shown, found),
    ensures
        goes_on(wide, config, start, n, last),
    decreases n,
{
    if n > 0 {
        let (middle, step) = choose|middle: TokenState, step: DecodeStep<C>|
            {
                &&& goes_on(narrow, config, start, (n - 1) as nat, middle)
                &&& #[trigger] is_decoded(narrow, config, middle, step, last)
                &&& !step.finished
            };
        lemma_wider_steps(narrow, wide, config, start, (n - 1) as nat, middle);
        assert(is_decoded(wide, config, middle, step, last));
    }
}

} // verus!
