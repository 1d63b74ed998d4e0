//! Generation under a constraint on the next token.

use super::state;
use super::state::{
    decode_next_token_inner, generate_with_config_inner, DecodeStep, GenerationConfig,
    InferenceState, Sampled, Sampler, TokenState,
};
use super::trie;
use super::trie::TokenConstraint;
use vstd::prelude::*;

verus! {

/// Whether a constraint leaves a token in.
pub open spec fn leaves_in(allowed: Option<Vec<usize>>, token: usize) -> bool {
    match allowed {
        None => true,
        Some(list) => list@.contains(token),
    }
}

/// Which tokens of the vocabulary a constraint leaves in.
pub fn allowed_mask(allowed: &Option<Vec<usize>>, vocab_size: usize) -> (mask: Vec<bool>)
    ensures
        mask@.len() == vocab_size,
        forall|t: int| 0 <= t < vocab_size ==> #[trigger] mask@[t] == leaves_in(
            *allowed,
            t as usize,
        ),
{
    let mut mask: Vec<bool> = Vec::new();
    let mut t: usize = 0;
    while t < vocab_size
        invariant
            t <= vocab_size,
            mask@.len() == t,
            forall|u: int| 0 <= u < t ==> #[trigger] mask@[u] == leaves_in(*allowed, u as usize),
        decreases vocab_size - t,
    {
        let stays: bool = match allowed {
            None => true,
            Some(list) => contains(list, t),
        };
        mask.push(stays);
        t = t + 1;
    }
    mask
}

/// Whether a list names a token.
fn contains(list: &Vec<usize>, token: usize) -> (yes: bool)
    ensures
        yes == list@.contains(token),
{
    let mut i: usize = 0;
    while i < list.len()
        invariant
            i <= list@.len(),
            forall|j: int| 0 <= j < i ==> list@[j] != token,
        decreases list@.len() - i,
    {
        if list[i] == token {
            return true;
        }
        i = i + 1;
    }
    false
}

/// What `sample` may find when it is shown what `constraint` says of the tokens generated so
/// far.
pub open spec fn samples_within<
    C,
    K: TokenConstraint,
    F: Fn(&InferenceState, &GenerationConfig, &Option<Vec<usize>>) -> Sampled<C>,
>(constraint: K, sample: F, config: GenerationConfig) -> Sampler<C> {
    |shown: TokenState, found: Sampled<C>|
        exists|state: InferenceState, allowed: Option<Vec<usize>>|
            {
                &&& state@ == shown
                &&& constraint.answers(shown.generated(), allowed)
                &&& #[trigger] sample.ensures((&state, &config, &allowed), found)
            }
}

/// Whether `sample` may be asked in a state, whatever a constraint says.
pub open spec fn can_sample_within<
    C,
    F: Fn(&InferenceState, &GenerationConfig, &Option<Vec<usize>>) -> Sampled<C>,
>(sample: F, config: GenerationConfig, shown: TokenState) -> bool {
    forall|s: &InferenceState, allowed: &Option<Vec<usize>>|
        s@ == shown ==> #[trigger] sample.requires((s, &config, allowed))
}

/// Generates one token under a constraint.
pub fn decode_constrained_inner<C, K, F>(
    state: &mut InferenceState,
    config: &GenerationConfig,
    constraint: &K,
    sample: &F,
) -> (step: DecodeStep<C>) where
    K: TokenConstraint,
    F: Fn(&InferenceState, &GenerationConfig, &Option<Vec<usize>>) -> Sampled<C>,

    requires
        old(state)@.well_formed(),
        constraint.ready(),
        !old(state)@.ended(*config) ==> can_sample_within::<C, F>(
            *sample,
            *config,
            old(state)@,
        ),
    ensures
        final(state)@.well_formed(),
        state::is_decoded(
            samples_within::<C, K, F>(*constraint, *sample, *config),
            *config,
            old(state)@,
            step,
            final(state)@,
        ),
{
    let within = |s: &InferenceState, c: &GenerationConfig| -> (found: Sampled<C>)
        requires
            s@.well_formed(),
            *c == *config,
            forall|allowed: &Option<Vec<usize>>| #[trigger] sample.requires((s, c, allowed)),
        ensures
            samples_within::<C, K, F>(*constraint, *sample, *c)(s@, found),
        {
            let allowed: Option<Vec<usize>> = constraint.allowed_next(s.generated_tokens());
            let found = sample(s, c, &allowed);
            assert(sample.ensures((s, c, &allowed), found));
            found
        };
    decode_next_token_inner(state, config, &within)
}

/// Generates tokens after a prompt under a constraint.
pub fn generate_constrained_inner<C, K, F>(
    prompt: &[usize],
    max_context: usize,
    config: &GenerationConfig,
    constraint: &K,
    sample: &F,
) -> (tokens: Vec<usize>) where
    K: TokenConstraint,
    F: Fn(&InferenceState, &GenerationConfig, &Option<Vec<usize>>) -> Sampled<C>,

    requires
        max_context > 0,
        constraint.ready(),
        config.max_new_tokens > 0 && !state::ends_with(prompt@, config.eos_token_id)
            ==> forall|later: TokenState|
            state::may_follow(state::start_state(prompt@, max_context), later)
                ==> #[trigger] can_sample_within::<C, F>(*sample, *config, later),
    ensures
        state::is_generated(
            samples_within::<C, K, F>(*constraint, *sample, *config),
            *config,
            state::start_state(prompt@, max_context),
            tokens@,
        ),
{
    let within = |s: &InferenceState, c: &GenerationConfig| -> (found: Sampled<C>)
        requires
            s@.well_formed(),
            *c == *config,
            forall|allowed: &Option<Vec<usize>>| #[trigger] sample.requires((s, c, allowed)),
        ensures
            samples_within::<C, K, F>(*constraint, *sample, *c)(s@, found),
        {
            let allowed: Option<Vec<usize>> = constraint.allowed_next(s.generated_tokens());
            let found = sample(s, c, &allowed);
            assert(sample.ensures((s, c, &allowed), found));
            found
        };
    proof {
        if config.max_new_tokens > 0 && !state::ends_with(prompt@, config.eos_token_id) {
            let start = state::start_state(prompt@, max_context);
            assert forall|s: &InferenceState|
                state::may_follow(start, s@) implies #[trigger] within.requires((s, config)) by {
                assert(can_sample_within::<C, F>(*sample, *config, s@));
            }
        }
    }
    let tokens: Vec<usize> = generate_with_config_inner(prompt, max_context, config, &within);
    proof {
        state::lemma_wider_sampler(
            state::samples(within, *config),
            samples_within::<C, K, F>(*constraint, *sample, *config),
            *config,
            state::start_state(prompt@, max_context),
            tokens@,
        );
    }
    tokens
}

/// A choice that a prefix tree leaves in stays on the way to a sequence of the tree.
pub proof fn law_choices_follow_the_tree(
    words: Set<Seq<usize>>,
    generated: Seq<usize>,
    allowed: Option<Vec<usize>>,
    token: usize,
)
    requires
        trie::names_next(words, generated, allowed),
        allowed is Some,
        leaves_in(allowed, token),
    ensures
        exists|w: Seq<usize>| #[trigger]
            words.contains(w) && generated.push(token).is_prefix_of(w),
{
    assert(trie::leads_on(words, generated, token));
}

/// Where a sequence of the tree can still go on, the tree says how.
pub proof fn law_the_tree_binds_until_a_sequence_ends(
    words: Set<Seq<usize>>,
    generated: Seq<usize>,
    allowed: Option<Vec<usize>>,
    word: Seq<usize>,
)
    requires
        trie::names_next(words, generated, allowed),
        words.contains(word),
        generated.is_prefix_of(word),
        generated.len() < word.len(),
    ensures
        allowed is Some,
        leaves_in(allowed, word[generated.len() as int]),
{
    let t = word[generated.len() as int];
    assert(generated.push(t).is_prefix_of(word)) by {
        assert(word.subrange(0, generated.len() as int + 1) =~= generated.push(t));
    }
    assert(trie::leads_on(words, generated, t));
}

} // verus!
