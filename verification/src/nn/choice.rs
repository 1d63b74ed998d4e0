//! The choice of the next token from what a model says.

use super::constrained;
use super::constrained::allowed_mask;
use super::sampling;
use super::sampling::{draw, sampling_candidates, TokenCandidate};
use super::state::{GenerationConfig, Sampled};
use crate::tensor::number::Number;
use vstd::prelude::*;

verus! {

/// The bits of minus infinity: the score of a token that a constraint leaves out.
pub const LEFT_OUT_BITS: u32 = 0xff80_0000;

/// The scores of the last position.
pub open spec fn last_row(logits: Seq<u32>, vocab_size: usize) -> Seq<u32> {
    logits.skip(logits.len() - vocab_size)
}

/// The scores of a row where a constraint speaks.
pub open spec fn masked(row: Seq<u32>, allowed: Option<Vec<usize>>) -> Seq<u32> {
    Seq::new(
        row.len(),
        |t: int|
            if constrained::leaves_in(allowed, t as usize) {
                row[t]
            } else {
                LEFT_OUT_BITS
            },
    )
}

/// The shares of some candidates.
pub open spec fn shares_of<T>(candidates: Seq<TokenCandidate<T>>) -> Seq<T> {
    candidates.map_values(|c: TokenCandidate<T>| c.probability)
}

/// Whether `choice` is the candidate that `threshold` falls on.
pub open spec fn falls_on<T: Number>(
    candidates: Seq<TokenCandidate<T>>,
    threshold: T,
    choice: Option<usize>,
) -> bool {
    exists|drawn: Option<usize>|
        {
            &&& #[trigger] sampling::is_draw(shares_of(candidates), threshold, drawn)
            &&& choice == match drawn {
                Some(d) => Some(candidates[d as int].token_id),
                None => None,
            }
        }
}

/// Chooses the next token from the scores of all positions: the scores of the last position
/// count, without the tokens that the constraint leaves out.
pub fn sample_token<T: Number>(
    logits: &[u32],
    config: &GenerationConfig,
    history: &[usize],
    allowed: &Option<Vec<usize>>,
    threshold: T,
) -> (sampled: Sampled<TokenCandidate<T>>)
    requires
        0 < config.vocab_size <= logits@.len(),
    ensures
        sampling::are_candidates(
            masked(last_row(logits@, config.vocab_size), *allowed),
            *config,
            history@,
            sampled.candidates@,
        ),
        falls_on(sampled.candidates@, threshold, sampled.choice),
{
    let vocab_size: usize = config.vocab_size;
    let start: usize = logits.len() - vocab_size;
    let mask: Vec<bool> = allowed_mask(allowed, vocab_size);
    let ghost row = masked(last_row(logits@, vocab_size), *allowed);
    let mut scores: Vec<u32> = Vec::new();
    for t in 0..vocab_size
        invariant
            vocab_size == config.vocab_size,
            start + vocab_size == logits@.len() <= usize::MAX,
            mask@.len() == vocab_size,
            forall|t: int|
                0 <= t < vocab_size ==> #[trigger] mask@[t] == constrained::leaves_in(
                    *allowed,
                    t as usize,
                ),
            row == masked(last_row(logits@, vocab_size), *allowed),
            scores@ == row.take(t as int),
    {
        if mask[t] {
            scores.push(logits[start + t]);
        } else {
            scores.push(LEFT_OUT_BITS);
        }
        assert(scores@ =~= row.take(t + 1));
    }
    assert(scores@ =~= row);
    let candidates = sampling_candidates(scores.as_slice(), config, history);
    let mut shares: Vec<T> = Vec::new();
    for i in 0..candidates.len()
        invariant
            shares@ == shares_of(candidates@).take(i as int),
    {
        shares.push(candidates[i].probability);
        assert(shares@ =~= shares_of(candidates@).take(i + 1));
    }
    assert(shares@ =~= shares_of(candidates@));
    let drawn: Option<usize> = draw(shares.as_slice(), threshold);
    assert(sampling::is_draw(shares_of(candidates@), threshold, drawn));
    let choice: Option<usize> = match drawn {
        Some(d) => Some(candidates[d].token_id),
        None => None,
    };
    Sampled { candidates, choice }
}

/// A token that a constraint leaves out is never chosen, as long as scaling leaves minus infinity
/// without a finite score.
pub proof fn law_left_out_tokens_are_never_chosen<T: Number>(
    row: Seq<u32>,
    config: GenerationConfig,
    history: Seq<usize>,
    allowed: Option<Vec<usize>>,
    threshold: T,
    candidates: Seq<TokenCandidate<T>>,
    choice: Option<usize>,
)
    requires
        row.len() == config.vocab_size,
        forall|seen: bool, penalty: T, temperature: T, score: u32| #[trigger]
            sampling::is_score(LEFT_OUT_BITS, seen, penalty, temperature, score)
                ==> sampling::key_of(score) is None,
        sampling::are_candidates(masked(row, allowed), config, history, candidates),
        falls_on(candidates, threshold, choice),
    ensures
        forall|i: int|
            0 <= i < candidates.len() ==> constrained::leaves_in(
                allowed,
                (#[trigger] candidates[i]).token_id,
            ),
        choice matches Some(t) ==> constrained::leaves_in(allowed, t),
        choice is None <==> candidates.len() == 0,
{
    let logits = masked(row, allowed);
    let (numbers, scores) = choose|numbers: sampling::SamplingNumbers<T>, scores: Seq<u32>|
        {
            &&& #[trigger] sampling::are_numbers(config, numbers)
            &&& scores.len() == config.vocab_size
            &&& #[trigger] sampling::is_scaled(
                numbers.repetition_penalty,
                numbers.temperature,
                logits,
                history,
                scores,
            )
            &&& sampling::is_selection(numbers.nucleus, scores, config.top_k, candidates)
        };
    sampling::law_selections_are_fair(numbers.nucleus, scores, config.top_k, candidates);
    assert forall|i: int| 0 <= i < candidates.len() implies constrained::leaves_in(
        allowed,
        (#[trigger] candidates[i]).token_id,
    ) by {
        let t = candidates[i].token_id;
        assert(sampling::is_score(
            logits[t as int],
            history.contains(t),
            numbers.repetition_penalty,
            numbers.temperature,
            scores[t as int],
        ));
    }
}

/// Where one candidate is asked for, it is chosen whatever chance says, and no token is ahead of
/// it; none is chosen only where no score is finite.
pub proof fn law_the_only_candidate_is_the_best<T: Number>(
    asked: sampling::NucleusNumbers<T>,
    scores: Seq<u32>,
    threshold: T,
    candidates: Seq<TokenCandidate<T>>,
    choice: Option<usize>,
)
    requires
        scores.len() <= usize::MAX,
        sampling::is_selection(asked, scores, 1, candidates),
        falls_on(candidates, threshold, choice),
    ensures
        choice is None <==> forall|t: int|
            0 <= t < scores.len() ==> sampling::key_of(#[trigger] scores[t]) is None,
        choice matches Some(best) ==> {
            let keys = scores.map_values(|bits: u32| sampling::key_of(bits));
            &&& best < scores.len()
            &&& keys[best as int] is Some
            &&& forall|t: int|
                0 <= t < scores.len() && t != best && keys[t] is Some ==> #[trigger]
                    sampling::ahead(keys, best as int, t)
        },
{
    let keys = scores.map_values(|bits: u32| sampling::key_of(bits));
    sampling::law_selections_are_fair(asked, scores, 1, candidates);
    let (order, shares) = choose|order: Seq<usize>, shares: Seq<T>|
        {
            &&& sampling::is_ranking(keys, 1, order)
            &&& #[trigger] sampling::has_shares(scores, order, shares)
            &&& shares.len() == order.len()
            &&& candidates == sampling::candidates_of(scores, order, shares)
        };
    if choice is Some {
        let best = choice->0;
        assert(candidates.len() == 1);
        assert(candidates[0].token_id == best);
        assert forall|t: int| 0 <= t < scores.len() && t != best && keys[t] is Some implies
            #[trigger] sampling::ahead(keys, best as int, t) by {
            assert(order[0] == best);
            assert(!order.contains(t as usize));
        }
    }
}

} // verus!
