//! Which tokens are drawn from, and which one is drawn.
//!
//! Scores are single precision numbers, handled by their bits.

use super::state::GenerationConfig;
use crate::tensor::arith;
use crate::tensor::arith::Scalar;
use crate::tensor::number::Number;
use crate::tensor::reals;
use crate::tensor::reals::Reading;
use crate::tensor::softmax;
use crate::tensor::softmax::exponential_shares;
use vstd::prelude::*;

verus! {

/// Where the numbers below zero begin.
pub const SIGN_BIT: u32 = 0x8000_0000;

/// Where infinity and what is no number begin, apart from the sign.
pub const INFINITE_BITS: u32 = 0x7f80_0000;

/// The bits of a number without its sign.
pub open spec fn magnitude(bits: u32) -> int {
    if bits >= SIGN_BIT {
        bits - SIGN_BIT
    } else {
        bits as int
    }
}

/// The bits of a number as an integer with a sign. Finite numbers are ordered as these
/// integers are.
pub open spec fn signed_bits(bits: u32) -> int {
    if bits >= SIGN_BIT {
        -magnitude(bits)
    } else {
        magnitude(bits)
    }
}

/// An integer by which finite scores are ordered; none for a score that is not finite. Zero
/// has one key, whatever its sign.
pub fn score_key(bits: u32) -> (key: Option<u32>)
    ensures
        key is Some <==> magnitude(bits) < INFINITE_BITS,
        key matches Some(k) ==> k == SIGN_BIT + signed_bits(bits),
{
    if bits >= SIGN_BIT {
        let size: u32 = bits - SIGN_BIT;
        if size < INFINITE_BITS {
            Some(SIGN_BIT - size)
        } else {
            None
        }
    } else if bits < INFINITE_BITS {
        Some(SIGN_BIT + bits)
    } else {
        None
    }
}

/// Whether token `a` comes before token `b`: its score is higher, or as high and its number
/// lower.
pub open spec fn ahead(keys: Seq<Option<u32>>, a: int, b: int) -> bool {
    ||| keys[a]->0 > keys[b]->0
    ||| keys[a]->0 == keys[b]->0 && a < b
}

/// Whether `order` lists tokens with a score, best first.
pub open spec fn is_ordered(keys: Seq<Option<u32>>, order: Seq<usize>) -> bool {
    &&& forall|i: int|
        0 <= i < order.len() ==> (#[trigger] order[i]) < keys.len() && keys[order[i] as int] is Some
    &&& forall|i: int, j: int|
        0 <= i < j < order.len() ==> ahead(
            keys,
            #[trigger] order[i] as int,
            #[trigger] order[j] as int,
        )
}

/// Whether `order` holds the best tokens: no more than `top_k` of them, where that is not zero,
/// and none is left out that is not behind all of them.
pub open spec fn is_ranking(keys: Seq<Option<u32>>, top_k: usize, order: Seq<usize>) -> bool {
    &&& is_ordered(keys, order)
    &&& top_k > 0 ==> order.len() <= top_k
    &&& forall|t: usize|
        t < keys.len() && keys[t as int] is Some && !#[trigger] order.contains(t) ==> {
            &&& top_k > 0 && order.len() == top_k
            &&& forall|i: int|
                0 <= i < order.len() ==> ahead(keys, #[trigger] order[i] as int, t as int)
        }
}

/// Puts token `t`, which has a higher number than all tokens in `order`, in its place.
fn place_token(keys: &Vec<Option<u32>>, order: &mut Vec<usize>, t: usize, key: u32)
    requires
        t < keys@.len(),
        keys@[t as int] == Some(key),
        is_ordered(keys@, old(order)@),
        forall|i: int| 0 <= i < old(order)@.len() ==> (#[trigger] old(order)@[i]) < t,
    ensures
        is_ordered(keys@, final(order)@),
        forall|i: int| 0 <= i < final(order)@.len() ==> (#[trigger] final(order)@[i]) < t + 1,
        exists|p: int|
            0 <= p <= old(order)@.len() && final(order)@ == #[trigger] old(order)@.insert(p, t),
{
    let mut p: usize = 0;
    while p < order.len() && keys[order[p]].unwrap() >= key
        invariant
            p <= order@.len(),
            order@ == old(order)@,
            is_ordered(keys@, order@),
            forall|i: int| 0 <= i < order@.len() ==> (#[trigger] order@[i]) < t,
            forall|i: int| 0 <= i < p ==> keys@[(#[trigger] order@[i]) as int]->0 >= key,
        ensures
            p <= order@.len(),
            order@ == old(order)@,
            forall|i: int| 0 <= i < p ==> keys@[(#[trigger] order@[i]) as int]->0 >= key,
            p < order@.len() ==> keys@[order@[p as int] as int]->0 < key,
        decreases order@.len() - p,
    {
        p = p + 1;
    }
    let ghost before = order@;
    order.insert(p, t);
    proof {
        assert(order@ == before.insert(p as int, t));
        assert forall|i: int, j: int| 0 <= i < j < order@.len() implies ahead(
            keys@,
            #[trigger] order@[i] as int,
            #[trigger] order@[j] as int,
        ) by {
            if j == p {
                assert(order@[i] == before[i]);
            } else if i == p {
                assert(order@[j] == before[j - 1]);
                if j - 1 > p {
                    assert(ahead(keys@, before[p as int] as int, before[j - 1] as int));
                }
            } else {
                let a = if i < p {
                    i
                } else {
                    i - 1
                };
                let b = if j < p {
                    j
                } else {
                    j - 1
                };
                assert(order@[i] == before[a] && order@[j] == before[b]);
                assert(ahead(keys@, before[a] as int, before[b] as int));
            }
        }
        assert forall|i: int| 0 <= i < order@.len() implies (#[trigger] order@[i]) < t + 1
            && order@[i] < keys@.len() && keys@[order@[i] as int] is Some by {
            if i < p {
                assert(order@[i] == before[i]);
            } else if i > p {
                assert(order@[i] == before[i - 1]);
            }
        }
    }
}

/// The best tokens, best first: those with the highest scores, and of equal ones those with the
/// lowest numbers. No more than `top_k`, where that is not zero.
pub fn rank_tokens(keys: &Vec<Option<u32>>, top_k: usize) -> (order: Vec<usize>)
    ensures
        is_ranking(keys@, top_k, order@),
{
    let mut order: Vec<usize> = Vec::new();
    let mut t: usize = 0;
    while t < keys.len()
        invariant
            t <= keys@.len(),
            is_ordered(keys@, order@),
            forall|i: int| 0 <= i < order@.len() ==> (#[trigger] order@[i]) < t,
            forall|s: usize|
                s < t && keys@[s as int] is Some ==> #[trigger] order@.contains(s),
        decreases keys@.len() - t,
    {
        let ghost before = order@;
        match keys[t] {
            Some(key) => {
                place_token(keys, &mut order, t, key);
                proof {
                    let p = choose|p: int|
                        0 <= p <= before.len() && order@ == #[trigger] before.insert(p, t);
                    assert(order@[p] == t);
                    assert forall|s: usize| s < t + 1 && keys@[s as int] is Some implies
                        #[trigger] order@.contains(s) by {
                        if s < t {
                            assert(before.contains(s));
                            let i = choose|i: int| 0 <= i < before.len() && before[i] == s;
                            assert(order@[if i < p { i } else { i + 1 }] == s);
                        }
                    }
                }
            },
            None => {},
        }
        t = t + 1;
    }
    if top_k > 0 && order.len() > top_k {
        let ghost whole = order@;
        order.truncate(top_k);
        proof {
            assert(order@ =~= whole.take(top_k as int));
            assert forall|t: usize|
                t < keys@.len() && keys@[t as int] is Some && !#[trigger] order@.contains(
                    t,
                ) implies top_k > 0 && order@.len() == top_k && (forall|i: int|
                0 <= i < order@.len() ==> ahead(
                    keys@,
                    #[trigger] order@[i] as int,
                    t as int,
                )) by {
                assert(whole.contains(t));
                let j = choose|j: int| 0 <= j < whole.len() && whole[j] == t;
                assert(j >= top_k) by {
                    if j < top_k {
                        assert(order@[j] == t);
                    }
                }
                assert forall|i: int| 0 <= i < order@.len() implies ahead(
                    keys@,
                    #[trigger] order@[i] as int,
                    t as int,
                ) by {
                    assert(ahead(keys@, whole[i] as int, whole[j] as int));
                }
            }
        }
    }
    order
}

/// There is one order of all tokens, and asking for fewer of them gives its beginning.
pub proof fn law_fewer_tokens_are_a_beginning(
    keys: Seq<Option<u32>>,
    fewer: usize,
    more: usize,
    first: Seq<usize>,
    all: Seq<usize>,
)
    requires
        is_ranking(keys, fewer, first),
        is_ranking(keys, more, all),
        more == 0 || 0 < fewer <= more,
        keys.len() <= usize::MAX,
    ensures
        first.len() <= all.len(),
        first == all.take(first.len() as int),
{
    let n = if first.len() < all.len() {
        first.len()
    } else {
        all.len()
    };
    lemma_same_beginning(keys, fewer, more, first, all, n);
    if all.len() < first.len() {
        let x = first[n as int];
        if all.contains(x) {
            let j = choose|j: int| 0 <= j < all.len() && all[j] == x;
            assert(first[j] == all[j]);
            assert(ahead(keys, first[j] as int, first[n as int] as int));
        }
        assert(!all.contains(x));
    }
    assert(first =~= all.take(first.len() as int));
}

proof fn lemma_same_beginning(
    keys: Seq<Option<u32>>,
    top_a: usize,
    top_b: usize,
    a: Seq<usize>,
    b: Seq<usize>,
    n: nat,
)
    requires
        is_ranking(keys, top_a, a),
        is_ranking(keys, top_b, b),
        n <= a.len(),
        n <= b.len(),
    ensures
        forall|i: int| 0 <= i < n ==> #[trigger] a[i] == b[i],
    decreases n,
{
    if n > 0 {
        lemma_same_beginning(keys, top_a, top_b, a, b, (n - 1) as nat);
        let i = n - 1;
        if a[i] != b[i] {
            lemma_not_behind(keys, top_a, a, b, i);
            lemma_not_behind(keys, top_b, b, a, i);
        }
    }
}

/// Where two rankings part, the token of the one is ahead of that of the other.
proof fn lemma_not_behind(
    keys: Seq<Option<u32>>,
    top_a: usize,
    a: Seq<usize>,
    b: Seq<usize>,
    i: int,
)
    requires
        is_ranking(keys, top_a, a),
        is_ordered(keys, b),
        0 <= i < a.len(),
        0 <= i < b.len(),
        forall|j: int| 0 <= j < i ==> #[trigger] a[j] == b[j],
        a[i] != b[i],
    ensures
        ahead(keys, a[i] as int, b[i] as int),
{
    if a.contains(b[i]) {
        let j = choose|j: int| 0 <= j < a.len() && a[j] == b[i];
        if j < i {
            assert(a[j] == b[j]);
            assert(ahead(keys, b[j] as int, b[i] as int));
        } else {
            assert(ahead(keys, a[i] as int, a[j] as int));
        }
    }
}

/// Whether the first `n` weights are as few as it takes to reach `top_p` together, or all of them
/// where they never do. At least one is taken.
pub open spec fn is_nucleus<T: Number>(weights: Seq<T>, top_p: T, n: int) -> bool {
    &&& 0 <= n <= weights.len()
    &&& weights.len() > 0 ==> n > 0
    &&& forall|i: int|
        0 < i < n ==> T::reaches.ensures((#[trigger] arith::total(weights.take(i)), top_p), false)
    &&& n < weights.len() ==> T::reaches.ensures((arith::total(weights.take(n)), top_p), true)
}

/// How many of the first candidates are kept: as few as it takes for their weights to reach
/// `top_p` together, but all of them if they never do.
pub fn nucleus_len<T: Number>(weights: &[T], top_p: T) -> (n: usize)
    ensures
        is_nucleus(weights@, top_p, n as int),
{
    let mut cumulative: T = T::zero();
    let mut i: usize = 0;
    assert(weights@.take(0) =~= Seq::<T>::empty());
    while i < weights.len()
        invariant
            i <= weights@.len(),
            cumulative == arith::total(weights@.take(i as int)),
            forall|j: int|
                0 < j <= i ==> T::reaches.ensures(
                    (#[trigger] arith::total(weights@.take(j)), top_p),
                    false,
                ),
        decreases weights@.len() - i,
    {
        assert(weights@.take(i + 1).drop_last() =~= weights@.take(i as int));
        cumulative = cumulative.plus(weights[i]);
        i = i + 1;
        let done: bool = cumulative.reaches(top_p);
        if done {
            return i;
        }
    }
    i
}

/// What is left of `threshold` after the first `n` weights are taken away.
pub open spec fn left_of<T: Scalar>(threshold: T, weights: Seq<T>, n: nat) -> T
    decreases n,
{
    if n == 0 {
        threshold
    } else {
        left_of(threshold, weights, (n - 1) as nat).difference(weights[n - 1])
    }
}

/// Whether `drawn` is the first place up to which the weights, taken away from `threshold`, leave
/// nothing of it, or the last place where they never do.
pub open spec fn is_draw<T: Number>(weights: Seq<T>, threshold: T, drawn: Option<usize>) -> bool {
    match drawn {
        None => weights.len() == 0,
        Some(d) => {
            &&& d < weights.len()
            &&& forall|i: int|
                0 < i <= d ==> T::reaches.ensures(
                    (T::nought(), #[trigger] left_of(threshold, weights, i as nat)),
                    false,
                )
            &&& d + 1 < weights.len() ==> T::reaches.ensures(
                (T::nought(), left_of(threshold, weights, (d + 1) as nat)),
                true,
            )
        },
    }
}

/// Draws a candidate: weights are taken away from `threshold` until nothing is left of it. The
/// last candidate is drawn if that is never so; none is drawn if there is none.
pub fn draw<T: Number>(weights: &[T], threshold: T) -> (drawn: Option<usize>)
    ensures
        is_draw(weights@, threshold, drawn),
{
    let zero: T = T::zero();
    let mut left: T = threshold;
    let mut i: usize = 0;
    while i < weights.len()
        invariant
            i <= weights@.len(),
            zero == T::nought(),
            left == left_of(threshold, weights@, i as nat),
            forall|j: int|
                0 < j <= i ==> T::reaches.ensures(
                    (T::nought(), #[trigger] left_of(threshold, weights@, j as nat)),
                    false,
                ),
        decreases weights@.len() - i,
    {
        left = left.minus(weights[i]);
        let done: bool = zero.reaches(left);
        if done {
            return Some(i);
        }
        i = i + 1;
    }
    if weights.len() == 0 {
        None
    } else {
        Some(weights.len() - 1)
    }
}

/// A token that may be drawn, with the bits of its score and its share.
#[derive(Debug, Clone, Copy, PartialEq, Eq)]
pub struct TokenCandidate<T> {
    pub token_id: usize,
    pub logit: u32,
    pub probability: T,
}

/// The key of a score; see [`score_key`].
pub open spec fn key_of(bits: u32) -> Option<u32> {
    if magnitude(bits) < INFINITE_BITS {
        Some((SIGN_BIT + signed_bits(bits)) as u32)
    } else {
        None
    }
}

/// How a score is changed before candidates are chosen: how much repetition counts, at least
/// one; what scores are divided by, at least a small number; and whether repetition counts at
/// all.
pub struct Scaling<T> {
    pub one: T,
    pub penalty: T,
    pub even: bool,
    pub minus: bool,
    pub penalized: T,
    pub least: T,
    pub divisor: T,
}

/// Whether `s` belongs to a score: one of a token that came before moves away from what is
/// likely by the penalty, to whichever side of zero it lies.
pub open spec fn is_scaling<T: Number>(
    logit: T,
    seen: bool,
    repetition_penalty: T,
    temperature: T,
    s: Scaling<T>,
) -> bool {
    &&& T::one.ensures((), s.one)
    &&& T::greater.ensures((repetition_penalty, s.one), s.penalty)
    &&& T::is_zero.ensures((s.penalty.difference(s.one),), s.even)
    &&& T::is_negative.ensures((logit,), s.minus)
    &&& if s.even || !seen {
        s.penalized == logit
    } else if s.minus {
        s.penalized == logit.product(s.penalty)
    } else {
        T::over.ensures((logit, s.penalty), s.penalized)
    }
    &&& T::decimal.ensures((1, 8), s.least)
    &&& T::greater.ensures((temperature, s.least), s.divisor)
}

/// Whether `scaled` is the score after the penalty for repetition and the temperature.
pub open spec fn is_scaled_logit<T: Number>(
    logit: T,
    seen: bool,
    repetition_penalty: T,
    temperature: T,
    scaled: T,
) -> bool {
    exists|s: Scaling<T>|
        {
            &&& is_scaling(logit, seen, repetition_penalty, temperature, s)
            &&& #[trigger] T::over.ensures((s.penalized, s.divisor), scaled)
        }
}

/// The score of a token after the penalty for repetition and the temperature.
pub fn scale_logit<T: Number>(logit: T, seen: bool, repetition_penalty: T, temperature: T) -> (scaled:
    T)
    ensures
        is_scaled_logit(logit, seen, repetition_penalty, temperature, scaled),
{
    let one: T = T::one();
    let penalty: T = repetition_penalty.greater(one);
    let even: bool = penalty.minus(one).is_zero();
    let minus: bool = logit.is_negative();
    let penalized: T = if even || !seen {
        logit
    } else if minus {
        logit.times(penalty)
    } else {
        logit.over(penalty)
    };
    let least: T = T::decimal(1, 8);
    let divisor: T = temperature.greater(least);
    let scaled: T = penalized.over(divisor);
    proof {
        let s = Scaling { one, penalty, even, minus, penalized, least, divisor };
        assert(is_scaling(logit, seen, repetition_penalty, temperature, s));
        assert(T::over.ensures((s.penalized, s.divisor), scaled));
    }
    scaled
}

/// Whether `score` holds the bits of a score after the penalty for repetition and the
/// temperature.
pub open spec fn is_score<T: Number>(
    bits: u32,
    seen: bool,
    repetition_penalty: T,
    temperature: T,
    score: u32,
) -> bool {
    exists|logit: T, scaled: T|
        {
            &&& #[trigger] T::from_bits.ensures((bits,), logit)
            &&& is_scaled_logit(logit, seen, repetition_penalty, temperature, scaled)
            &&& #[trigger] T::to_bits.ensures((scaled,), score)
        }
}

/// Whether `scores` are the first scores of `logits` after the penalty for tokens that have come
/// before and the temperature.
pub open spec fn is_scaled<T: Number>(
    repetition_penalty: T,
    temperature: T,
    logits: Seq<u32>,
    history: Seq<usize>,
    scores: Seq<u32>,
) -> bool {
    forall|t: int|
        0 <= t < scores.len() ==> is_score(
            logits[t],
            history.contains(t as usize),
            repetition_penalty,
            temperature,
            #[trigger] scores[t],
        )
}

/// The scores of some tokens.
pub open spec fn scores_of(scores: Seq<u32>, tokens: Seq<usize>) -> Seq<u32> {
    tokens.map_values(|t: usize| scores[t as int])
}

/// Whether `numbers` have these bits.
pub open spec fn have_bits<T: Number>(numbers: Seq<T>, bits: Seq<u32>) -> bool {
    &&& numbers.len() == bits.len()
    &&& forall|i: int|
        0 <= i < bits.len() ==> T::from_bits.ensures((bits[i],), #[trigger] numbers[i])
}

/// Whether the tokens have these shares among themselves, going by their scores.
pub open spec fn has_shares<T: Number>(
    scores: Seq<u32>,
    tokens: Seq<usize>,
    shares: Seq<T>,
) -> bool {
    exists|numbers: Seq<T>|
        {
            &&& #[trigger] have_bits(numbers, scores_of(scores, tokens))
            &&& softmax::is_shared(numbers, shares)
        }
}

/// Tokens with their scores and shares.
pub open spec fn candidates_of<T>(
    scores: Seq<u32>,
    tokens: Seq<usize>,
    shares: Seq<T>,
) -> Seq<TokenCandidate<T>> {
    Seq::new(
        tokens.len(),
        |i: int|
            TokenCandidate {
                token_id: tokens[i],
                logit: scores[tokens[i] as int],
                probability: shares[i],
            },
    )
}

/// How many candidates are asked for: the part of the whole that they have to reach together, and
/// whether that is all of it.
pub struct NucleusNumbers<T> {
    pub given: T,
    pub one: T,
    pub under: bool,
    pub above: bool,
    pub top_p: T,
    pub keeps_all: bool,
}

/// Whether `numbers` belong to the part that a configuration asks for, which is moved to between
/// zero and one.
pub open spec fn is_asked<T: Number>(top_p: u32, numbers: NucleusNumbers<T>) -> bool {
    &&& T::from_bits.ensures((top_p,), numbers.given)
    &&& T::one.ensures((), numbers.one)
    &&& T::is_below.ensures((numbers.given, T::nought()), numbers.under)
    &&& T::is_below.ensures((numbers.one, numbers.given), numbers.above)
    &&& numbers.top_p == if numbers.under {
        T::nought()
    } else if numbers.above {
        numbers.one
    } else {
        numbers.given
    }
    &&& T::reaches.ensures((numbers.top_p, numbers.one), numbers.keeps_all)
}

/// Reads the part that a configuration asks for.
fn read_nucleus<T: Number>(top_p: u32) -> (numbers: NucleusNumbers<T>)
    ensures
        is_asked(top_p, numbers),
{
    let given: T = T::from_bits(top_p);
    let one: T = T::one();
    let zero: T = T::zero();
    let under: bool = given.is_below(zero);
    let above: bool = one.is_below(given);
    let top_p: T = if under {
        zero
    } else if above {
        one
    } else {
        given
    };
    let keeps_all: bool = top_p.reaches(one);
    NucleusNumbers { given, one, under, above, top_p, keeps_all }
}

/// Whether `candidates` are what is drawn from: the best tokens in their order; of these, where
/// there are several and not all are asked for, as few of the first as reach the part that is
/// asked for, with their shares among themselves.
pub open spec fn is_selection<T: Number>(
    asked: NucleusNumbers<T>,
    scores: Seq<u32>,
    top_k: usize,
    candidates: Seq<TokenCandidate<T>>,
) -> bool {
    exists|order: Seq<usize>, shares: Seq<T>|
        {
            &&& is_ranking(scores.map_values(|bits: u32| key_of(bits)), top_k, order)
            &&& #[trigger] has_shares(scores, order, shares)
            &&& shares.len() == order.len()
            &&& if asked.keeps_all || order.len() <= 1 {
                candidates == candidates_of(scores, order, shares)
            } else {
                exists|n: int, kept: Seq<T>|
                    {
                        &&& is_nucleus(shares, asked.top_p, n)
                        &&& #[trigger] has_shares(scores, order.take(n), kept)
                        &&& candidates == candidates_of(scores, order.take(n), kept)
                    }
            }
        }
}

/// The numbers of a configuration.
pub struct SamplingNumbers<T> {
    pub temperature: T,
    pub repetition_penalty: T,
    pub nucleus: NucleusNumbers<T>,
}

/// Whether `numbers` are those of a configuration.
pub open spec fn are_numbers<T: Number>(
    config: GenerationConfig,
    numbers: SamplingNumbers<T>,
) -> bool {
    &&& T::from_bits.ensures((config.temperature,), numbers.temperature)
    &&& T::from_bits.ensures((config.repetition_penalty,), numbers.repetition_penalty)
    &&& is_asked(config.top_p, numbers.nucleus)
}

/// Whether `candidates` are those of the first tokens, which have these scores to begin with.
pub open spec fn are_candidates<T: Number>(
    logits: Seq<u32>,
    config: GenerationConfig,
    history: Seq<usize>,
    candidates: Seq<TokenCandidate<T>>,
) -> bool {
    exists|numbers: SamplingNumbers<T>, scores: Seq<u32>|
        {
            &&& #[trigger] are_numbers(config, numbers)
            &&& scores.len() == config.vocab_size
            &&& #[trigger] is_scaled(
                numbers.repetition_penalty,
                numbers.temperature,
                logits,
                history,
                scores,
            )
            &&& is_selection(numbers.nucleus, scores, config.top_k, candidates)
        }
}

/// The scores of some tokens, in their order.
fn pick(scores: &Vec<u32>, tokens: &Vec<usize>) -> (list: Vec<u32>)
    requires
        forall|i: int| 0 <= i < tokens@.len() ==> (#[trigger] tokens@[i]) < scores@.len(),
    ensures
        list@ == scores_of(scores@, tokens@),
{
    let mut list: Vec<u32> = Vec::new();
    for i in 0..tokens.len()
        invariant
            forall|i: int| 0 <= i < tokens@.len() ==> (#[trigger] tokens@[i]) < scores@.len(),
            list@ == scores_of(scores@, tokens@).take(i as int),
    {
        list.push(scores[tokens[i]]);
        assert(list@ =~= scores_of(scores@, tokens@).take(i + 1));
    }
    assert(list@ =~= scores_of(scores@, tokens@));
    list
}

/// Puts tokens, scores and shares together.
fn pair_up<T: Number>(scores: &Vec<u32>, tokens: &Vec<usize>, shares: &Vec<T>) -> (list: Vec<
    TokenCandidate<T>,
>)
    requires
        forall|i: int| 0 <= i < tokens@.len() ==> (#[trigger] tokens@[i]) < scores@.len(),
        shares@.len() == tokens@.len(),
    ensures
        list@ == candidates_of(scores@, tokens@, shares@),
{
    let mut list: Vec<TokenCandidate<T>> = Vec::new();
    for i in 0..tokens.len()
        invariant
            forall|i: int| 0 <= i < tokens@.len() ==> (#[trigger] tokens@[i]) < scores@.len(),
            shares@.len() == tokens@.len(),
            list@ == candidates_of(scores@, tokens@, shares@).take(i as int),
    {
        let token_id: usize = tokens[i];
        list.push(
            TokenCandidate { token_id, logit: scores[token_id], probability: shares[i] },
        );
        assert(list@ =~= candidates_of(scores@, tokens@, shares@).take(i + 1));
    }
    assert(list@ =~= candidates_of(scores@, tokens@, shares@));
    list
}

/// Whether a token has come before.
fn has_come(history: &[usize], token: usize) -> (yes: bool)
    ensures
        yes == history@.contains(token),
{
    for i in 0..history.len()
        invariant
            forall|j: int| 0 <= j < i ==> history@[j] != token,
    {
        if history[i] == token {
            return true;
        }
    }
    false
}

/// The score of a token after the penalty for repetition and the temperature, by its bits.
fn score_of<T: Number>(bits: u32, seen: bool, repetition_penalty: T, temperature: T) -> (score: u32)
    ensures
        is_score(bits, seen, repetition_penalty, temperature, score),
{
    let logit: T = T::from_bits(bits);
    let scaled: T = scale_logit(logit, seen, repetition_penalty, temperature);
    let score: u32 = scaled.to_bits();
    assert(T::from_bits.ensures((bits,), logit));
    assert(T::to_bits.ensures((scaled,), score));
    score
}

/// The shares of some tokens among themselves, going by their scores.
fn shares_among<T: Number>(scores: &Vec<u32>, tokens: &Vec<usize>) -> (shares: Vec<T>)
    requires
        forall|i: int| 0 <= i < tokens@.len() ==> (#[trigger] tokens@[i]) < scores@.len(),
    ensures
        has_shares(scores@, tokens@, shares@),
        shares@.len() == tokens@.len(),
{
    let list: Vec<u32> = pick(scores, tokens);
    let mut numbers: Vec<T> = Vec::new();
    for i in 0..list.len()
        invariant
            numbers@.len() == i,
            forall|j: int|
                0 <= j < i ==> T::from_bits.ensures((list@[j],), #[trigger] numbers@[j]),
    {
        numbers.push(T::from_bits(list[i]));
    }
    assert(have_bits(numbers@, scores_of(scores@, tokens@)));
    exponential_shares(numbers.as_slice())
}

/// The candidates for the next token. Scores are penalised for repetition and divided by the
/// temperature first, and scores that are not finite then drop out; the best `top_k` stay, or
/// all if that is zero, with their shares; of these the nucleus stays unless all are asked for,
/// with new shares.
pub fn sampling_candidates<T: Number>(
    logits: &[u32],
    config: &GenerationConfig,
    history: &[usize],
) -> (candidates: Vec<TokenCandidate<T>>)
    requires
        config.vocab_size <= logits@.len(),
    ensures
        are_candidates(logits@, *config, history@, candidates@),
{
    let temperature: T = T::from_bits(config.temperature);
    let repetition_penalty: T = T::from_bits(config.repetition_penalty);
    let nucleus: NucleusNumbers<T> = read_nucleus(config.top_p);
    let mut scores: Vec<u32> = Vec::new();
    let mut keys: Vec<Option<u32>> = Vec::new();
    for t in 0..config.vocab_size
        invariant
            config.vocab_size <= logits@.len(),
            scores@.len() == t,
            is_scaled(repetition_penalty, temperature, logits@, history@, scores@),
            keys@ == scores@.map_values(|bits: u32| key_of(bits)),
    {
        let seen: bool = has_come(history, t);
        let score: u32 = score_of(logits[t], seen, repetition_penalty, temperature);
        scores.push(score);
        keys.push(score_key(score));
        assert(keys@ =~= scores@.map_values(|bits: u32| key_of(bits)));
    }
    let order: Vec<usize> = rank_tokens(&keys, config.top_k);
    let shares: Vec<T> = shares_among(&scores, &order);
    let ghost numbers = SamplingNumbers { temperature, repetition_penalty, nucleus };
    assert(are_numbers(*config, numbers));
    assert(is_scaled(
        numbers.repetition_penalty,
        numbers.temperature,
        logits@,
        history@,
        scores@,
    ));
    if nucleus.keeps_all || order.len() <= 1 {
        let candidates = pair_up(&scores, &order, &shares);
        assert(is_selection(nucleus, scores@, config.top_k, candidates@));
        candidates
    } else {
        let n: usize = nucleus_len(shares.as_slice(), nucleus.top_p);
        let mut first: Vec<usize> = order;
        first.truncate(n);
        assert(first@ =~= order@.take(n as int));
        let kept: Vec<T> = shares_among(&scores, &first);
        assert(has_shares(scores@, order@.take(n as int), kept@));
        let candidates = pair_up(&scores, &first, &kept);
        assert(is_selection(nucleus, scores@, config.top_k, candidates@));
        candidates
    }
}

/// Where a score is finite there is a candidate; no token is a candidate twice or without a
/// finite score; and there are no more candidates than were asked for.
pub proof fn law_selections_are_fair<T: Number>(
    asked: NucleusNumbers<T>,
    scores: Seq<u32>,
    top_k: usize,
    candidates: Seq<TokenCandidate<T>>,
)
    requires
        is_selection(asked, scores, top_k, candidates),
        scores.len() <= usize::MAX,
    ensures
        (exists|t: int| 0 <= t < scores.len() && key_of(#[trigger] scores[t]) is Some)
            ==> candidates.len() > 0,
        top_k > 0 ==> candidates.len() <= top_k,
        forall|i: int|
            0 <= i < candidates.len() ==> {
                &&& (#[trigger] candidates[i]).token_id < scores.len()
                &&& candidates[i].logit == scores[candidates[i].token_id as int]
                &&& key_of(candidates[i].logit) is Some
            },
        forall|i: int, j: int|
            0 <= i < j < candidates.len() ==> (#[trigger] candidates[i]).token_id != (
            #[trigger] candidates[j]).token_id,
{
    let keys = scores.map_values(|bits: u32| key_of(bits));
    let (order, shares) = choose|order: Seq<usize>, shares: Seq<T>|
        {
            &&& is_ranking(keys, top_k, order)
            &&& #[trigger] has_shares(scores, order, shares)
            &&& shares.len() == order.len()
            &&& if asked.keeps_all || order.len() <= 1 {
                candidates == candidates_of(scores, order, shares)
            } else {
                exists|n: int, kept: Seq<T>|
                    {
                        &&& is_nucleus(shares, asked.top_p, n)
                        &&& #[trigger] has_shares(scores, order.take(n), kept)
                        &&& candidates == candidates_of(scores, order.take(n), kept)
                    }
            }
        };
    if exists|t: int| 0 <= t < scores.len() && key_of(#[trigger] scores[t]) is Some {
        let t = choose|t: int| 0 <= t < scores.len() && key_of(#[trigger] scores[t]) is Some;
        assert(keys[t] is Some);
        assert(order.len() > 0 || !order.contains(t as usize));
    }
    assert forall|i: int, j: int| 0 <= i < j < order.len() implies #[trigger] order[i]
        != #[trigger] order[j] by {
        assert(ahead(keys, order[i] as int, order[j] as int));
    }
    assert forall|i: int| 0 <= i < candidates.len() implies #[trigger] candidates[i].token_id
        == order[i] && candidates[i].logit == scores[order[i] as int] by {}
}

/// The greater of two real numbers.
pub open spec fn real_max(a: real, b: real) -> real {
    if a < b {
        b
    } else {
        a
    }
}

/// The score of a token, over real numbers. Times the temperature, which counts as a hundred
/// millionth at least, it is what it was. That of a token that came before becomes less likely:
/// below zero it is multiplied by the penalty, above it is divided by it. A penalty under one is
/// none.
pub proof fn law_repeated_tokens_become_less_likely<T: Number>(
    reading: Reading<T>,
    logit: T,
    seen: bool,
    repetition_penalty: T,
    temperature: T,
    scaled: T,
)
    requires
        reading.is_faithful(),
        (reading.finite)(logit),
        (reading.finite)(repetition_penalty),
        (reading.finite)(temperature),
        is_scaled_logit(logit, seen, repetition_penalty, temperature, scaled),
    ensures
        (reading.finite)(scaled),
        ({
            let penalty = real_max(reading.of(repetition_penalty), 1real);
            let heat = real_max(reading.of(temperature), 1real / 100_000_000real);
            let (x, y) = (reading.of(logit), reading.of(scaled));
            &&& !seen ==> y * heat == x
            &&& seen && x < 0real ==> y * heat == x * penalty
            &&& seen && x >= 0real ==> (y * heat) * penalty == x
        }),
{
    let s = choose|s: Scaling<T>|
        {
            &&& is_scaling(logit, seen, repetition_penalty, temperature, s)
            &&& #[trigger] T::over.ensures((s.penalized, s.divisor), scaled)
        };
    reading.lemma_least(s.least);
    let penalty = real_max(reading.of(repetition_penalty), 1real);
    let heat = real_max(reading.of(temperature), 1real / 100_000_000real);
    assert(reading.reads(s.one, 1real));
    assert(reading.reads(s.penalty, penalty));
    assert(reading.reads(s.divisor, heat));
    assert(s.even == (penalty - 1real == 0real));
    let x = reading.of(logit);
    assert(x * 1real == x);
    reals::lemma_quotient(x, penalty);
    assert(0real * penalty == 0real) by (nonlinear_arith);
    assert((reading.finite)(s.penalized));
    reals::lemma_quotient(reading.of(s.penalized), heat);
}

/// The nucleus, over real numbers: fewer candidates do not reach the part that is asked for
/// together, and these do unless they are all.
pub proof fn law_the_nucleus_is_as_small_as_can_be<T: Number>(
    reading: Reading<T>,
    weights: Seq<T>,
    top_p: T,
    n: int,
)
    requires
        reading.is_faithful(),
        reading.all_finite(weights),
        (reading.finite)(top_p),
        is_nucleus(weights, top_p, n),
    ensures
        0 <= n <= weights.len(),
        weights.len() > 0 ==> n > 0,
        forall|i: int| 0 < i < n ==> reading.sum(#[trigger] weights.take(i)) < reading.of(top_p),
        n < weights.len() ==> reading.sum(weights.take(n)) >= reading.of(top_p),
{
    assert forall|i: int| 0 <= i <= weights.len() implies reading.reads(
        arith::total(#[trigger] weights.take(i)),
        reading.sum(weights.take(i)),
    ) by {
        let first = weights.take(i);
        assert forall|j: int| 0 <= j < first.len() implies (reading.finite)(
            #[trigger] first[j],
        ) by {
            assert((reading.finite)(weights[j]));
        }
        reading.lemma_total(first);
    }
    assert forall|i: int| 0 < i < n implies reading.sum(#[trigger] weights.take(i)) < reading.of(
        top_p,
    ) by {
        let total = arith::total(weights.take(i));
        assert(T::reaches.ensures((total, top_p), false));
    }
    assert(reading.reads(arith::total(weights.take(n)), reading.sum(weights.take(n))));
}

proof fn lemma_real_left<T: Number>(reading: Reading<T>, threshold: T, weights: Seq<T>, n: nat)
    requires
        reading.is_ring(),
        reading.all_finite(weights),
        (reading.finite)(threshold),
        n <= weights.len(),
    ensures
        reading.reads(
            left_of(threshold, weights, n),
            reading.of(threshold) - reals::sum_to(n, |i: int| reading.at(weights, i)),
        ),
    decreases n,
{
    if n > 0 {
        lemma_real_left(reading, threshold, weights, (n - 1) as nat);
        assert((reading.finite)(weights[n - 1]));
    }
}

/// A draw, over real numbers: the weights before the candidate do not make up the threshold, and
/// with its own they do, unless it is the last.
pub proof fn law_a_draw_falls_into_its_weight<T: Number>(
    reading: Reading<T>,
    weights: Seq<T>,
    threshold: T,
    drawn: Option<usize>,
)
    requires
        reading.is_faithful(),
        reading.all_finite(weights),
        (reading.finite)(threshold),
        is_draw(weights, threshold, drawn),
    ensures
        drawn is None <==> weights.len() == 0,
        drawn matches Some(d) ==> {
            let sum = |n: nat| reals::sum_to(n, |i: int| reading.at(weights, i));
            &&& d < weights.len()
            &&& d > 0 ==> sum(d as nat) < reading.of(threshold)
            &&& d + 1 < weights.len() ==> reading.of(threshold) <= sum((d + 1) as nat)
        },
{
    if let Some(d) = drawn {
        lemma_real_left(reading, threshold, weights, d as nat);
        lemma_real_left(reading, threshold, weights, (d + 1) as nat);
        if d > 0 {
            let i = d as int;
            assert(T::reaches.ensures(
                (T::nought(), left_of(threshold, weights, i as nat)),
                false,
            ));
        }
    }
}

/// The part that is asked for is moved to between zero and one, and all candidates are kept where
/// that is all of it.
pub proof fn law_the_asked_part_is_a_part<T: Number>(
    reading: Reading<T>,
    top_p: u32,
    numbers: NucleusNumbers<T>,
)
    requires
        reading.is_faithful(),
        is_asked(top_p, numbers),
        (reading.finite)(numbers.given),
    ensures
        T::from_bits.ensures((top_p,), numbers.given),
        (reading.finite)(numbers.top_p),
        0real <= reading.of(numbers.top_p) <= 1real,
        0real <= reading.of(numbers.given) <= 1real ==> numbers.top_p == numbers.given,
        reading.of(numbers.given) < 0real ==> reading.of(numbers.top_p) == 0real,
        reading.of(numbers.given) > 1real ==> reading.of(numbers.top_p) == 1real,
        numbers.keeps_all <==> reading.of(numbers.given) >= 1real,
{
}

} // verus!
