//! Running the requests of a batch, token by token.

use super::kv_cache;
use super::kv_cache::{KvCache, KvCacheSpec, KvTensor};
use super::scheduler::{InferenceBatch, InferenceRequest};
use super::state;
use super::state::{
    decode_next_token_inner, idle_step, prompt_ended, DecodeStep, DecodeStopReason,
    GenerationConfig, InferenceState, Sampled, Sampler, TokenState,
};
use vstd::prelude::*;

verus! {

/// A request under way.
#[derive(Debug)]
pub struct InferenceSession<T> {
    pub request: InferenceRequest,
    pub state: InferenceState,
    pub kv_cache: KvCache<T>,
    pub generated_steps: usize,
    pub finished: bool,
    pub stop_reason: DecodeStopReason,
}

/// Whether a session is at the start of its request: nothing was generated, and it is
/// finished only if the prompt has ended.
pub open spec fn is_fresh<T>(session: InferenceSession<T>) -> bool {
    let ended = state::ends_with(session.request.prompt@, session.request.config.eos_token_id);
    &&& session.state@ == state::start_state(
        session.request.prompt@,
        session.kv_cache.layout().max_context,
    )
    &&& session.generated_steps == 0
    &&& session.finished == ended
    &&& session.stop_reason == (if ended {
        DecodeStopReason::AlreadyEnded
    } else {
        DecodeStopReason::NotStopped
    })
}

impl<T> InferenceSession<T> {
    /// The tokens are the prompt and one for each step, and the session is finished exactly
    /// if it has a reason to be.
    pub open spec fn well_formed(&self) -> bool {
        &&& self.state@.well_formed()
        &&& self.kv_cache.well_formed()
        &&& self.state@.max_context == self.kv_cache.layout().max_context
        &&& self.state@.prompt_len == self.request.prompt@.len()
        &&& self.request.prompt@.is_prefix_of(self.state@.tokens)
        &&& self.generated_steps == self.state@.generated().len()
        &&& self.finished == (self.stop_reason != DecodeStopReason::NotStopped)
    }

    /// The session of a request, with a cache that keeps nothing.
    pub fn new(request: InferenceRequest, max_context: usize) -> (session: Self)
        requires
            max_context > 0,
        ensures
            session.well_formed(),
            session.request == request,
            session.kv_cache.layout() == (KvCacheSpec {
                n_layer: 0,
                max_context,
                n_head: 1,
                head_dim: 1,
            }),
            is_fresh(session),
    {
        Self::with_kv_cache_spec(request, KvCacheSpec::token_only(max_context))
    }

    /// The session of a request, with an empty cache.
    pub fn with_kv_cache_spec(request: InferenceRequest, cache_spec: KvCacheSpec) -> (session: Self)
        requires
            cache_spec.valid(),
        ensures
            session.well_formed(),
            session.request == request,
            session.kv_cache.layout() == cache_spec,
            kv_cache::is_filled(session.kv_cache, Seq::empty()),
            is_fresh(session),
    {
        let ended: bool = prompt_ended(request.prompt.as_slice(), request.config.eos_token_id);
        let state = InferenceState::new(request.prompt.as_slice(), cache_spec.max_context);
        InferenceSession {
            state,
            kv_cache: KvCache::new(cache_spec),
            request,
            generated_steps: 0,
            finished: ended,
            stop_reason: if ended {
                DecodeStopReason::AlreadyEnded
            } else {
                DecodeStopReason::NotStopped
            },
        }
    }

    /// Goes back to the start of the request.
    fn start_over(&mut self)
        requires
            old(self).kv_cache.well_formed(),
            old(self).state@.max_context == old(self).kv_cache.layout().max_context,
        ensures
            final(self).well_formed(),
            final(self).request == old(self).request,
            final(self).kv_cache == old(self).kv_cache,
            is_fresh(*final(self)),
    {
        let max_context: usize = self.kv_cache.max_context();
        self.state = InferenceState::new(self.request.prompt.as_slice(), max_context);
        self.generated_steps = 0;
        self.finished =
        prompt_ended(self.request.prompt.as_slice(), self.request.config.eos_token_id);
        self.stop_reason =
        if self.finished {
            DecodeStopReason::AlreadyEnded
        } else {
            DecodeStopReason::NotStopped
        };
    }

    /// The number of the request.
    pub fn request_id(&self) -> (id: u64)
        ensures
            id == self.request.request_id,
    {
        self.request.request_id
    }

    /// The prompt and what was generated.
    pub fn tokens(&self) -> (tokens: &[usize])
        ensures
            tokens@ == self.state@.tokens,
    {
        self.state.tokens()
    }

    /// What was generated.
    pub fn generated_tokens(&self) -> (tokens: &[usize])
        requires
            self.state@.well_formed(),
        ensures
            tokens@ == self.state@.generated(),
    {
        self.state.generated_tokens()
    }
}

/// What may be cached of some tokens: a key and a value for each layer.
pub type Projector<T> = spec_fn(Seq<usize>, Seq<(KvTensor<T>, KvTensor<T>)>) -> bool;

/// What `project` may compute of some tokens.
pub open spec fn projections<T, P: Fn(&[usize]) -> Vec<(KvTensor<T>, KvTensor<T>)>>(
    project: P,
) -> Projector<T> {
    |tokens: Seq<usize>, pairs: Seq<(KvTensor<T>, KvTensor<T>)>|
        exists|ids: &[usize], blocks: Vec<(KvTensor<T>, KvTensor<T>)>|
            {
                &&& ids@ == tokens
                &&& blocks@ == pairs
                &&& #[trigger] project.ensures((ids,), blocks)
            }
}

/// Whether `cache` holds what may be cached of `tokens`, and nothing else.
pub open spec fn holds_projection<T>(
    cache: KvCache<T>,
    projector: Projector<T>,
    tokens: Seq<usize>,
) -> bool {
    exists|pairs: Seq<(KvTensor<T>, KvTensor<T>)>|
        {
            &&& #[trigger] projector(tokens, pairs)
            &&& kv_cache::is_filled(cache, pairs)
        }
}

/// Whether `project` can be asked for the keys and values of up to `max` tokens, and what it
/// computes fits a cache.
pub open spec fn projects_into<T, P: Fn(&[usize]) -> Vec<(KvTensor<T>, KvTensor<T>)>>(
    project: P,
    max: nat,
    layout: KvCacheSpec,
) -> bool {
    &&& forall|ids: &[usize]| ids@.len() <= max ==> #[trigger] project.requires((ids,))
    &&& forall|ids: &[usize], blocks: Vec<(KvTensor<T>, KvTensor<T>)>| #[trigger]
        project.ensures((ids,), blocks) ==> kv_cache::can_fill(blocks@, layout)
}

impl<T: Copy> InferenceSession<T> {
    /// Goes back to the start of the request and caches the prompt.
    pub fn prefill<P>(&mut self, project: &P) where
        P: Fn(&[usize]) -> Vec<(KvTensor<T>, KvTensor<T>)>,

        requires
            old(self).well_formed(),
            projects_into(*project, old(self).request.prompt@.len(), old(self).kv_cache.layout()),
        ensures
            final(self).well_formed(),
            final(self).request == old(self).request,
            final(self).kv_cache.layout() == old(self).kv_cache.layout(),
            is_fresh(*final(self)),
            holds_projection(
                final(self).kv_cache,
                projections(*project),
                old(self).request.prompt@,
            ),
    {
        self.start_over();
        let blocks = project(self.state.tokens());
        assert(projections(*project)(self.request.prompt@, blocks@));
        self.kv_cache.fill(blocks);
    }

    /// Turns to another request and caches its prompt.
    pub fn reset<P>(&mut self, request: InferenceRequest, project: &P) where
        P: Fn(&[usize]) -> Vec<(KvTensor<T>, KvTensor<T>)>,

        requires
            old(self).well_formed(),
            projects_into(*project, request.prompt@.len(), old(self).kv_cache.layout()),
        ensures
            final(self).well_formed(),
            final(self).request == request,
            final(self).kv_cache.layout() == old(self).kv_cache.layout(),
            is_fresh(*final(self)),
            holds_projection(final(self).kv_cache, projections(*project), request.prompt@),
    {
        self.request = request;
        self.start_over();
        let blocks = project(self.state.tokens());
        assert(projections(*project)(self.request.prompt@, blocks@));
        self.kv_cache.fill(blocks);
    }
}

/// Whether a session is over after a step: for the reason of the step, or because as many
/// tokens were generated as were asked for.
pub open spec fn reason_after<C>(step: DecodeStep<C>, steps: nat, max: nat) -> DecodeStopReason {
    if step.finished {
        step.stop_reason
    } else if steps >= max {
        DecodeStopReason::MaxNewTokens
    } else {
        DecodeStopReason::NotStopped
    }
}

/// What may be found, by the configuration of a request.
pub type Samplers<C> = spec_fn(GenerationConfig) -> Sampler<C>;

/// What `sample` may find, by the configuration of a request.
pub open spec fn samples_by_config<C, F: Fn(&InferenceState, &GenerationConfig) -> Sampled<C>>(
    sample: F,
) -> Samplers<C> {
    |config: GenerationConfig| state::samples::<C, F>(sample, config)
}

/// Whether `step` leads from the session `before` to the session `after`. A session that is
/// over stays as it is. One that has generated all its tokens is marked as over. Else a
/// token is chosen, and the cache holds what the model sees after it.
pub open spec fn is_session_step<T, C>(
    projector: Projector<T>,
    samplers: Samplers<C>,
    before: InferenceSession<T>,
    step: DecodeStep<C>,
    after: InferenceSession<T>,
) -> bool {
    let max = before.request.config.max_new_tokens;
    &&& after.request == before.request
    &&& if before.finished {
        &&& state::is_idle_step(step, before.stop_reason)
        &&& after == before
    } else if before.generated_steps >= max {
        &&& state::is_idle_step(step, DecodeStopReason::MaxNewTokens)
        &&& after == (InferenceSession {
            finished: true,
            stop_reason: DecodeStopReason::MaxNewTokens,
            ..before
        })
    } else {
        &&& state::is_decoded(
            samplers(before.request.config),
            before.request.config,
            before.state@,
            step,
            after.state@,
        )
        &&& after.kv_cache.layout() == before.kv_cache.layout()
        &&& if step.token_id is Some {
            &&& after.generated_steps == before.generated_steps + 1
            &&& holds_projection(after.kv_cache, projector, after.state@.context())
        } else {
            &&& after.generated_steps == before.generated_steps
            &&& after.kv_cache == before.kv_cache
        }
        &&& after.stop_reason == reason_after(step, after.generated_steps as nat, max as nat)
        &&& after.finished == (after.stop_reason != DecodeStopReason::NotStopped)
    }
}

/// Whether a session can take a step with `project` and `sample`: one that is over, has generated
/// all its tokens, or whose tokens have ended asks neither.
#[verifier::opaque]
pub open spec fn can_step<
    T,
    C,
    P: Fn(&[usize]) -> Vec<(KvTensor<T>, KvTensor<T>)>,
    F: Fn(&InferenceState, &GenerationConfig) -> Sampled<C>,
>(session: InferenceSession<T>, project: P, sample: F) -> bool {
    let layout = session.kv_cache.layout();
    let config = session.request.config;
    !session.finished && session.generated_steps < config.max_new_tokens && !session.state@.ended(
        config,
    ) ==> {
        &&& projects_into(project, layout.max_context as nat, layout)
        &&& state::can_sample_at::<C, F>(sample, config, session.state@)
    }
}

/// Takes one step of a session.
pub fn decode_session_with<T, C, P, F>(
    session: &mut InferenceSession<T>,
    project: &P,
    sample: &F,
) -> (step: DecodeStep<C>) where
    T: Copy,
    P: Fn(&[usize]) -> Vec<(KvTensor<T>, KvTensor<T>)>,
    F: Fn(&InferenceState, &GenerationConfig) -> Sampled<C>,

    requires
        old(session).well_formed(),
        can_step::<T, C, P, F>(*old(session), *project, *sample),
    ensures
        final(session).well_formed(),
        is_session_step(
            projections(*project),
            samples_by_config(*sample),
            *old(session),
            step,
            *final(session),
        ),
{
    proof {
        reveal(can_step);
    }
    if session.finished {
        return idle_step(session.stop_reason);
    }
    if session.generated_steps >= session.request.config.max_new_tokens {
        session.finished = true;
        session.stop_reason = DecodeStopReason::MaxNewTokens;
        return idle_step(DecodeStopReason::MaxNewTokens);
    }
    let config = session.request.config;
    let ghost before = session.state@;
    let step = decode_next_token_inner(&mut session.state, &config, sample);
    proof {
        if step.token_id is Some {
            state::law_tokens_are_added_at_the_end(before, step.token_id->0);
            assert(session.request.prompt@.is_prefix_of(session.state@.tokens));
        }
    }
    if step.token_id.is_some() {
        session.generated_steps = session.generated_steps + 1;
        proof {
            state::law_context_is_a_recent_window(session.state@);
        }
        let blocks = project(session.state.context());
        assert(projections(*project)(session.state@.context(), blocks@));
        session.kv_cache.fill(blocks);
        assert(holds_projection(
            session.kv_cache,
            projections(*project),
            session.state@.context(),
        ));
    }
    if step.finished {
        session.finished = true;
        session.stop_reason = step.stop_reason;
    } else if session.generated_steps >= session.request.config.max_new_tokens {
        session.finished = true;
        session.stop_reason = DecodeStopReason::MaxNewTokens;
    }
    step
}

/// A session generates no more tokens than its request asks for, and every step brings it
/// nearer to its end: one that is not over after a step has generated a token.
pub proof fn law_sessions_come_to_an_end<T, C>(
    projector: Projector<T>,
    samplers: Samplers<C>,
    before: InferenceSession<T>,
    step: DecodeStep<C>,
    after: InferenceSession<T>,
)
    requires
        is_session_step(projector, samplers, before, step, after),
        before.generated_steps <= before.request.config.max_new_tokens,
    ensures
        after.generated_steps <= after.request.config.max_new_tokens,
        !after.finished ==> after.generated_steps == before.generated_steps + 1,
        before.finished ==> after == before,
{
}

/// The sessions of a batch.
#[derive(Debug)]
pub struct InferenceBatchState<T> {
    pub sessions: Vec<InferenceSession<T>>,
}

/// How many of the first `n` sessions are not finished.
pub open spec fn active<T>(sessions: Seq<InferenceSession<T>>, n: nat) -> nat
    decreases n,
{
    if n == 0 {
        0
    } else {
        active(sessions, (n - 1) as nat) + if sessions[n - 1].finished {
            0nat
        } else {
            1nat
        }
    }
}

/// No session of a batch is active exactly if all are finished.
pub proof fn law_finished_means_none_active<T>(sessions: Seq<InferenceSession<T>>, n: nat)
    requires
        n <= sessions.len(),
    ensures
        active(sessions, n) == 0 <==> forall|i: int|
            0 <= i < n ==> (#[trigger] sessions[i]).finished,
    decreases n,
{
    if n > 0 {
        law_finished_means_none_active(sessions, (n - 1) as nat);
        if active(sessions, n) == 0 {
            assert forall|i: int| 0 <= i < n implies (#[trigger] sessions[i]).finished by {
                if i < n - 1 {
                    assert(active(sessions, (n - 1) as nat) == 0);
                }
            }
        } else if forall|i: int| 0 <= i < n ==> (#[trigger] sessions[i]).finished {
            assert(sessions[n - 1].finished);
        }
    }
}

impl<T> InferenceBatchState<T> {
    /// Every session is well-formed.
    pub open spec fn well_formed(&self) -> bool {
        all_well_formed(self.sessions@)
    }

    /// Every session's cache has the same layout.
    pub open spec fn has_layout(&self, layout: KvCacheSpec) -> bool {
        forall|i: int|
            0 <= i < self.sessions@.len() ==> (#[trigger] self.sessions@[i]).kv_cache.layout()
                == layout
    }

    /// The sessions of a batch, with caches that keep nothing.
    pub fn from_batch(batch: InferenceBatch, max_context: usize) -> (state: Self)
        requires
            max_context > 0,
        ensures
            state.well_formed(),
            state.has_layout(
                KvCacheSpec { n_layer: 0, max_context, n_head: 1, head_dim: 1 },
            ),
            state.sessions@.len() == batch.requests@.len(),
            forall|i: int|
                0 <= i < state.sessions@.len() ==> is_fresh(#[trigger] state.sessions@[i]),
            forall|i: int|
                0 <= i < state.sessions@.len() ==> (#[trigger] state.sessions@[i]).request
                    == batch.requests@[i],
            forall|i: int|
                0 <= i < state.sessions@.len() ==> kv_cache::is_filled(
                    (#[trigger] state.sessions@[i]).kv_cache,
                    Seq::empty(),
                ),
    {
        Self::from_batch_with_kv_cache_spec(batch, KvCacheSpec::token_only(max_context))
    }

    /// The sessions of a batch, with empty caches.
    pub fn from_batch_with_kv_cache_spec(batch: InferenceBatch, cache_spec: KvCacheSpec) -> (state:
        Self)
        requires
            cache_spec.valid(),
        ensures
            state.well_formed(),
            state.has_layout(cache_spec),
            state.sessions@.len() == batch.requests@.len(),
            forall|i: int|
                0 <= i < state.sessions@.len() ==> is_fresh(#[trigger] state.sessions@[i]),
            forall|i: int|
                0 <= i < state.sessions@.len() ==> (#[trigger] state.sessions@[i]).request
                    == batch.requests@[i],
            forall|i: int|
                0 <= i < state.sessions@.len() ==> kv_cache::is_filled(
                    (#[trigger] state.sessions@[i]).kv_cache,
                    Seq::empty(),
                ),
    {
        let ghost requests = batch.requests@;
        let mut rest: Vec<InferenceRequest> = batch.requests;
        let mut sessions: Vec<InferenceSession<T>> = Vec::new();
        while rest.len() > 0
            invariant
                cache_spec.valid(),
                sessions@.len() <= requests.len(),
                rest@ == requests.skip(sessions@.len() as int),
                forall|i: int|
                    0 <= i < sessions@.len() ==> (#[trigger] sessions@[i]).well_formed(),
                forall|i: int| 0 <= i < sessions@.len() ==> is_fresh(#[trigger] sessions@[i]),
                forall|i: int|
                    0 <= i < sessions@.len() ==> (#[trigger] sessions@[i]).kv_cache.layout()
                        == cache_spec,
                forall|i: int|
                    0 <= i < sessions@.len() ==> (#[trigger] sessions@[i]).request == requests[i],
                forall|i: int|
                    0 <= i < sessions@.len() ==> kv_cache::is_filled(
                        (#[trigger] sessions@[i]).kv_cache,
                        Seq::empty(),
                    ),
            decreases rest@.len(),
        {
            let request = rest.remove(0);
            let session = InferenceSession::with_kv_cache_spec(request, cache_spec);
            sessions.push(session);
            assert(rest@ =~= requests.skip(sessions@.len() as int));
        }
        proof {
            reveal(all_well_formed);
        }
        InferenceBatchState { sessions }
    }

    /// Whether all sessions are finished.
    pub fn is_finished(&self) -> (yes: bool)
        ensures
            yes == (forall|i: int|
                0 <= i < self.sessions@.len() ==> (#[trigger] self.sessions@[i]).finished),
    {
        let mut i: usize = 0;
        while i < self.sessions.len()
            invariant
                i <= self.sessions@.len(),
                forall|j: int| 0 <= j < i ==> (#[trigger] self.sessions@[j]).finished,
            decreases self.sessions@.len() - i,
        {
            if !self.sessions[i].finished {
                return false;
            }
            i = i + 1;
        }
        true
    }

    /// How many sessions are not finished.
    pub fn active_len(&self) -> (n: usize)
        ensures
            n == active(self.sessions@, self.sessions@.len()),
    {
        let mut n: usize = 0;
        let mut i: usize = 0;
        while i < self.sessions.len()
            invariant
                i <= self.sessions@.len(),
                n <= i,
                n == active(self.sessions@, i as nat),
            decreases self.sessions@.len() - i,
        {
            if !self.sessions[i].finished {
                n = n + 1;
            }
            i = i + 1;
        }
        n
    }

    /// The numbers of the requests, in order.
    pub fn request_ids(&self) -> (list: Vec<u64>)
        ensures
            list@.len() == self.sessions@.len(),
            forall|i: int|
                0 <= i < list@.len() ==> #[trigger] list@[i]
                    == self.sessions@[i].request.request_id,
    {
        let mut list: Vec<u64> = Vec::new();
        let mut i: usize = 0;
        while i < self.sessions.len()
            invariant
                i <= self.sessions@.len(),
                list@.len() == i,
                forall|j: int|
                    0 <= j < i ==> #[trigger] list@[j] == self.sessions@[j].request.request_id,
            decreases self.sessions@.len() - i,
        {
            list.push(self.sessions[i].request_id());
            i = i + 1;
        }
        list
    }
}

impl<T: Copy> InferenceBatchState<T> {
    /// The sessions of a batch, with their prompts cached.
    pub fn from_batch_with_prefill<P>(
        batch: InferenceBatch,
        cache_spec: KvCacheSpec,
        project: &P,
    ) -> (state: Self) where P: Fn(&[usize]) -> Vec<(KvTensor<T>, KvTensor<T>)>
        requires
            cache_spec.valid(),
            forall|i: int|
                0 <= i < batch.requests@.len() ==> projects_into(
                    *project,
                    (#[trigger] batch.requests@[i]).prompt@.len(),
                    cache_spec,
                ),
        ensures
            state.well_formed(),
            state.has_layout(cache_spec),
            state.sessions@.len() == batch.requests@.len(),
            forall|i: int|
                0 <= i < state.sessions@.len() ==> is_fresh(#[trigger] state.sessions@[i]),
            forall|i: int|
                0 <= i < state.sessions@.len() ==> (#[trigger] state.sessions@[i]).request
                    == batch.requests@[i],
            forall|i: int|
                0 <= i < state.sessions@.len() ==> holds_projection(
                    (#[trigger] state.sessions@[i]).kv_cache,
                    projections(*project),
                    batch.requests@[i].prompt@,
                ),
    {
        let ghost requests = batch.requests@;
        let mut state = Self::from_batch_with_kv_cache_spec(batch, cache_spec);
        let mut i: usize = 0;
        while i < state.sessions.len()
            invariant
                i <= state.sessions@.len(),
                state.sessions@.len() == requests.len(),
                state.well_formed(),
                state.has_layout(cache_spec),
                forall|j: int|
                    0 <= j < requests.len() ==> projects_into(
                        *project,
                        (#[trigger] requests[j]).prompt@.len(),
                        cache_spec,
                    ),
                forall|j: int|
                    0 <= j < requests.len() ==> is_fresh(#[trigger] state.sessions@[j]),
                forall|j: int|
                    0 <= j < requests.len() ==> (#[trigger] state.sessions@[j]).request
                        == requests[j],
                forall|j: int|
                    0 <= j < i ==> holds_projection(
                        (#[trigger] state.sessions@[j]).kv_cache,
                        projections(*project),
                        requests[j].prompt@,
                    ),
            decreases state.sessions@.len() - i,
        {
            proof {
                reveal(all_well_formed);
            }
            assert(state.sessions@[i as int].well_formed());
            assert(state.sessions@[i as int].request == requests[i as int]);
            state.sessions[i].prefill(project);
            i = i + 1;
        }
        state
    }
}

/// What one session of a batch did.
#[derive(Debug, Clone, PartialEq, Eq)]
pub struct InferenceBatchStep<C> {
    pub request_id: u64,
    pub step: DecodeStep<C>,
    pub generated_steps: usize,
}

/// Whether `step` reports what led from the session `before` to the session `after`.
#[verifier::opaque]
pub open spec fn reports<T, C>(
    projector: Projector<T>,
    samplers: Samplers<C>,
    before: InferenceSession<T>,
    step: InferenceBatchStep<C>,
    after: InferenceSession<T>,
) -> bool {
    &&& step.request_id == before.request.request_id
    &&& step.generated_steps == after.generated_steps
    &&& is_session_step(projector, samplers, before, step.step, after)
}

/// Takes one step of session `i` of a batch.
fn decode_one<T, C, P, F>(
    batch: &mut InferenceBatchState<T>,
    i: usize,
    project: &P,
    sample: &F,
) -> (step: InferenceBatchStep<C>) where
    T: Copy,
    P: Fn(&[usize]) -> Vec<(KvTensor<T>, KvTensor<T>)>,
    F: Fn(&InferenceState, &GenerationConfig) -> Sampled<C>,

    requires
        i < old(batch).sessions@.len(),
        old(batch).sessions@[i as int].well_formed(),
        can_step::<T, C, P, F>(old(batch).sessions@[i as int], *project, *sample),
    ensures
        final(batch).sessions@ == old(batch).sessions@.update(
            i as int,
            final(batch).sessions@[i as int],
        ),
        final(batch).sessions@[i as int].well_formed(),
        reports(
            projections(*project),
            samples_by_config(*sample),
            old(batch).sessions@[i as int],
            step,
            final(batch).sessions@[i as int],
        ),
{
    let request_id: u64 = batch.sessions[i].request_id();
    let step = decode_session_with(&mut batch.sessions[i], project, sample);
    let generated_steps: usize = batch.sessions[i].generated_steps;
    proof {
        reveal(reports);
        assert(batch.sessions@ =~= old(batch).sessions@.update(
            i as int,
            batch.sessions@[i as int],
        ));
    }
    InferenceBatchStep { request_id, step, generated_steps }
}

/// Whether every session of a batch can be advanced with `project` and `sample`.
#[verifier::opaque]
pub open spec fn can_advance<
    T,
    C,
    P: Fn(&[usize]) -> Vec<(KvTensor<T>, KvTensor<T>)>,
    F: Fn(&InferenceState, &GenerationConfig) -> Sampled<C>,
>(sessions: Seq<InferenceSession<T>>, project: P, sample: F) -> bool {
    forall|i: int|
        0 <= i < sessions.len() ==> can_step::<T, C, P, F>(
            #[trigger] sessions[i],
            project,
            sample,
        )
}

/// Whether every session is well-formed.
#[verifier::opaque]
pub open spec fn all_well_formed<T>(sessions: Seq<InferenceSession<T>>) -> bool {
    forall|i: int| 0 <= i < sessions.len() ==> (#[trigger] sessions[i]).well_formed()
}

/// A well-formed session may replace another.
proof fn lemma_one_replaced<T>(
    sessions: Seq<InferenceSession<T>>,
    i: int,
    session: InferenceSession<T>,
)
    requires
        all_well_formed(sessions),
        0 <= i < sessions.len(),
        session.well_formed(),
    ensures
        all_well_formed(sessions.update(i, session)),
{
    reveal(all_well_formed);
}

/// What holds of all sessions holds of one.
proof fn lemma_one_of_all<
    T,
    C,
    P: Fn(&[usize]) -> Vec<(KvTensor<T>, KvTensor<T>)>,
    F: Fn(&InferenceState, &GenerationConfig) -> Sampled<C>,
>(
    sessions: Seq<InferenceSession<T>>,
    first: Seq<InferenceSession<T>>,
    i: int,
    project: P,
    sample: F,
)
    requires
        all_well_formed(sessions),
        can_advance::<T, C, P, F>(first, project, sample),
        0 <= i < sessions.len(),
        0 <= i < first.len(),
        sessions[i] == first[i],
    ensures
        sessions[i].well_formed(),
        can_step::<T, C, P, F>(sessions[i], project, sample),
{
    reveal(all_well_formed);
    reveal(can_advance);
}

/// Whether `steps` report a round of the sessions `before`, after which they are `after`: one step
/// of every session that is not finished, in order. The others stay as they are and are not
/// reported.
pub open spec fn is_round<T, C>(
    projector: Projector<T>,
    samplers: Samplers<C>,
    before: Seq<InferenceSession<T>>,
    steps: Seq<InferenceBatchStep<C>>,
    after: Seq<InferenceSession<T>>,
) -> bool {
    &&& after.len() == before.len()
    &&& steps.len() == active(before, before.len())
    &&& forall|i: int|
        0 <= i < before.len() && (#[trigger] before[i]).finished ==> after[i] == before[i]
    &&& forall|i: int|
        0 <= i < before.len() && !(#[trigger] before[i]).finished ==> reports(
            projector,
            samplers,
            before[i],
            steps[active(before, i as nat) as int],
            after[i],
        )
}

/// Whether a round has come to session `n`.
#[verifier::opaque]
spec fn has_come_to<T, C>(
    projector: Projector<T>,
    samplers: Samplers<C>,
    before: Seq<InferenceSession<T>>,
    steps: Seq<InferenceBatchStep<C>>,
    now: Seq<InferenceSession<T>>,
    n: int,
) -> bool {
    &&& 0 <= n <= before.len()
    &&& now.len() == before.len()
    &&& steps.len() == active(before, n as nat)
    &&& forall|i: int| n <= i < before.len() ==> #[trigger] now[i] == before[i]
    &&& forall|i: int| 0 <= i < n && (#[trigger] before[i]).finished ==> now[i] == before[i]
    &&& forall|i: int|
        0 <= i < n && !(#[trigger] before[i]).finished ==> {
            &&& active(before, i as nat) < steps.len()
            &&& reports(
                projector,
                samplers,
                before[i],
                steps[active(before, i as nat) as int],
                now[i],
            )
        }
}

/// A round goes past a session that is finished.
proof fn lemma_round_goes_past<T, C>(
    projector: Projector<T>,
    samplers: Samplers<C>,
    before: Seq<InferenceSession<T>>,
    steps: Seq<InferenceBatchStep<C>>,
    now: Seq<InferenceSession<T>>,
    n: int,
)
    requires
        has_come_to(projector, samplers, before, steps, now, n),
        n < before.len(),
        now[n].finished,
    ensures
        has_come_to(projector, samplers, before, steps, now, n + 1),
{
    reveal(has_come_to);
    assert(now[n] == before[n]);
}

/// A round takes a step of a session that is not finished.
proof fn lemma_round_takes_a_step<T, C>(
    projector: Projector<T>,
    samplers: Samplers<C>,
    before: Seq<InferenceSession<T>>,
    steps: Seq<InferenceBatchStep<C>>,
    now: Seq<InferenceSession<T>>,
    n: int,
    step: InferenceBatchStep<C>,
    session: InferenceSession<T>,
)
    requires
        has_come_to(projector, samplers, before, steps, now, n),
        n < before.len(),
        !now[n].finished,
        reports(projector, samplers, now[n], step, session),
    ensures
        has_come_to(
            projector,
            samplers,
            before,
            steps.push(step),
            now.update(n, session),
            n + 1,
        ),
{
    reveal(has_come_to);
    assert(now[n] == before[n]);
    let more = steps.push(step);
    let after = now.update(n, session);
    assert forall|i: int| 0 <= i < n + 1 && !(#[trigger] before[i]).finished implies {
        &&& active(before, i as nat) < more.len()
        &&& reports(
            projector,
            samplers,
            before[i],
            more[active(before, i as nat) as int],
            after[i],
        )
    } by {
        if i < n {
            assert(more[active(before, i as nat) as int] == steps[active(
                before,
                i as nat,
            ) as int]);
            assert(after[i] == now[i]);
        }
    }
}

/// Takes one step of every session that is not finished, in order. The others stay as they
/// are and are not reported.
pub fn decode_batch_round_with<T, C, P, F>(
    batch: &mut InferenceBatchState<T>,
    project: &P,
    sample: &F,
) -> (steps: Vec<InferenceBatchStep<C>>) where
    T: Copy,
    P: Fn(&[usize]) -> Vec<(KvTensor<T>, KvTensor<T>)>,
    F: Fn(&InferenceState, &GenerationConfig) -> Sampled<C>,

    requires
        old(batch).well_formed(),
        can_advance::<T, C, P, F>(old(batch).sessions@, *project, *sample),
    ensures
        final(batch).well_formed(),
        is_round(
            projections(*project),
            samples_by_config(*sample),
            old(batch).sessions@,
            steps@,
            final(batch).sessions@,
        ),
{
    let mut steps: Vec<InferenceBatchStep<C>> = Vec::new();
    let ghost first = batch.sessions@;
    let ghost projector = projections::<T, P>(*project);
    let ghost samplers = samples_by_config::<C, F>(*sample);
    proof {
        reveal(has_come_to);
    }
    let mut i: usize = 0;
    while i < batch.sessions.len()
        invariant
            first == old(batch).sessions@,
            projector == projections::<T, P>(*project),
            samplers == samples_by_config::<C, F>(*sample),
            i <= batch.sessions@.len(),
            batch.sessions@.len() == first.len(),
            all_well_formed(batch.sessions@),
            can_advance::<T, C, P, F>(first, *project, *sample),
            has_come_to(projector, samplers, first, steps@, batch.sessions@, i as int),
        decreases first.len() - i,
    {
        let ghost now = batch.sessions@;
        let ghost made = steps@;
        if batch.sessions[i].finished {
            proof {
                lemma_round_goes_past(projector, samplers, first, made, now, i as int);
            }
        } else {
            proof {
                assert(now[i as int] == first[i as int]) by {
                    reveal(has_come_to);
                }
                lemma_one_of_all::<T, C, P, F>(now, first, i as int, *project, *sample);
            }
            let step = decode_one(batch, i, project, sample);
            proof {
                let session = batch.sessions@[i as int];
                lemma_one_replaced(now, i as int, session);
                lemma_round_takes_a_step(
                    projector,
                    samplers,
                    first,
                    made,
                    now,
                    i as int,
                    step,
                    session,
                );
            }
            steps.push(step);
        }
        i = i + 1;
    }
    proof {
        reveal(has_come_to);
    }
    steps
}

/// What is reported of one projector and some samplers is possible with wider ones.
pub proof fn lemma_wider_reports<T, C>(
    projector: Projector<T>,
    samplers: Samplers<C>,
    wide_projector: Projector<T>,
    wide_samplers: Samplers<C>,
    before: InferenceSession<T>,
    step: InferenceBatchStep<C>,
    after: InferenceSession<T>,
)
    requires
        reports(projector, samplers, before, step, after),
        forall|tokens: Seq<usize>, pairs: Seq<(KvTensor<T>, KvTensor<T>)>| #[trigger]
            projector(tokens, pairs) ==> wide_projector(tokens, pairs),
        forall|shown: TokenState, found: Sampled<C>| #[trigger]
            samplers(before.request.config)(shown, found) ==> wide_samplers(
                before.request.config,
            )(shown, found),
    ensures
        reports(wide_projector, wide_samplers, before, step, after),
{
    reveal(reports);
    let config = before.request.config;
    if !before.finished && before.generated_steps < config.max_new_tokens {
        if !before.state@.ended(config) {
            let found = choose|found: Sampled<C>|
                {
                    &&& #[trigger] samplers(config)(before.state@, found)
                    &&& state::is_step_of(step.step, found, config.eos_token_id)
                    &&& after.state@ == state::state_after(before.state@, found.choice)
                };
            assert(wide_samplers(config)(before.state@, found));
        }
        if step.step.token_id is Some {
            let pairs = choose|pairs: Seq<(KvTensor<T>, KvTensor<T>)>|
                {
                    &&& #[trigger] projector(after.state@.context(), pairs)
                    &&& kv_cache::is_filled(after.kv_cache, pairs)
                };
            assert(wide_projector(after.state@.context(), pairs));
        }
    }
}

} // verus!
