//! Admission of inference requests and their grouping into batches.

use super::state::GenerationConfig;
use std::collections::VecDeque;
use vstd::prelude::*;

verus! {

/// A request to generate tokens after a prompt.
#[derive(Debug, Clone, PartialEq, Eq)]
pub struct InferenceRequest {
    pub request_id: u64,
    pub prompt: Vec<usize>,
    pub config: GenerationConfig,
    pub arrival_order: u64,
}

impl InferenceRequest {
    /// The tokens that the request may come to: its prompt and all new ones.
    pub open spec fn budget(self) -> nat {
        self.prompt@.len() + self.config.max_new_tokens as nat
    }

    /// The request from its fields.
    pub fn new(
        request_id: u64,
        prompt: Vec<usize>,
        config: GenerationConfig,
        arrival_order: u64,
    ) -> (request: Self)
        ensures
            request == (InferenceRequest { request_id, prompt, config, arrival_order }),
    {
        InferenceRequest { request_id, prompt, config, arrival_order }
    }

    /// The tokens that the request may come to.
    pub fn token_budget(&self) -> (n: usize)
        requires
            self.budget() <= usize::MAX,
        ensures
            n == self.budget(),
    {
        self.prompt.len() + self.config.max_new_tokens
    }
}

/// The limits of batches and of the queue.
#[derive(Debug, Clone, Copy, PartialEq, Eq, Structural)]
pub struct InferenceSchedulerConfig {
    pub max_batch_size: usize,
    pub max_batch_tokens: usize,
    pub max_queue_len: usize,
}

impl InferenceSchedulerConfig {
    /// A batch may hold something.
    pub open spec fn valid(self) -> bool {
        self.max_batch_size > 0 && self.max_batch_tokens > 0
    }

    /// The configuration from its fields.
    pub fn new(max_batch_size: usize, max_batch_tokens: usize, max_queue_len: usize) -> (config:
        Self)
        requires
            max_batch_size > 0,
            max_batch_tokens > 0,
        ensures
            config == (InferenceSchedulerConfig {
                max_batch_size,
                max_batch_tokens,
                max_queue_len,
            }),
            config.valid(),
    {
        InferenceSchedulerConfig { max_batch_size, max_batch_tokens, max_queue_len }
    }
}

/// Why a request is not admitted.
#[derive(Debug, Clone, Copy, PartialEq, Eq, Structural)]
pub enum InferenceAdmissionError {
    /// As many requests are waiting as may wait.
    QueueFull,
    /// No batch can hold the request.
    RequestTooLarge,
}

/// Requests that run together.
#[derive(Debug, Clone, PartialEq, Eq)]
pub struct InferenceBatch {
    pub requests: Vec<InferenceRequest>,
    pub total_token_budget: usize,
}

/// The identities of requests.
pub open spec fn ids(requests: Seq<InferenceRequest>) -> Seq<u64> {
    requests.map_values(|r: InferenceRequest| r.request_id)
}

impl InferenceBatch {
    /// The number of requests.
    pub fn len(&self) -> (n: usize)
        ensures
            n == self.requests@.len(),
    {
        self.requests.len()
    }

    /// Whether there is no request.
    pub fn is_empty(&self) -> (yes: bool)
        ensures
            yes == (self.requests@.len() == 0),
    {
        self.requests.len() == 0
    }

    /// The identities of the requests, in order.
    pub fn request_ids(&self) -> (list: Vec<u64>)
        ensures
            list@ == ids(self.requests@),
    {
        let mut list: Vec<u64> = Vec::new();
        let mut i: usize = 0;
        while i < self.requests.len()
            invariant
                i <= self.requests@.len(),
                list@ == ids(self.requests@).take(i as int),
            decreases self.requests@.len() - i,
        {
            list.push(self.requests[i].request_id);
            i = i + 1;
            assert(list@ =~= ids(self.requests@).take(i as int));
        }
        assert(list@ =~= ids(self.requests@));
        list
    }
}

/// The budgets of the first `n` requests together.
pub open spec fn total_budget(requests: Seq<InferenceRequest>, n: nat) -> nat
    decreases n,
{
    if n == 0 {
        0
    } else {
        total_budget(requests, (n - 1) as nat) + requests[n - 1].budget()
    }
}

/// Whether the first `n` requests make a batch.
pub open spec fn is_batch(
    requests: Seq<InferenceRequest>,
    n: nat,
    config: InferenceSchedulerConfig,
) -> bool {
    &&& n <= requests.len()
    &&& n <= config.max_batch_size
    &&& n <= 1 || total_budget(requests, n) <= config.max_batch_tokens
}

/// Requests wait in the order of their arrival and leave in batches.
#[derive(Debug, Clone)]
pub struct InferenceScheduler {
    config: InferenceSchedulerConfig,
    pending: VecDeque<InferenceRequest>,
}

impl InferenceScheduler {
    /// The limits.
    pub closed spec fn limits(&self) -> InferenceSchedulerConfig {
        self.config
    }

    /// The requests that wait, the first to leave first.
    pub closed spec fn waiting(&self) -> Seq<InferenceRequest> {
        self.pending@
    }

    /// No more wait than may wait, and each fits into a batch.
    pub open spec fn well_formed(&self) -> bool {
        &&& self.limits().valid()
        &&& self.waiting().len() <= self.limits().max_queue_len
        &&& forall|i: int|
            0 <= i < self.waiting().len() ==> (#[trigger] self.waiting()[i]).budget()
                <= self.limits().max_batch_tokens
    }

    /// A scheduler without requests.
    pub fn new(config: InferenceSchedulerConfig) -> (scheduler: Self)
        requires
            config.valid(),
        ensures
            scheduler.well_formed(),
            scheduler.limits() == config,
            scheduler.waiting() == Seq::<InferenceRequest>::empty(),
    {
        InferenceScheduler { config, pending: VecDeque::new() }
    }

    /// Admits a request at the end of the queue. One that no batch can hold is refused, then
    /// one that finds the queue full; a refusal changes nothing.
    pub fn enqueue(&mut self, request: InferenceRequest) -> (result: Result<
        (),
        InferenceAdmissionError,
    >)
        requires
            old(self).well_formed(),
            request.budget() <= usize::MAX,
        ensures
            final(self).well_formed(),
            final(self).limits() == old(self).limits(),
            result == (if request.budget() > old(self).limits().max_batch_tokens {
                Err(InferenceAdmissionError::RequestTooLarge)
            } else if old(self).waiting().len() >= old(self).limits().max_queue_len {
                Err(InferenceAdmissionError::QueueFull)
            } else {
                Ok(())
            }),
            final(self).waiting() == (if result is Ok {
                old(self).waiting().push(request)
            } else {
                old(self).waiting()
            }),
    {
        if request.token_budget() > self.config.max_batch_tokens {
            return Err(InferenceAdmissionError::RequestTooLarge);
        }
        if self.pending.len() >= self.config.max_queue_len {
            return Err(InferenceAdmissionError::QueueFull);
        }
        self.pending.push_back(request);
        Ok(())
    }

    /// Takes the longest batch off the front of the queue. No request overtakes another: one
    /// that does not fit ends the batch.
    pub fn plan_next_batch(&mut self) -> (batch: Option<InferenceBatch>)
        requires
            old(self).well_formed(),
        ensures
            final(self).well_formed(),
            final(self).limits() == old(self).limits(),
            batch is None <==> old(self).waiting().len() == 0,
            batch is None ==> final(self).waiting() == old(self).waiting(),
            batch matches Some(b) ==> {
                let n = b.requests@.len();
                &&& n >= 1
                &&& is_batch(old(self).waiting(), n, old(self).limits())
                &&& !is_batch(old(self).waiting(), n + 1, old(self).limits())
                &&& b.requests@ == old(self).waiting().take(n as int)
                &&& final(self).waiting() == old(self).waiting().skip(n as int)
                &&& b.total_token_budget == total_budget(old(self).waiting(), n)
                &&& b.total_token_budget <= old(self).limits().max_batch_tokens
            },
    {
        let ghost all = self.pending@;
        let mut requests: Vec<InferenceRequest> = Vec::new();
        let mut total_token_budget: usize = 0;
        let mut blocked: bool = false;
        while !blocked && self.pending.len() > 0 && requests.len() < self.config.max_batch_size
            invariant
                self.config == old(self).config,
                self.config.valid(),
                all == old(self).waiting(),
                requests@.len() <= all.len(),
                requests@.len() <= self.config.max_batch_size,
                requests@ == all.take(requests@.len() as int),
                self.pending@ == all.skip(requests@.len() as int),
                total_token_budget == total_budget(all, requests@.len()),
                total_token_budget <= self.config.max_batch_tokens,
                forall|i: int|
                    0 <= i < all.len() ==> (#[trigger] all[i]).budget()
                        <= self.config.max_batch_tokens,
                blocked ==> requests@.len() >= 1 && requests@.len() < all.len() && total_budget(
                    all,
                    requests@.len() + 1,
                ) > self.config.max_batch_tokens,
            decreases self.pending@.len(), (if blocked { 0int } else { 1int }),
        {
            let ghost n = requests@.len();
            assert(self.pending@[0] == all[n as int]);
            let next_budget: usize = self.pending[0].token_budget();
            if requests.len() > 0 && next_budget > self.config.max_batch_tokens
                - total_token_budget {
                assert(total_budget(all, n + 1) == total_budget(all, n) + all[n as int].budget());
                blocked = true;
            } else {
                if let Some(next) = self.pending.pop_front() {
                    total_token_budget = total_token_budget + next_budget;
                    requests.push(next);
                    assert(total_budget(all, n + 1) == total_budget(all, n)
                        + all[n as int].budget());
                    assert(requests@ =~= all.take(n as int + 1));
                    assert(self.pending@ =~= all.skip(n as int + 1));
                }
            }
        }
        if requests.len() == 0 {
            assert(self.pending@ =~= all);
            None
        } else {
            Some(InferenceBatch { requests, total_token_budget })
        }
    }

    /// How many requests wait.
    pub fn pending_len(&self) -> (n: usize)
        ensures
            n == self.waiting().len(),
    {
        self.pending.len()
    }

    /// Whether no request waits.
    pub fn is_empty(&self) -> (yes: bool)
        ensures
            yes == (self.waiting().len() == 0),
    {
        self.pending.len() == 0
    }

    /// The limits.
    pub fn config(&self) -> (config: InferenceSchedulerConfig)
        ensures
            config == self.limits(),
    {
        self.config
    }
}

/// Requests leave in the order in which they arrived, and none is lost: a batch and what
/// still waits make up what waited before.
pub proof fn law_batches_keep_the_order(
    before: Seq<InferenceRequest>,
    batch: Seq<InferenceRequest>,
    after: Seq<InferenceRequest>,
)
    requires
        batch.len() <= before.len(),
        batch == before.take(batch.len() as int),
        after == before.skip(batch.len() as int),
    ensures
        batch + after == before,
        batch.len() > 0 ==> after.len() < before.len(),
{
    assert(batch + after =~= before);
}

/// A longer batch holds every shorter one: if the first `n` requests make a batch, so do
/// fewer of them.
pub proof fn law_shorter_batches_fit(
    requests: Seq<InferenceRequest>,
    n: nat,
    fewer: nat,
    config: InferenceSchedulerConfig,
)
    requires
        is_batch(requests, n, config),
        fewer <= n,
    ensures
        is_batch(requests, fewer, config),
    decreases n,
{
    if fewer < n {
        assert(total_budget(requests, n) == total_budget(requests, (n - 1) as nat) + requests[n
            - 1].budget());
        law_shorter_batches_fit(requests, (n - 1) as nat, fewer, config);
    }
}

} // verus!
