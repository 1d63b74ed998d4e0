//! Collecting samples until there are enough to train on.

use crate::optim::schedule::Optimizer;
use vstd::prelude::*;

verus! {

/// The tokens of an input and of what should follow them.
pub type TokenSample = (Vec<usize>, Vec<usize>);

/// Buffers samples and counts the steps of training.
#[derive(Debug)]
pub struct IncrementalTrainer<O: Optimizer> {
    optimizer: O,
    micro_batch_size: usize,
    buffer: Vec<TokenSample>,
    total_steps: u64,
}

impl<O: Optimizer> IncrementalTrainer<O> {
    /// The samples that wait.
    pub closed spec fn waiting(&self) -> Seq<TokenSample> {
        self.buffer@
    }

    /// How many samples are enough.
    pub closed spec fn threshold(&self) -> nat {
        self.micro_batch_size as nat
    }

    /// The steps of training so far.
    pub closed spec fn steps(&self) -> u64 {
        self.total_steps
    }

    /// The optimizer.
    pub closed spec fn held(&self) -> O {
        self.optimizer
    }

    /// A trainer without samples.
    pub fn new(optimizer: O, micro_batch_size: usize) -> (trainer: Self)
        ensures
            trainer.held() == optimizer,
            trainer.threshold() == micro_batch_size,
            trainer.waiting() == Seq::<TokenSample>::empty(),
            trainer.steps() == 0,
    {
        IncrementalTrainer { optimizer, micro_batch_size, buffer: Vec::new(), total_steps: 0 }
    }

    /// Takes in a sample, and says whether there are enough to train on.
    pub fn push_sample(&mut self, input_ids: Vec<usize>, target_ids: Vec<usize>) -> (enough: bool)
        ensures
            final(self).waiting() == old(self).waiting().push((input_ids, target_ids)),
            enough == (final(self).waiting().len() >= old(self).threshold()),
            final(self).threshold() == old(self).threshold(),
            final(self).steps() == old(self).steps(),
            final(self).held() == old(self).held(),
    {
        self.buffer.push((input_ids, target_ids));
        self.buffer.len() >= self.micro_batch_size
    }

    /// Hands out all samples that wait.
    pub fn drain_batch(&mut self) -> (batch: Vec<TokenSample>)
        ensures
            batch@ == old(self).waiting(),
            final(self).waiting() == Seq::<TokenSample>::empty(),
            final(self).threshold() == old(self).threshold(),
            final(self).steps() == old(self).steps(),
            final(self).held() == old(self).held(),
    {
        let mut batch: Vec<TokenSample> = Vec::new();
        std::mem::swap(&mut batch, &mut self.buffer);
        batch
    }

    /// Counts a step of training.
    pub fn step_completed(&mut self)
        requires
            old(self).steps() < u64::MAX,
        ensures
            final(self).steps() == old(self).steps() + 1,
            final(self).waiting() == old(self).waiting(),
            final(self).threshold() == old(self).threshold(),
            final(self).held() == old(self).held(),
    {
        self.total_steps = self.total_steps + 1;
    }

    /// The steps of training so far.
    pub fn total_steps(&self) -> (n: u64)
        ensures
            n == self.steps(),
    {
        self.total_steps
    }

    /// How many samples wait.
    pub fn buffer_len(&self) -> (n: usize)
        ensures
            n == self.waiting().len(),
    {
        self.buffer.len()
    }

    /// The optimizer, to be used.
    pub fn optimizer_mut(&mut self) -> (optimizer: &mut O)
        ensures
            *optimizer == old(self).held(),
            final(self).held() == *final(optimizer),
            final(self).waiting() == old(self).waiting(),
            final(self).threshold() == old(self).threshold(),
            final(self).steps() == old(self).steps(),
    {
        &mut self.optimizer
    }
}

} // verus!
