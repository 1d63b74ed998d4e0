//! What the coordinator of a training group knows and decides.

use crate::tensor::arith::Scalar;
use crate::tensor::number;
use crate::tensor::number::{part, Number};
use crate::tensor::reals;
use crate::tensor::reals::Reading;
use std::collections::HashMap;
use vstd::prelude::*;

verus! {

/// What a worker learns when it joins.
#[derive(Debug)]
pub struct Registration {
    pub rank: u32,
    pub world_size: u32,
    pub peer_addresses: Vec<String>,
}

/// The state of the group: who joined, the sum of the gradients that came in for each
/// parameter and their number, and how many workers wait at the barrier.
#[derive(Debug)]
pub struct CoordinatorState<T> {
    peers: Vec<String>,
    world_size: u32,
    global_step: u64,
    grad_accum: HashMap<u32, Vec<T>>,
    grad_count: HashMap<u32, u32>,
    barrier_count: u32,
}

/// The content of a [`CoordinatorState`].
#[verifier::ext_equal]
pub struct GroupState<T> {
    pub peers: Seq<Seq<char>>,
    pub world_size: u32,
    pub global_step: u64,
    pub sums: Map<u32, Seq<T>>,
    pub counts: Map<u32, u32>,
    pub waiting: u32,
}

/// The texts of a list of addresses.
pub open spec fn texts(list: Seq<String>) -> Seq<Seq<char>> {
    list.map_values(|s: String| s@)
}

impl<T> View for CoordinatorState<T> {
    type V = GroupState<T>;

    closed spec fn view(&self) -> GroupState<T> {
        GroupState {
            peers: texts(self.peers@),
            world_size: self.world_size,
            global_step: self.global_step,
            sums: self.grad_accum@.map_values(|sum: Vec<T>| sum@),
            counts: self.grad_count@,
            waiting: self.barrier_count,
        }
    }
}

/// A sum with a gradient added, as far as both go.
pub open spec fn with_added<T: Scalar>(sum: Seq<T>, grad: Seq<T>) -> Seq<T> {
    Seq::new(
        sum.len(),
        |j: int|
            if j < grad.len() {
                sum[j].sum(grad[j])
            } else {
                sum[j]
            },
    )
}

impl<T: Scalar> GroupState<T> {
    /// Every parameter with a sum has a count.
    pub open spec fn well_formed(self) -> bool {
        self.sums.dom() == self.counts.dom()
    }

    /// The sum of the gradients for a parameter, which starts as long as the first of them.
    pub open spec fn sum_of(self, param_index: u32, len: nat) -> Seq<T> {
        if self.sums.dom().contains(param_index) {
            self.sums[param_index]
        } else {
            Seq::new(len, |j: int| T::nought())
        }
    }

    /// How many gradients came in for a parameter.
    pub open spec fn count_of(self, param_index: u32) -> u32 {
        if self.counts.dom().contains(param_index) {
            self.counts[param_index]
        } else {
            0
        }
    }

    /// The state after one more gradient for a parameter.
    pub open spec fn with_gradient(self, param_index: u32, grad: Seq<T>) -> GroupState<T> {
        GroupState {
            sums: self.sums.insert(
                param_index,
                with_added(self.sum_of(param_index, grad.len()), grad),
            ),
            counts: self.counts.insert(param_index, (self.count_of(param_index) + 1) as u32),
            ..self
        }
    }

    /// Whether one more worker at the barrier opens it.
    pub open spec fn opens(self) -> bool {
        self.waiting + 1 >= self.world_size
    }

    /// The state after one more worker came to the barrier. The last one opens it: the step
    /// is taken, and the gradients are forgotten.
    pub open spec fn with_arrival(self, step: u64) -> GroupState<T> {
        if self.opens() {
            GroupState {
                waiting: 0,
                global_step: step,
                sums: Map::empty(),
                counts: Map::empty(),
                ..self
            }
        } else {
            GroupState { waiting: (self.waiting + 1) as u32, ..self }
        }
    }

    /// The state after `n` workers came to the barrier with the same step.
    pub open spec fn with_arrivals(self, step: u64, n: nat) -> GroupState<T>
        decreases n,
    {
        if n == 0 {
            self
        } else {
            self.with_arrivals(step, (n - 1) as nat).with_arrival(step)
        }
    }
}

impl<T: Scalar> CoordinatorState<T> {
    /// The state before anybody joined.
    pub fn new(world_size: u32) -> (state: Self)
        ensures
            state@ == (GroupState {
                peers: Seq::<Seq<char>>::empty(),
                world_size,
                global_step: 0,
                sums: Map::<u32, Seq<T>>::empty(),
                counts: Map::<u32, u32>::empty(),
                waiting: 0,
            }),
            state@.well_formed(),
    {
        broadcast use vstd::std_specs::hash::group_hash_axioms;

        let state = CoordinatorState {
            peers: Vec::new(),
            world_size,
            global_step: 0,
            grad_accum: HashMap::new(),
            grad_count: HashMap::new(),
            barrier_count: 0,
        };
        assert(state@.sums =~= Map::<u32, Seq<T>>::empty());
        assert(state@.peers =~= Seq::<Seq<char>>::empty());
        state
    }

    /// The last step that the group took.
    pub fn global_step(&self) -> (step: u64)
        ensures
            step == self@.global_step,
    {
        self.global_step
    }

    /// Takes in a worker. Ranks are given in the order of joining; the worker learns the
    /// addresses of all who joined, its own last.
    pub fn register(&mut self, address: String) -> (registration: Registration)
        ensures
            registration.rank == old(self)@.peers.len() as u32,
            registration.world_size == old(self)@.world_size,
            texts(registration.peer_addresses@) == old(self)@.peers.push(address@),
            final(self)@ == (GroupState { peers: old(self)@.peers.push(address@), ..old(self)@ }),
    {
        let rank: u32 = self.peers.len() as u32;
        self.peers.push(address);
        assert(texts(self.peers@) =~= old(self)@.peers.push(address@));
        let mut peer_addresses: Vec<String> = Vec::new();
        let mut i: usize = 0;
        while i < self.peers.len()
            invariant
                i <= self.peers@.len(),
                texts(peer_addresses@) == texts(self.peers@).take(i as int),
            decreases self.peers@.len() - i,
        {
            let ghost before = texts(peer_addresses@);
            let peer: String = self.peers[i].clone();
            peer_addresses.push(peer);
            assert(texts(peer_addresses@) =~= before.push(peer@));
            i = i + 1;
            assert(texts(peer_addresses@) =~= texts(self.peers@).take(i as int));
        }
        assert(texts(peer_addresses@) =~= texts(self.peers@));
        Registration { rank, world_size: self.world_size, peer_addresses }
    }

    /// How many gradients came in for a parameter.
    fn count(&self, param_index: u32) -> (n: u32)
        ensures
            n == self@.count_of(param_index),
    {
        broadcast use vstd::std_specs::hash::group_hash_axioms;

        match self.grad_count.get(&param_index) {
            Some(n) => *n,
            None => 0,
        }
    }

    /// The sum of the gradients for a parameter with one more of them.
    fn added(&self, param_index: u32, grad: &[T]) -> (sum: Vec<T>)
        ensures
            sum@ == with_added(self@.sum_of(param_index, grad@.len()), grad@),
    {
        broadcast use vstd::std_specs::hash::group_hash_axioms;

        let ghost before = self@.sum_of(param_index, grad@.len());
        let held: Option<&Vec<T>> = self.grad_accum.get(&param_index);
        let len: usize = match held {
            Some(sum) => sum.len(),
            None => grad.len(),
        };
        let mut out: Vec<T> = Vec::new();
        let mut j: usize = 0;
        while j < len
            invariant
                j <= len == before.len(),
                held matches Some(sum) ==> sum@ == before,
                held is None ==> before == Seq::new(grad@.len(), |j: int| T::nought()),
                out@ == with_added(before, grad@).take(j as int),
            decreases len - j,
        {
            let sum: T = match held {
                Some(sum) => sum[j],
                None => T::zero(),
            };
            if j < grad.len() {
                out.push(sum.plus(grad[j]));
            } else {
                out.push(sum);
            }
            j = j + 1;
            assert(out@ =~= with_added(before, grad@).take(j as int));
        }
        assert(out@ =~= with_added(before, grad@));
        out
    }

    /// Adds a gradient for a parameter, and says whether as many came in as are asked for.
    pub fn submit_gradient(&mut self, param_index: u32, world_size: u32, grad: &[T]) -> (ready:
        bool)
        requires
            old(self)@.well_formed(),
            old(self)@.count_of(param_index) < u32::MAX,
        ensures
            final(self)@ == old(self)@.with_gradient(param_index, grad@),
            final(self)@.well_formed(),
            ready == (old(self)@.count_of(param_index) + 1 >= world_size),
    {
        broadcast use vstd::std_specs::hash::group_hash_axioms;

        let n: u32 = self.count(param_index) + 1;
        let sum = self.added(param_index, grad);
        self.grad_count.insert(param_index, n);
        self.grad_accum.insert(param_index, sum);
        proof {
            let after = old(self)@.with_gradient(param_index, grad@);
            assert(self@.sums =~= after.sums);
            assert(self@.counts =~= after.counts);
            assert(self@ =~= after);
            assert(self@.sums.dom() =~= self@.counts.dom());
        }
        n >= world_size
    }

    /// Whether as many gradients came in for a parameter as are asked for.
    pub fn gradient_ready(&self, param_index: u32, world_size: u32) -> (ready: bool)
        ensures
            ready == (self@.count_of(param_index) >= world_size),
    {
        self.count(param_index) >= world_size
    }

    /// Takes in a worker at the barrier, and says whether it opened.
    pub fn arrive(&mut self, step: u64) -> (opened: bool)
        requires
            old(self)@.waiting < u32::MAX,
        ensures
            opened == old(self)@.opens(),
            final(self)@ == old(self)@.with_arrival(step),
    {
        broadcast use vstd::std_specs::hash::group_hash_axioms;

        let n: u32 = self.barrier_count + 1;
        if n >= self.world_size {
            self.barrier_count = 0;
            self.global_step = step;
            self.grad_accum.clear();
            self.grad_count.clear();
            assert(self@.sums =~= Map::<u32, Seq<T>>::empty());
            assert(self@ =~= old(self)@.with_arrival(step));
            true
        } else {
            self.barrier_count = n;
            assert(self@ =~= old(self)@.with_arrival(step));
            false
        }
    }

    /// Whether nobody waits at the barrier.
    pub fn barrier_open(&self) -> (yes: bool)
        ensures
            yes == (self@.waiting == 0),
    {
        self.barrier_count == 0
    }
}

impl<T: Number> GroupState<T> {
    /// Whether `average` holds the sums for a parameter, each over the number asked for.
    pub open spec fn is_average(
        self,
        param_index: u32,
        world_size: u32,
        average: Seq<T>,
    ) -> bool {
        &&& average.len() == self.sums[param_index].len()
        &&& forall|j: int|
            0 <= j < average.len() ==> number::is_part(
                self.sums[param_index][j],
                world_size as nat,
                #[trigger] average[j],
            )
    }
}

impl<T: Number> CoordinatorState<T> {
    /// The average of the gradients for a parameter, once as many came in as are asked for:
    /// their sum over the number asked for, element by element.
    pub fn averaged_gradient(&self, param_index: u32, world_size: u32) -> (result: Option<Vec<T>>)
        ensures
            result is Some <==> self@.count_of(param_index) >= world_size
                && self@.sums.dom().contains(param_index),
            result matches Some(average) ==> self@.is_average(
                param_index,
                world_size,
                average@,
            ),
    {
        broadcast use vstd::std_specs::hash::group_hash_axioms;

        if self.count(param_index) < world_size {
            return None;
        }
        match self.grad_accum.get(&param_index) {
            None => None,
            Some(sum) => {
                assert(sum@ == self@.sums[param_index]);
                let mut average: Vec<T> = Vec::new();
                for j in 0..sum.len()
                    invariant
                        sum@ == self@.sums[param_index],
                        average@.len() == j,
                        forall|k: int|
                            0 <= k < j ==> number::is_part(
                                self@.sums[param_index][k],
                                world_size as nat,
                                #[trigger] average@[k],
                            ),
                {
                    average.push(part(sum[j], world_size as u64));
                }
                Some(average)
            },
        }
    }
}

/// The barrier holds workers back until the last of the group has come, and then lets all go
/// on: fewer arrivals change nothing but their number, and as many as the group has take the
/// step and forget the gradients.
pub proof fn law_the_barrier_waits_for_all<T: Scalar>(
    state: GroupState<T>,
    step: u64,
    n: nat,
)
    requires
        state.waiting == 0,
        state.world_size >= 1,
        n <= state.world_size,
    ensures
        n < state.world_size ==> state.with_arrivals(step, n) == (GroupState {
            waiting: n as u32,
            ..state
        }),
        n == state.world_size ==> state.with_arrivals(step, n) == (GroupState {
            waiting: 0,
            global_step: step,
            sums: Map::empty(),
            counts: Map::empty(),
            ..state
        }),
    decreases n,
{
    if n > 0 {
        law_the_barrier_waits_for_all(state, step, (n - 1) as nat);
        let before = state.with_arrivals(step, (n - 1) as nat);
        assert(before.waiting == n - 1);
        assert(before.with_arrival(step) == state.with_arrivals(step, n));
    }
}

/// The state after gradients of several workers for one parameter.
pub open spec fn with_gradients<T: Scalar>(
    state: GroupState<T>,
    param_index: u32,
    grads: Seq<Seq<T>>,
) -> GroupState<T>
    decreases grads.len(),
{
    if grads.len() == 0 {
        state
    } else {
        with_gradients(state, param_index, grads.drop_last()).with_gradient(
            param_index,
            grads.last(),
        )
    }
}

/// The sum of element `j` over all workers.
pub open spec fn sum_over<T: Scalar>(grads: Seq<Seq<T>>, j: int) -> T
    decreases grads.len(),
{
    if grads.len() == 0 {
        T::nought()
    } else {
        sum_over(grads.drop_last(), j).sum(grads.last()[j])
    }
}

/// The gradients of one length that workers send for a parameter are counted and summed up,
/// element by element.
pub proof fn law_gradients_are_summed_up<T: Scalar>(
    state: GroupState<T>,
    param_index: u32,
    grads: Seq<Seq<T>>,
    len: nat,
)
    requires
        !state.sums.dom().contains(param_index),
        !state.counts.dom().contains(param_index),
        0 < grads.len() <= u32::MAX,
        forall|i: int| 0 <= i < grads.len() ==> (#[trigger] grads[i]).len() == len,
    ensures
        with_gradients(state, param_index, grads).count_of(param_index) == grads.len(),
        with_gradients(state, param_index, grads).sums.dom().contains(param_index),
        with_gradients(state, param_index, grads).sums[param_index] == Seq::new(
            len,
            |j: int| sum_over(grads, j),
        ),
    decreases grads.len(),
{
    let rest = grads.drop_last();
    let last = grads.last();
    assert(grads[grads.len() - 1].len() == len);
    let after = with_gradients(state, param_index, grads);
    if rest.len() == 0 {
        assert(with_gradients(state, param_index, rest) == state);
        assert forall|j: int| 0 <= j < len implies #[trigger] after.sums[param_index][j]
            == sum_over(grads, j) by {
            assert(sum_over(rest, j) == T::nought());
        }
    } else {
        assert forall|i: int| 0 <= i < rest.len() implies (#[trigger] rest[i]).len() == len by {
            assert(grads[i].len() == len);
        }
        law_gradients_are_summed_up(state, param_index, rest, len);
    }
    assert(after.sums[param_index] =~= Seq::new(len, |j: int| sum_over(grads, j)));
}

/// The average of the gradients for a parameter, over real numbers: as often as workers were
/// asked for it makes up the sum of what came in.
pub proof fn law_group_averages_make_up_the_sum<T: Number>(
    reading: Reading<T>,
    state: GroupState<T>,
    param_index: u32,
    world_size: u32,
    average: Seq<T>,
    j: int,
)
    requires
        reading.is_faithful(),
        world_size > 0,
        reading.all_finite(state.sums[param_index]),
        state.is_average(param_index, world_size, average),
        0 <= j < state.sums[param_index].len(),
    ensures
        average.len() == state.sums[param_index].len(),
        (reading.finite)(average[j]),
        reading.at(average, j) * (world_size as real) == reading.at(state.sums[param_index], j),
{
    let sum = state.sums[param_index];
    assert((reading.finite)(sum[j]));
    reading.lemma_part(sum[j], world_size as nat, average[j]);
    reals::lemma_quotient(reading.at(sum, j), world_size as real);
}

} // verus!
