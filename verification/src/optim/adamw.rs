//! Descent along averages of the gradient and of its square.

use super::grads;
use super::sgd;
use crate::tensor::arith;
use crate::tensor::arith::{has_unsound, Scalar};
use crate::tensor::grad;
use crate::tensor::number::Number;
use crate::tensor::reals;
use crate::tensor::reals::Reading;
use vstd::prelude::*;

verus! {

/// How much of an average is kept, and how much of what is new goes into it.
#[derive(Debug, Clone, Copy, PartialEq, Eq)]
pub struct Blend<T> {
    pub kept: T,
    pub added: T,
}

/// The step length, how much of the averages of the gradients and of their squares is kept, a
/// small number that keeps quotients small, the decay of the parameters, the averages, and the
/// number of steps.
#[derive(Debug, Clone, PartialEq, Eq)]
pub struct AdamW<T> {
    pub lr: T,
    pub beta1: T,
    pub beta2: T,
    pub eps: T,
    pub weight_decay: T,
    pub m: Vec<Vec<T>>,
    pub v: Vec<Vec<T>>,
    pub t: u64,
}

/// The numbers of one step, the same for all elements: how the averages are brought up to date,
/// what the parameters are multiplied by before, if by anything, and what the averages are
/// divided by to make up for their start from nothing.
#[derive(Debug, Clone, Copy, PartialEq, Eq)]
pub struct StepNumbers<T> {
    pub first: Blend<T>,
    pub second: Blend<T>,
    pub decay: Option<T>,
    pub bias1: T,
    pub bias2: T,
}

/// The average of the gradients with one more of them, as far as that goes.
pub open spec fn first_moment<T: Scalar>(blend: Blend<T>, m: Seq<T>, grad: Seq<T>) -> Seq<T> {
    Seq::new(
        m.len(),
        |j: int|
            if j < grad.len() {
                blend.kept.product(m[j]).sum(blend.added.product(grad[j]))
            } else {
                m[j]
            },
    )
}

/// The average of the squares with one more of them, as far as that goes.
pub open spec fn second_moment<T: Scalar>(blend: Blend<T>, v: Seq<T>, grad: Seq<T>) -> Seq<T> {
    Seq::new(
        v.len(),
        |j: int|
            if j < grad.len() {
                blend.kept.product(v[j]).sum(blend.added.product(grad[j]).product(grad[j]))
            } else {
                v[j]
            },
    )
}

/// A parameter after its decay.
pub open spec fn decayed<T: Scalar>(decay: Option<T>, weights: Seq<T>) -> Seq<T> {
    match decay {
        Some(factor) => arith::scaled(weights, factor),
        None => weights,
    }
}

/// Whether `blend` keeps `beta` of an average.
pub open spec fn is_blend<T: Number>(beta: T, blend: Blend<T>) -> bool {
    &&& blend.kept == beta
    &&& exists|one: T| #[trigger] T::one.ensures((), one) && blend.added == one.difference(beta)
}

/// Whether `bias` is what is missing of one in the `t`-th power of `beta`.
pub open spec fn is_bias<T: Number>(beta: T, t: u64, bias: T) -> bool {
    exists|one: T, power: T|
        {
            &&& #[trigger] T::one.ensures((), one)
            &&& #[trigger] T::power.ensures((beta, t), power)
            &&& bias == one.difference(power)
        }
}

/// Whether parameters are multiplied by `decay` with this step length and weight decay: by what
/// is missing of one in their product, unless the weight decay is zero.
pub open spec fn is_decay<T: Number>(lr: T, weight_decay: T, decay: Option<T>) -> bool {
    exists|one: T, nothing: bool|
        {
            &&& #[trigger] T::one.ensures((), one)
            &&& #[trigger] T::is_zero.ensures((weight_decay,), nothing)
            &&& decay == if nothing {
                None
            } else {
                Some(one.difference(lr.product(weight_decay)))
            }
        }
}

/// Whether a step from `w` leads to `after`: by the step length, over the root of the average of
/// the squares, along the average of the gradients; both averages over their bias.
pub open spec fn is_descended<T: Number>(
    lr: T,
    eps: T,
    numbers: StepNumbers<T>,
    w: T,
    m: T,
    v: T,
    after: T,
) -> bool {
    exists|m_hat: T, v_hat: T, root: T, way: T|
        {
            &&& #[trigger] T::over.ensures((m, numbers.bias1), m_hat)
            &&& #[trigger] T::over.ensures((v, numbers.bias2), v_hat)
            &&& #[trigger] T::root.ensures((v_hat,), root)
            &&& #[trigger] T::over.ensures((lr.product(m_hat), root.sum(eps)), way)
            &&& after == w.difference(way)
        }
}

/// Whether every element of `after` is a step down from the decayed parameter.
pub open spec fn is_descent<T: Number>(
    lr: T,
    eps: T,
    numbers: StepNumbers<T>,
    weights: Seq<T>,
    m: Seq<T>,
    v: Seq<T>,
    after: Seq<T>,
) -> bool {
    &&& after.len() == weights.len()
    &&& forall|j: int|
        0 <= j < weights.len() ==> is_descended(
            lr,
            eps,
            numbers,
            weights[j],
            m[j],
            v[j],
            #[trigger] after[j],
        )
}

/// Whether the averages of parameters of the given lengths start from nothing.
pub open spec fn starts_from_nothing<T: Scalar>(averages: Seq<Vec<T>>, lens: Seq<usize>) -> bool {
    &&& averages.len() == lens.len()
    &&& forall|i: int|
        0 <= i < lens.len() ==> (#[trigger] averages[i])@ == Seq::new(
            lens[i] as nat,
            |j: int| T::nought(),
        )
}

/// Whether there are averages for every parameter, and they go as far as the elements and the
/// gradients of those that are moved.
pub open spec fn reach<T: Scalar>(
    averages: Seq<Vec<T>>,
    params: Seq<Vec<T>>,
    grads: Seq<Option<Seq<T>>>,
) -> bool {
    &&& averages.len() == params.len()
    &&& forall|i: int|
        0 <= i < grads.len() && sgd::usable(#[trigger] grads[i]) ==> {
            &&& params[i]@.len() <= averages[i]@.len()
            &&& grads[i]->0.len() <= averages[i]@.len()
        }
}

/// The average of the gradients with one more of them.
fn advance_first<T: Scalar>(blend: Blend<T>, m: &Vec<T>, grad: &Vec<T>) -> (next: Vec<T>)
    ensures
        next@ == first_moment(blend, m@, grad@),
{
    let ghost whole = first_moment(blend, m@, grad@);
    let mut next: Vec<T> = Vec::new();
    let mut j: usize = 0;
    while j < m.len()
        invariant
            j <= m@.len(),
            whole == first_moment(blend, m@, grad@),
            next@ == whole.take(j as int),
        decreases m@.len() - j,
    {
        if j < grad.len() {
            next.push(blend.kept.times(m[j]).plus(blend.added.times(grad[j])));
        } else {
            next.push(m[j]);
        }
        j = j + 1;
        assert(next@ =~= whole.take(j as int));
    }
    assert(next@ =~= whole);
    next
}

/// The average of the squares with one more of them.
fn advance_second<T: Scalar>(blend: Blend<T>, v: &Vec<T>, grad: &Vec<T>) -> (next: Vec<T>)
    ensures
        next@ == second_moment(blend, v@, grad@),
{
    let ghost whole = second_moment(blend, v@, grad@);
    let mut next: Vec<T> = Vec::new();
    let mut j: usize = 0;
    while j < v.len()
        invariant
            j <= v@.len(),
            whole == second_moment(blend, v@, grad@),
            next@ == whole.take(j as int),
        decreases v@.len() - j,
    {
        if j < grad.len() {
            next.push(blend.kept.times(v[j]).plus(blend.added.times(grad[j]).times(grad[j])));
        } else {
            next.push(v[j]);
        }
        j = j + 1;
        assert(next@ =~= whole.take(j as int));
    }
    assert(next@ =~= whole);
    next
}

/// A list of `n` times the number that sums start from.
fn zeros<T: Scalar>(n: usize) -> (out: Vec<T>)
    ensures
        out@ == Seq::new(n as nat, |j: int| T::nought()),
{
    let mut out: Vec<T> = Vec::new();
    while out.len() < n
        invariant
            out@.len() <= n,
            forall|j: int| 0 <= j < out@.len() ==> #[trigger] out@[j] == T::nought(),
        decreases n - out@.len(),
    {
        out.push(T::zero());
    }
    assert(out@ =~= Seq::new(n as nat, |j: int| T::nought()));
    out
}

impl<T: Number> AdamW<T> {
    /// Descent for parameters of the given lengths; the averages start from nothing.
    pub fn new(lens: &[usize], lr: T, beta1: T, beta2: T, eps: T, weight_decay: T) -> (adam: Self)
        ensures
            adam.lr == lr,
            adam.beta1 == beta1,
            adam.beta2 == beta2,
            adam.eps == eps,
            adam.weight_decay == weight_decay,
            adam.t == 0,
            starts_from_nothing(adam.m@, lens@),
            starts_from_nothing(adam.v@, lens@),
    {
        let mut m: Vec<Vec<T>> = Vec::new();
        let mut v: Vec<Vec<T>> = Vec::new();
        let mut i: usize = 0;
        while i < lens.len()
            invariant
                i <= lens@.len(),
                m@.len() == i,
                v@.len() == i,
                forall|k: int|
                    0 <= k < i ==> (#[trigger] m@[k])@ == Seq::new(
                        lens@[k] as nat,
                        |j: int| T::nought(),
                    ),
                forall|k: int|
                    0 <= k < i ==> (#[trigger] v@[k])@ == Seq::new(
                        lens@[k] as nat,
                        |j: int| T::nought(),
                    ),
            decreases lens@.len() - i,
        {
            m.push(zeros(lens[i]));
            v.push(zeros(lens[i]));
            i = i + 1;
        }
        AdamW { lr, beta1, beta2, eps, weight_decay, m, v, t: 0 }
    }

    /// Whether this is descent with the numbers that are commonly used, which has not begun.
    pub open spec fn is_common(self, lens: Seq<usize>, lr: T) -> bool {
        &&& self.lr == lr
        &&& T::decimal.ensures((9, 1), self.beta1)
        &&& T::decimal.ensures((999, 3), self.beta2)
        &&& T::decimal.ensures((1, 8), self.eps)
        &&& T::decimal.ensures((1, 2), self.weight_decay)
        &&& self.t == 0
        &&& starts_from_nothing(self.m@, lens)
        &&& starts_from_nothing(self.v@, lens)
    }

    /// Descent with the numbers that are commonly used.
    pub fn default(lens: &[usize], lr: T) -> (adam: Self)
        ensures
            adam.is_common(lens@, lr),
    {
        let beta1: T = T::decimal(9, 1);
        let beta2: T = T::decimal(999, 3);
        let eps: T = T::decimal(1, 8);
        let weight_decay: T = T::decimal(1, 2);
        Self::new(lens, lr, beta1, beta2, eps, weight_decay)
    }

    /// The step length from now on.
    pub fn set_lr(&mut self, lr: T)
        ensures
            *final(self) == (AdamW { lr, ..*old(self) }),
    {
        self.lr = lr;
    }

    /// Whether `numbers` are those of step `t`.
    pub open spec fn are_numbers_of(&self, t: u64, numbers: StepNumbers<T>) -> bool {
        &&& is_blend(self.beta1, numbers.first)
        &&& is_blend(self.beta2, numbers.second)
        &&& is_decay(self.lr, self.weight_decay, numbers.decay)
        &&& is_bias(self.beta1, t, numbers.bias1)
        &&& is_bias(self.beta2, t, numbers.bias2)
    }

    /// The numbers of step `t`.
    fn numbers_of(&self, t: u64) -> (numbers: StepNumbers<T>)
        ensures
            self.are_numbers_of(t, numbers),
    {
        let one: T = T::one();
        let beta1: T = self.beta1;
        let beta2: T = self.beta2;
        let weight_decay: T = self.weight_decay;
        let nothing: bool = weight_decay.is_zero();
        let power1: T = beta1.power(t);
        let power2: T = beta2.power(t);
        assert(T::one.ensures((), one));
        assert(T::is_zero.ensures((self.weight_decay,), nothing));
        assert(T::power.ensures((self.beta1, t), power1));
        assert(T::power.ensures((self.beta2, t), power2));
        StepNumbers {
            first: Blend { kept: beta1, added: one.minus(beta1) },
            second: Blend { kept: beta2, added: one.minus(beta2) },
            decay: if nothing {
                None
            } else {
                Some(one.minus(self.lr.times(weight_decay)))
            },
            bias1: one.minus(power1),
            bias2: one.minus(power2),
        }
    }

    /// Whether parameter and averages `i` come out of the step with these numbers.
    pub open spec fn is_moved(
        &self,
        numbers: StepNumbers<T>,
        grad: Option<Seq<T>>,
        before: (Seq<T>, Seq<T>, Seq<T>),
        after: (Seq<T>, Seq<T>, Seq<T>),
    ) -> bool {
        if sgd::usable(grad) {
            &&& after.1 == first_moment(numbers.first, before.1, grad->0)
            &&& after.2 == second_moment(numbers.second, before.2, grad->0)
            &&& is_descent(
                self.lr,
                self.eps,
                numbers,
                decayed(numbers.decay, before.0),
                after.1,
                after.2,
                after.0,
            )
        } else {
            after == before
        }
    }

    /// Counts a step. Returned are its numbers.
    pub fn begin_step(&mut self) -> (numbers: StepNumbers<T>)
        requires
            old(self).t < u64::MAX,
        ensures
            *final(self) == (AdamW { t: (old(self).t + 1) as u64, ..*old(self) }),
            old(self).are_numbers_of((old(self).t + 1) as u64, numbers),
    {
        let numbers: StepNumbers<T> = self.numbers_of(self.t + 1);
        self.t = self.t + 1;
        numbers
    }

    /// Brings the averages of parameter `i` up to date, lets it decay and moves every element
    /// along its averages. A parameter without a gradient, or with one that cannot be used, stays
    /// as it is, and so do its averages.
    pub fn step_one(
        &mut self,
        numbers: StepNumbers<T>,
        i: usize,
        weights: &mut Vec<T>,
        grad: &Option<Vec<T>>,
    )
        requires
            i < old(self).m@.len(),
            i < old(self).v@.len(),
            sgd::usable(grad::value(*grad)) ==> {
                &&& old(weights)@.len() <= old(self).m@[i as int]@.len()
                &&& old(weights)@.len() <= old(self).v@[i as int]@.len()
                &&& grad::value(*grad)->0.len() <= old(self).m@[i as int]@.len()
                &&& grad::value(*grad)->0.len() <= old(self).v@[i as int]@.len()
            },
        ensures
            old(self).is_moved(
                numbers,
                grad::value(*grad),
                (old(weights)@, old(self).m@[i as int]@, old(self).v@[i as int]@),
                (final(weights)@, final(self).m@[i as int]@, final(self).v@[i as int]@),
            ),
            final(self).m@ == old(self).m@.update(i as int, final(self).m@[i as int]),
            final(self).v@ == old(self).v@.update(i as int, final(self).v@[i as int]),
            *final(self) == (AdamW { m: final(self).m, v: final(self).v, ..*old(self) }),
    {
        match grad {
            Some(grad) => {
                if !has_unsound(grad.as_slice()) {
                    let m = advance_first(numbers.first, &self.m[i], grad);
                    let v = advance_second(numbers.second, &self.v[i], grad);
                    *weights = descend_from(self.lr, self.eps, numbers, &*weights, &m, &v);
                    self.m.set(i, m);
                    self.v.set(i, v);
                }
            },
            None => {},
        }
        assert(self.m@ =~= old(self).m@.update(i as int, self.m@[i as int]));
        assert(self.v@ =~= old(self).v@.update(i as int, self.v@[i as int]));
    }

    /// Whether a step with these gradients leads to `next` and `moved`.
    pub open spec fn steps_to(
        self,
        params: Seq<Vec<T>>,
        grads: Seq<Option<Seq<T>>>,
        next: AdamW<T>,
        moved: Seq<Vec<T>>,
    ) -> bool {
        &&& next.t == self.t + 1
        &&& next.lr == self.lr
        &&& next.beta1 == self.beta1
        &&& next.beta2 == self.beta2
        &&& next.eps == self.eps
        &&& next.weight_decay == self.weight_decay
        &&& moved.len() == params.len()
        &&& next.m@.len() == self.m@.len()
        &&& next.v@.len() == self.v@.len()
        &&& exists|numbers: StepNumbers<T>|
            {
                &&& #[trigger] self.are_numbers_of((self.t + 1) as u64, numbers)
                &&& forall|i: int|
                    0 <= i < grads.len() ==> self.is_moved(
                        numbers,
                        #[trigger] grads[i],
                        (params[i]@, self.m@[i]@, self.v@[i]@),
                        (moved[i]@, next.m@[i]@, next.v@[i]@),
                    )
            }
    }

    /// Counts a step, and moves every parameter along its averages.
    pub fn step(&mut self, params: &mut Vec<Vec<T>>, grads: &Vec<Option<Vec<T>>>)
        requires
            old(self).t < u64::MAX,
            grads@.len() == old(params)@.len(),
            reach(old(self).m@, old(params)@, grads::values(grads@)),
            reach(old(self).v@, old(params)@, grads::values(grads@)),
        ensures
            old(self).steps_to(
                old(params)@,
                grads::values(grads@),
                *final(self),
                final(params)@,
            ),
    {
        let numbers: StepNumbers<T> = self.begin_step();
        assert(old(self).are_numbers_of((old(self).t + 1) as u64, numbers));
        let ghost given = grads::values(grads@);
        let mut i: usize = 0;
        while i < grads.len()
            invariant
                i <= grads@.len() == params@.len(),
                params@.len() == old(params)@.len(),
                self.m@.len() == params@.len(),
                self.v@.len() == params@.len(),
                reach(old(self).m@, old(params)@, given),
                reach(old(self).v@, old(params)@, given),
                self.t == old(self).t + 1,
                self.lr == old(self).lr,
                self.beta1 == old(self).beta1,
                self.beta2 == old(self).beta2,
                self.eps == old(self).eps,
                self.weight_decay == old(self).weight_decay,
                given == grads::values(grads@),
                forall|k: int|
                    i <= k < grads@.len() ==> #[trigger] params@[k] == old(params)@[k],
                forall|k: int| i <= k < grads@.len() ==> #[trigger] self.m@[k] == old(self).m@[k],
                forall|k: int| i <= k < grads@.len() ==> #[trigger] self.v@[k] == old(self).v@[k],
                forall|k: int|
                    0 <= k < i ==> old(self).is_moved(
                        numbers,
                        #[trigger] given[k],
                        (old(params)@[k]@, old(self).m@[k]@, old(self).v@[k]@),
                        (params@[k]@, self.m@[k]@, self.v@[k]@),
                    ),
            decreases grads@.len() - i,
        {
            assert(given[i as int] == grad::value(grads@[i as int]));
            assert(params@[i as int] == old(params)@[i as int]);
            assert(self.m@[i as int] == old(self).m@[i as int]);
            assert(self.v@[i as int] == old(self).v@[i as int]);
            self.step_one(numbers, i, &mut params[i], &grads[i]);
            i = i + 1;
        }
    }
}

/// One step down.
pub fn descend_one<T: Number>(lr: T, eps: T, numbers: StepNumbers<T>, w: T, m: T, v: T) -> (after: T)
    ensures
        is_descended(lr, eps, numbers, w, m, v, after),
{
    let m_hat: T = m.over(numbers.bias1);
    let v_hat: T = v.over(numbers.bias2);
    let root: T = v_hat.root();
    let way: T = lr.times(m_hat).over(root.plus(eps));
    assert(T::over.ensures((m, numbers.bias1), m_hat));
    assert(T::over.ensures((v, numbers.bias2), v_hat));
    assert(T::root.ensures((v_hat,), root));
    assert(T::over.ensures((lr.product(m_hat), root.sum(eps)), way));
    w.minus(way)
}

/// A parameter after its decay and a step down.
fn descend_from<T: Number>(
    lr: T,
    eps: T,
    numbers: StepNumbers<T>,
    weights: &Vec<T>,
    m: &Vec<T>,
    v: &Vec<T>,
) -> (out: Vec<T>)
    requires
        weights@.len() <= m@.len(),
        weights@.len() <= v@.len(),
    ensures
        is_descent(lr, eps, numbers, decayed(numbers.decay, weights@), m@, v@, out@),
{
    let mut out: Vec<T> = Vec::new();
    for j in 0..weights.len()
        invariant
            weights@.len() <= m@.len(),
            weights@.len() <= v@.len(),
            out@.len() == j,
            forall|k: int|
                0 <= k < j ==> is_descended(
                    lr,
                    eps,
                    numbers,
                    decayed(numbers.decay, weights@)[k],
                    m@[k],
                    v@[k],
                    #[trigger] out@[k],
                ),
    {
        let kept: T = match numbers.decay {
            Some(factor) => weights[j].times(factor),
            None => weights[j],
        };
        assert(kept == decayed(numbers.decay, weights@)[j as int]);
        out.push(descend_one(lr, eps, numbers, kept, m[j], v[j]));
    }
    out
}

/// An average in which every step before counts `beta` times as much as the one after it, and all
/// of them together what is missing of one in the power of `beta`.
pub open spec fn faded(beta: real, n: nat, grads: spec_fn(int) -> real) -> real {
    reals::sum_to(n, |k: int| (1real - beta) * reals::pow(beta, (n - 1 - k) as nat) * grads(k))
}

/// One more step fades the average and adds to it.
proof fn lemma_one_more_step(beta: real, n: nat, grads: spec_fn(int) -> real)
    ensures
        faded(beta, n + 1, grads) == beta * faded(beta, n, grads) + (1real - beta) * grads(
            n as int,
        ),
{
    let now = |k: int| (1real - beta) * reals::pow(beta, (n + 1 - 1 - k) as nat) * grads(k);
    let before = |k: int| (1real - beta) * reals::pow(beta, (n - 1 - k) as nat) * grads(k);
    assert forall|k: int| 0 <= k < n implies #[trigger] now(k) == beta * before(k) by {
        let (c, p, g) = (1real - beta, reals::pow(beta, (n - 1 - k) as nat), grads(k));
        assert(reals::pow(beta, (n - k) as nat) == p * beta);
        assert(c * (p * beta) * g == beta * (c * p * g)) by (nonlinear_arith);
    }
    reals::lemma_sum_of_multiples(n, beta, before, now);
    assert(faded(beta, n + 1, grads) == reals::sum_to(n + 1, now));
    assert(reals::pow(beta, 0) == 1real);
    assert((1real - beta) * 1real * grads(n as int) == (1real - beta) * grads(n as int))
        by (nonlinear_arith);
}

/// The average of what never changes.
proof fn lemma_faded_constant(beta: real, n: nat, grads: spec_fn(int) -> real, g: real)
    requires
        forall|k: int| 0 <= k < n ==> #[trigger] grads(k) == g,
    ensures
        faded(beta, n, grads) == g * (1real - reals::pow(beta, n)),
    decreases n,
{
    if n == 0 {
        assert(g * (1real - 1real) == 0real) by (nonlinear_arith);
    } else {
        let m = (n - 1) as nat;
        lemma_faded_constant(beta, m, grads, g);
        lemma_one_more_step(beta, m, grads);
        assert(grads(m as int) == g);
        let p = reals::pow(beta, m);
        assert(beta * (g * (1real - p)) + (1real - beta) * g == g * (1real - p * beta))
            by (nonlinear_arith);
    }
}

/// Whether there is a gradient of real numbers, for element `j` too.
pub open spec fn has_gradient<T>(reading: Reading<T>, grad: Option<Seq<T>>, j: int) -> bool {
    &&& grad is Some
    &&& j < grad->0.len()
    &&& reading.all_finite(grad->0)
}

/// What a new optimizer goes through with these gradients, and where the parameters go.
pub struct AdamHistory<T> {
    pub states: Seq<AdamW<T>>,
    pub params: Seq<Seq<Vec<T>>>,
    pub grads: Seq<Seq<Option<Seq<T>>>>,
}

impl<T: Number> AdamHistory<T> {
    /// Whether every step follows from the one before.
    pub open spec fn is_history(self, lens: Seq<usize>) -> bool {
        &&& self.states.len() == self.grads.len() + 1
        &&& self.params.len() == self.grads.len() + 1
        &&& self.states[0].t == 0
        &&& starts_from_nothing(self.states[0].m@, lens)
        &&& starts_from_nothing(self.states[0].v@, lens)
        &&& forall|k: int|
            0 <= k < self.grads.len() ==> {
                &&& (#[trigger] self.states[k]).steps_to(
                    self.params[k],
                    self.grads[k],
                    self.states[k + 1],
                    self.params[k + 1],
                )
                &&& self.grads[k].len() == lens.len()
            }
    }

    /// The gradient of element `j` of parameter `i` in step `k`.
    pub open spec fn grad_at(self, reading: Reading<T>, i: int, j: int, k: int) -> real {
        reading.of(self.grads[k][i]->0[j])
    }

    /// Whether parameter `i` has a gradient of real numbers, for element `j` too, in each of the
    /// first `n` steps.
    pub open spec fn is_trained(self, reading: Reading<T>, i: int, j: int, n: int) -> bool {
        forall|k: int|
            0 <= k < n ==> has_gradient(reading, (#[trigger] self.grads[k])[i], j)
    }
}

impl<T: Number> AdamW<T> {
    /// Whether the settings stand for real numbers that make sense.
    pub open spec fn is_real(self, reading: Reading<T>) -> bool {
        &&& (reading.finite)(self.lr)
        &&& (reading.finite)(self.beta1) && 0real <= reading.of(self.beta1) < 1real
        &&& (reading.finite)(self.beta2) && 0real <= reading.of(self.beta2) < 1real
        &&& (reading.finite)(self.eps) && reading.of(self.eps) >= 0real
        &&& (reading.finite)(self.weight_decay)
    }
}

/// The averages of an optimizer, over real numbers: after `n` steps they are those of all gradients
/// so far and of their squares, in which every step counts `beta` times as much as the next one.
pub proof fn law_averages_fade<T: Number>(
    reading: Reading<T>,
    history: AdamHistory<T>,
    lens: Seq<usize>,
    i: int,
    j: int,
    n: nat,
)
    requires
        reading.is_faithful(),
        history.is_history(lens),
        history.states[0].is_real(reading),
        0 <= i < lens.len(),
        0 <= j < lens[i],
        n <= history.grads.len(),
        history.is_trained(reading, i, j, n as int),
    ensures
        ({
            let (first, now) = (history.states[0], history.states[n as int]);
            let grads = |k: int| history.grad_at(reading, i, j, k);
            let squares = |k: int| grads(k) * grads(k);
            &&& now.t == n
            &&& now.is_real(reading)
            &&& now.lr == first.lr && now.eps == first.eps
            &&& now.beta1 == first.beta1 && now.beta2 == first.beta2
            &&& now.weight_decay == first.weight_decay
            &&& now.m@[i]@.len() == lens[i] && now.v@[i]@.len() == lens[i]
            &&& reading.reads(now.m@[i]@[j], faded(reading.of(first.beta1), n, grads))
            &&& reading.reads(now.v@[i]@[j], faded(reading.of(first.beta2), n, squares))
        }),
    decreases n,
{
    let first = history.states[0];
    let grads = |k: int| history.grad_at(reading, i, j, k);
    let squares = |k: int| grads(k) * grads(k);
    if n == 0 {
        assert(first.m@[i]@[j] == T::nought());
        assert(first.v@[i]@[j] == T::nought());
    } else {
        let k = (n - 1) as nat;
        law_averages_fade(reading, history, lens, i, j, k);
        let (before, now) = (history.states[k as int], history.states[n as int]);
        assert(before.steps_to(
            history.params[k as int],
            history.grads[k as int],
            now,
            history.params[n as int],
        ));
        let g = history.grads[k as int][i]->0;
        assert(has_gradient(reading, history.grads[k as int][i], j));
        assert(sgd::usable(history.grads[k as int][i])) by {
            assert forall|x: int| 0 <= x < g.len() implies (#[trigger] g[x]).sound() by {
                assert((reading.finite)(g[x]));
            }
        }
        let numbers = choose|numbers: StepNumbers<T>|
            {
                &&& #[trigger] before.are_numbers_of((before.t + 1) as u64, numbers)
                &&& forall|i: int|
                    0 <= i < history.grads[k as int].len() ==> before.is_moved(
                        numbers,
                        #[trigger] history.grads[k as int][i],
                        (history.params[k as int][i]@, before.m@[i]@, before.v@[i]@),
                        (history.params[n as int][i]@, now.m@[i]@, now.v@[i]@),
                    )
            };
        assert(before.is_moved(
            numbers,
            history.grads[k as int][i],
            (history.params[k as int][i]@, before.m@[i]@, before.v@[i]@),
            (history.params[n as int][i]@, now.m@[i]@, now.v@[i]@),
        ));
        assert((reading.finite)(g[j]));
        lemma_one_more_step(reading.of(first.beta1), k, grads);
        lemma_one_more_step(reading.of(first.beta2), k, squares);
        let (b2, x) = (reading.of(first.beta2), reading.of(g[j]));
        assert((1real - b2) * x * x == (1real - b2) * (x * x)) by (nonlinear_arith);
    }
}

/// One step of an optimizer, over real numbers: the parameter decays by the step length times the
/// weight decay, and goes against the average of the gradients, over the root of that of their
/// squares; each of the two averages counts as if it had not started from nothing.
pub proof fn law_steps_correct_the_averages<T: Number>(
    reading: Reading<T>,
    history: AdamHistory<T>,
    lens: Seq<usize>,
    i: int,
    j: int,
    k: nat,
    root: real,
)
    requires
        reading.is_faithful(),
        history.is_history(lens),
        history.states[0].is_real(reading),
        0 <= i < lens.len(),
        0 <= j < lens[i],
        k < history.grads.len(),
        k < u64::MAX,
        history.is_trained(reading, i, j, k as int + 1),
        j < history.params[k as int][i]@.len(),
        (reading.finite)(history.params[k as int][i]@[j]),
        root >= 0real,
        root * root * (1real - reals::pow(reading.of(history.states[0].beta2), k + 1)) == faded(
            reading.of(history.states[0].beta2),
            k + 1,
            |x: int|
                history.grad_at(reading, i, j, x) * history.grad_at(reading, i, j, x),
        ),
        root + reading.of(history.states[0].eps) != 0real,
    ensures
        ({
            let first = history.states[0];
            let (lr, decay) = (reading.of(first.lr), reading.of(first.weight_decay));
            let average = faded(
                reading.of(first.beta1),
                k + 1,
                |x: int| history.grad_at(reading, i, j, x),
            ) / (1real - reals::pow(reading.of(first.beta1), k + 1));
            let before = reading.of(history.params[k as int][i]@[j]);
            let after = history.params[k as int + 1][i]@;
            &&& after.len() == history.params[k as int][i]@.len()
            &&& reading.reads(
                after[j],
                before * (1real - lr * decay) - (lr * average) / (root + reading.of(first.eps)),
            )
        }),
{
    let n = k + 1;
    let first = history.states[0];
    law_averages_fade(reading, history, lens, i, j, n);
    law_averages_fade(reading, history, lens, i, j, k);
    let (before, now) = (history.states[k as int], history.states[n as int]);
    let given = history.grads[k as int];
    assert(before.steps_to(
        history.params[k as int],
        given,
        now,
        history.params[n as int],
    ));
    let g = given[i]->0;
    assert(has_gradient(reading, given[i], j));
    assert(sgd::usable(given[i])) by {
        assert forall|x: int| 0 <= x < g.len() implies (#[trigger] g[x]).sound() by {
            assert((reading.finite)(g[x]));
        }
    }
    let numbers = choose|numbers: StepNumbers<T>|
        {
            &&& #[trigger] before.are_numbers_of((before.t + 1) as u64, numbers)
            &&& forall|i: int|
                0 <= i < given.len() ==> before.is_moved(
                    numbers,
                    #[trigger] given[i],
                    (history.params[k as int][i]@, before.m@[i]@, before.v@[i]@),
                    (history.params[n as int][i]@, now.m@[i]@, now.v@[i]@),
                )
        };
    let (old_weights, weights) = (history.params[k as int][i]@, history.params[n as int][i]@);
    let (m, v) = (now.m@[i]@[j], now.v@[i]@[j]);
    assert(before.is_moved(
        numbers,
        given[i],
        (old_weights, before.m@[i]@, before.v@[i]@),
        (weights, now.m@[i]@, now.v@[i]@),
    ));
    lemma_real_numbers(reading, before, numbers);
    let (bias1, bias2) = (reading.of(numbers.bias1), reading.of(numbers.bias2));
    let kept = decayed(numbers.decay, old_weights);
    let (lr, decay) = (reading.of(first.lr), reading.of(first.weight_decay));
    let w = reading.of(old_weights[j]);
    assert(reading.reads(kept[j], w * (1real - lr * decay))) by {
        match numbers.decay {
            Some(factor) => {
                assert(kept[j] == old_weights[j].product(factor));
            },
            None => {
                assert(w * (1real - lr * 0real) == w) by (nonlinear_arith);
            },
        }
    }
    assert(is_descended(first.lr, first.eps, numbers, kept[j], m, v, weights[j]));
    let (m_hat, v_hat, found, way) = choose|m_hat: T, v_hat: T, found: T, way: T|
        {
            &&& #[trigger] T::over.ensures((m, numbers.bias1), m_hat)
            &&& #[trigger] T::over.ensures((v, numbers.bias2), v_hat)
            &&& #[trigger] T::root.ensures((v_hat,), found)
            &&& #[trigger] T::over.ensures((first.lr.product(m_hat), found.sum(first.eps)), way)
            &&& weights[j] == kept[j].difference(way)
        };
    let square = root * root;
    let squares = |x: int| history.grad_at(reading, i, j, x) * history.grad_at(reading, i, j, x);
    assert(reading.of(v) == square * bias2) by {
        let grads = |x: int| history.grad_at(reading, i, j, x);
        let same = |x: int| grads(x) * grads(x);
        assert(same =~= squares);
    }
    reals::lemma_is_quotient(reading.of(v), bias2, square);
    assert(square >= 0real) by (nonlinear_arith)
        requires
            square == root * root,
    ;
    reals::lemma_same_root(root, reading.of(found));
}

/// What the numbers of a step stand for.
proof fn lemma_real_numbers<T: Number>(
    reading: Reading<T>,
    adam: AdamW<T>,
    numbers: StepNumbers<T>,
)
    requires
        reading.is_faithful(),
        adam.is_real(reading),
        adam.t < u64::MAX,
        adam.are_numbers_of((adam.t + 1) as u64, numbers),
    ensures
        reading.reads(
            numbers.bias1,
            1real - reals::pow(reading.of(adam.beta1), adam.t as nat + 1),
        ),
        reading.reads(
            numbers.bias2,
            1real - reals::pow(reading.of(adam.beta2), adam.t as nat + 1),
        ),
        reading.of(numbers.bias1) > 0real,
        reading.of(numbers.bias2) > 0real,
        numbers.decay matches Some(factor) ==> reading.reads(
            factor,
            1real - reading.of(adam.lr) * reading.of(adam.weight_decay),
        ),
        numbers.decay is None ==> reading.of(adam.weight_decay) == 0real,
{
    let t = (adam.t + 1) as u64;
    reals::lemma_power_of_fraction(reading.of(adam.beta1), t as nat);
    reals::lemma_power_of_fraction(reading.of(adam.beta2), t as nat);
    assert(is_bias(adam.beta1, t, numbers.bias1));
    assert(is_bias(adam.beta2, t, numbers.bias2));
    assert(is_decay(adam.lr, adam.weight_decay, numbers.decay));
}

/// Bias correction. Over real numbers, a parameter that gets the same gradient in each of its first
/// steps decays and moves by the step length every time, against the sign of the gradient: neither
/// average lags behind at the start.
pub proof fn law_constant_gradients_move_alike<T: Number>(
    reading: Reading<T>,
    history: AdamHistory<T>,
    lens: Seq<usize>,
    i: int,
    j: int,
    k: nat,
    g: real,
)
    requires
        reading.is_faithful(),
        history.is_history(lens),
        history.states[0].is_real(reading),
        0 <= i < lens.len(),
        0 <= j < lens[i],
        k < history.grads.len(),
        k < u64::MAX,
        history.is_trained(reading, i, j, k as int + 1),
        forall|x: int| 0 <= x <= k ==> #[trigger] history.grad_at(reading, i, j, x) == g,
        j < history.params[k as int][i]@.len(),
        (reading.finite)(history.params[k as int][i]@[j]),
        g != 0real || reading.of(history.states[0].eps) > 0real,
    ensures
        ({
            let first = history.states[0];
            let (lr, decay) = (reading.of(first.lr), reading.of(first.weight_decay));
            reading.reads(
                history.params[k as int + 1][i]@[j],
                reading.of(history.params[k as int][i]@[j]) * (1real - lr * decay) - (lr * g) / (
                reals::magnitude(g) + reading.of(first.eps)),
            )
        }),
{
    let first = history.states[0];
    let n = k + 1;
    let grads = |x: int| history.grad_at(reading, i, j, x);
    let squares = |x: int|
        history.grad_at(reading, i, j, x) * history.grad_at(reading, i, j, x);
    let (b1, b2) = (reading.of(first.beta1), reading.of(first.beta2));
    assert forall|x: int| 0 <= x < n implies #[trigger] grads(x) == g by {
        assert(history.grad_at(reading, i, j, x) == g);
    }
    assert forall|x: int| 0 <= x < n implies #[trigger] squares(x) == g * g by {
        assert(history.grad_at(reading, i, j, x) == g);
    }
    lemma_faded_constant(b1, n, grads, g);
    lemma_faded_constant(b2, n, squares, g * g);
    reals::lemma_power_of_fraction(b1, n);
    let root = reals::magnitude(g);
    assert(root * root == g * g) by (nonlinear_arith)
        requires
            root == g || root == -g,
    ;
    law_steps_correct_the_averages(reading, history, lens, i, j, k, root);
    reals::lemma_is_quotient(faded(b1, n, grads), 1real - reals::pow(b1, n), g);
}

/// The numbers that are commonly used, over real numbers: nine tenths of the average of the
/// gradients are kept, all but a thousandth of that of their squares, a hundred millionth keeps
/// quotients apart from infinity, and a hundredth of the step length decays.
pub proof fn law_common_numbers<T: Number>(
    reading: Reading<T>,
    lens: Seq<usize>,
    lr: T,
    adam: AdamW<T>,
)
    requires
        reading.is_faithful(),
        adam.is_common(lens, lr),
    ensures
        adam.lr == lr,
        adam.t == 0,
        reading.reads(adam.beta1, 9real / 10real),
        reading.reads(adam.beta2, 999real / 1000real),
        reading.reads(adam.eps, 1real / 100_000_000real),
        reading.reads(adam.weight_decay, 1real / 100real),
{
    reading.lemma_least(adam.eps);
    assert(reals::pow(10real, 0) == 1real);
    assert(reals::pow(10real, 1) == reals::pow(10real, 0) * 10real);
    assert(reals::pow(10real, 2) == reals::pow(10real, 1) * 10real);
    assert(reals::pow(10real, 3) == reals::pow(10real, 2) * 10real);
    assert(reals::pow(10real, 1) == 10real);
    assert(reals::pow(10real, 2) == 100real);
    assert(reals::pow(10real, 3) == 1000real);
}

} // verus!
