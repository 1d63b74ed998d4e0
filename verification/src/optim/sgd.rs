//! Gradient descent, with momentum if wanted.

use super::grads;
use crate::tensor::arith;
use crate::tensor::arith::{has_unsound, Scalar};
use crate::tensor::grad;
use crate::tensor::number::Number;
use crate::tensor::reals::Reading;
use vstd::prelude::*;

verus! {

/// Gradient descent: how far to go, and how much of the last step to keep. Without momentum no
/// velocities are kept.
#[derive(Debug, Clone, PartialEq, Eq)]
pub struct SGD<T> {
    pub lr: T,
    pub momentum: Option<T>,
    pub velocities: Vec<Option<Vec<T>>>,
}

/// The velocity after a gradient. It starts from nothing; once it is there it keeps its length,
/// and changes as far as the gradient goes.
pub open spec fn next_velocity<T: Scalar>(
    momentum: T,
    velocity: Option<Seq<T>>,
    grad: Seq<T>,
) -> Seq<T> {
    match velocity {
        Some(v) => Seq::new(
            v.len(),
            |j: int|
                if j < grad.len() {
                    momentum.product(v[j]).sum(grad[j])
                } else {
                    v[j]
                },
        ),
        None => Seq::new(grad.len(), |j: int| momentum.product(T::nought()).sum(grad[j])),
    }
}

/// A parameter after a step against `update`, as far as that goes.
pub open spec fn descended<T: Scalar>(weights: Seq<T>, update: Seq<T>, lr: T) -> Seq<T> {
    Seq::new(
        weights.len(),
        |j: int|
            if j < update.len() {
                weights[j].difference(lr.product(update[j]))
            } else {
                weights[j]
            },
    )
}

/// Whether a gradient is there and can be used.
pub open spec fn usable<T: Scalar>(grad: Option<Seq<T>>) -> bool {
    grad matches Some(g) && arith::all_sound(g)
}

/// The velocity after a gradient.
fn advance_velocity<T: Scalar>(momentum: T, velocity: &Option<Vec<T>>, grad: &Vec<T>) -> (next:
    Vec<T>)
    ensures
        next@ == next_velocity(momentum, grad::value(*velocity), grad@),
{
    let ghost whole = next_velocity(momentum, grad::value(*velocity), grad@);
    let len: usize = match velocity {
        Some(v) => v.len(),
        None => grad.len(),
    };
    let mut next: Vec<T> = Vec::new();
    let mut j: usize = 0;
    while j < len
        invariant
            j <= len == whole.len(),
            velocity matches Some(v) ==> v@.len() == len,
            velocity is None ==> grad@.len() == len,
            whole == next_velocity(momentum, grad::value(*velocity), grad@),
            next@ == whole.take(j as int),
        decreases len - j,
    {
        let kept: T = match velocity {
            Some(v) => v[j],
            None => T::zero(),
        };
        if j < grad.len() {
            next.push(momentum.times(kept).plus(grad[j]));
        } else {
            next.push(kept);
        }
        j = j + 1;
        assert(next@ =~= whole.take(j as int));
    }
    assert(next@ =~= whole);
    next
}

/// A parameter after a step against `update`.
fn descend<T: Scalar>(weights: &Vec<T>, update: &Vec<T>, lr: T) -> (out: Vec<T>)
    ensures
        out@ == descended(weights@, update@, lr),
{
    let ghost whole = descended(weights@, update@, lr);
    let mut out: Vec<T> = Vec::new();
    let mut j: usize = 0;
    while j < weights.len()
        invariant
            j <= weights@.len(),
            whole == descended(weights@, update@, lr),
            out@ == whole.take(j as int),
        decreases weights@.len() - j,
    {
        if j < update.len() {
            out.push(weights[j].minus(lr.times(update[j])));
        } else {
            out.push(weights[j]);
        }
        j = j + 1;
        assert(out@ =~= whole.take(j as int));
    }
    assert(out@ =~= whole);
    out
}

impl<T: Number> SGD<T> {
    /// Whether this is gradient descent for `n` parameters that has not begun. A momentum of zero
    /// is none.
    pub open spec fn is_new(&self, n: nat, lr: T, momentum: T) -> bool {
        &&& self.serves(n)
        &&& self.lr == lr
        &&& exists|still: bool| #[trigger]
            T::is_zero.ensures((momentum,), still) && self.momentum == if still {
                None
            } else {
                Some(momentum)
            }
        &&& grads::values(self.velocities@) == Seq::new(n, |i: int| None::<Seq<T>>)
    }

    /// Gradient descent for `n` parameters. A momentum of zero is none.
    pub fn new(n: usize, lr: T, momentum: T) -> (sgd: Self)
        ensures
            sgd.is_new(n as nat, lr, momentum),
    {
        let still: bool = momentum.is_zero();
        assert(T::is_zero.ensures((momentum,), still));
        let mut velocities: Vec<Option<Vec<T>>> = Vec::new();
        while velocities.len() < n
            invariant
                velocities@.len() <= n,
                forall|k: int| 0 <= k < velocities@.len() ==> #[trigger] velocities@[k] is None,
            decreases n - velocities@.len(),
        {
            velocities.push(None);
        }
        assert(grads::values(velocities@) =~= Seq::new(n as nat, |i: int| None::<Seq<T>>));
        SGD {
            lr,
            momentum: if still {
                None
            } else {
                Some(momentum)
            },
            velocities,
        }
    }
}

impl<T: Scalar> SGD<T> {
    /// Whether there is a place for the velocity of each of `n` parameters.
    pub open spec fn serves(&self, n: nat) -> bool {
        self.velocities@.len() == n
    }

    /// The step length from now on.
    pub fn set_lr(&mut self, lr: T)
        ensures
            *final(self) == (SGD { lr, ..*old(self) }),
    {
        self.lr = lr;
    }

    /// What parameter `i` is moved by: its gradient, or its velocity where there is momentum.
    pub open spec fn update_of(&self, velocity: Option<Seq<T>>, grad: Seq<T>) -> Seq<T> {
        match self.momentum {
            Some(m) => next_velocity(m, velocity, grad),
            None => grad,
        }
    }

    /// The velocity of parameter `i` after its gradient.
    pub open spec fn velocity_after(&self, velocity: Option<Seq<T>>, grad: Option<Seq<T>>) -> Option<
        Seq<T>,
    > {
        match (self.momentum, grad) {
            (Some(m), Some(g)) => if usable(grad) {
                Some(next_velocity(m, velocity, g))
            } else {
                velocity
            },
            _ => velocity,
        }
    }

    /// A parameter after its gradient. One without a gradient, or with one that cannot be used,
    /// stays as it is.
    pub open spec fn weights_after(
        &self,
        weights: Seq<T>,
        velocity: Option<Seq<T>>,
        grad: Option<Seq<T>>,
    ) -> Seq<T> {
        match grad {
            Some(g) => if usable(grad) {
                descended(weights, self.update_of(velocity, g), self.lr)
            } else {
                weights
            },
            None => weights,
        }
    }

    /// Moves parameter `i` against its gradient.
    pub fn step_one(&mut self, i: usize, weights: &mut Vec<T>, grad: &Option<Vec<T>>)
        requires
            i < old(self).velocities@.len(),
        ensures
            final(self).lr == old(self).lr,
            final(self).momentum == old(self).momentum,
            final(weights)@ == old(self).weights_after(
                old(weights)@,
                grads::values(old(self).velocities@)[i as int],
                grad::value(*grad),
            ),
            grads::values(final(self).velocities@) == grads::values(
                old(self).velocities@,
            ).update(
                i as int,
                old(self).velocity_after(
                    grads::values(old(self).velocities@)[i as int],
                    grad::value(*grad),
                ),
            ),
    {
        match grad {
            Some(grad) => {
                if !has_unsound(grad.as_slice()) {
                    match self.momentum {
                        Some(momentum) => {
                            let next = advance_velocity(momentum, &self.velocities[i], grad);
                            *weights = descend(&*weights, &next, self.lr);
                            self.velocities.set(i, Some(next));
                        },
                        None => {
                            *weights = descend(&*weights, grad, self.lr);
                        },
                    }
                }
            },
            None => {},
        }
        assert(grads::values(self.velocities@) =~= grads::values(old(self).velocities@).update(
            i as int,
            old(self).velocity_after(
                grads::values(old(self).velocities@)[i as int],
                grad::value(*grad),
            ),
        ));
    }

    /// Whether a step with these gradients leads to `next` and to the parameters `moved`.
    pub open spec fn steps_to(
        &self,
        params: Seq<Vec<T>>,
        grads: Seq<Option<Seq<T>>>,
        next: SGD<T>,
        moved: Seq<Vec<T>>,
    ) -> bool {
        &&& next.lr == self.lr
        &&& next.momentum == self.momentum
        &&& next.serves(moved.len())
        &&& moved.len() == params.len()
        &&& forall|i: int|
            0 <= i < grads.len() ==> (#[trigger] moved[i])@ == self.weights_after(
                params[i]@,
                grads::values(self.velocities@)[i],
                grads[i],
            )
        &&& forall|i: int|
            0 <= i < grads.len() ==> #[trigger] grads::values(next.velocities@)[i]
                == self.velocity_after(grads::values(self.velocities@)[i], grads[i])
    }

    /// Moves every parameter against its gradient.
    pub fn step(&mut self, params: &mut Vec<Vec<T>>, grads: &Vec<Option<Vec<T>>>)
        requires
            old(self).serves(old(params)@.len()),
            grads@.len() == old(params)@.len(),
        ensures
            old(self).steps_to(
                old(params)@,
                grads::values(grads@),
                *final(self),
                final(params)@,
            ),
    {
        let ghost held = grads::values(self.velocities@);
        let ghost given = grads::values(grads@);
        let mut i: usize = 0;
        while i < grads.len()
            invariant
                i <= grads@.len() == params@.len(),
                params@.len() == old(params)@.len(),
                grads::values(self.velocities@).len() == params@.len(),
                self.lr == old(self).lr,
                self.momentum == old(self).momentum,
                held == grads::values(old(self).velocities@),
                held.len() == params@.len(),
                given == grads::values(grads@),
                forall|k: int|
                    i <= k < grads@.len() ==> #[trigger] params@[k] == old(params)@[k],
                forall|k: int|
                    i <= k < grads@.len() ==> #[trigger] grads::values(self.velocities@)[k]
                        == held[k],
                forall|k: int|
                    0 <= k < i ==> (#[trigger] params@[k])@ == old(self).weights_after(
                        old(params)@[k]@,
                        held[k],
                        given[k],
                    ),
                forall|k: int|
                    0 <= k < i ==> #[trigger] grads::values(self.velocities@)[k] == old(
                        self,
                    ).velocity_after(held[k], given[k]),
            decreases grads@.len() - i,
        {
            assert(grads::values(self.velocities@)[i as int] == held[i as int]);
            assert(params@[i as int] == old(params)@[i as int]);
            self.step_one(i, &mut params[i], &grads[i]);
            i = i + 1;
        }
        assert(grads::values(self.velocities@).len() == self.velocities@.len());
    }
}

/// A velocity at place `j`, as a real number: zero where there is none yet.
pub open spec fn real_velocity<T>(reading: Reading<T>, velocity: Option<Seq<T>>, j: int) -> real {
    match velocity {
        Some(v) => reading.at(v, j),
        None => 0real,
    }
}

impl<T: Scalar> SGD<T> {
    /// Whether step length and momentum stand for real numbers.
    pub open spec fn is_real(&self, reading: Reading<T>) -> bool {
        &&& (reading.finite)(self.lr)
        &&& match self.momentum {
            Some(m) => (reading.finite)(m),
            None => true,
        }
    }

    /// The momentum, as a real number: zero where there is none.
    pub open spec fn real_momentum(&self, reading: Reading<T>) -> real {
        match self.momentum {
            Some(m) => reading.of(m),
            None => 0real,
        }
    }
}

/// A momentum of zero is none: an optimiser is told apart from plain descent by a momentum that
/// is not zero.
pub proof fn law_zero_momentum_is_none<T: Number>(
    reading: Reading<T>,
    n: nat,
    lr: T,
    momentum: T,
    sgd: SGD<T>,
)
    requires
        reading.is_faithful(),
        (reading.finite)(momentum),
        sgd.is_new(n, lr, momentum),
    ensures
        sgd.lr == lr,
        sgd.real_momentum(reading) == reading.of(momentum),
        sgd.momentum is None <==> reading.of(momentum) == 0real,
        forall|i: int| 0 <= i < n ==> #[trigger] grads::values(sgd.velocities@)[i] is None,
{
    let still = choose|still: bool| #[trigger]
        T::is_zero.ensures((momentum,), still) && sgd.momentum == if still {
            None
        } else {
            Some(momentum)
        };
    assert(still == (reading.of(momentum) == 0real));
}

/// A step, over real numbers. The pace of an element is its gradient and as much of its last pace
/// as the momentum keeps; the element goes back by the pace times the step length. With momentum
/// the pace is what is remembered.
pub proof fn law_steps_go_against_the_pace<T: Scalar>(
    reading: Reading<T>,
    before: SGD<T>,
    params: Seq<Vec<T>>,
    grads: Seq<Option<Seq<T>>>,
    after: SGD<T>,
    moved: Seq<Vec<T>>,
    i: int,
    j: int,
)
    requires
        reading.is_ring(),
        before.is_real(reading),
        before.steps_to(params, grads, after, moved),
        grads.len() == params.len(),
        before.serves(params.len()),
        0 <= i < params.len(),
        grads[i] is Some,
        grads[i]->0.len() == params[i]@.len(),
        reading.all_finite(params[i]@),
        reading.all_finite(grads[i]->0),
        grads::values(before.velocities@)[i] matches Some(v) ==> v.len() == params[i]@.len()
            && reading.all_finite(v),
        0 <= j < params[i]@.len(),
    ensures
        after.lr == before.lr,
        after.momentum == before.momentum,
        moved[i]@.len() == params[i]@.len(),
        before.momentum is None ==> {
            &&& grads::values(after.velocities@)[i] == grads::values(before.velocities@)[i]
            &&& reading.at(params[i]@, j) - reading.at(moved[i]@, j) == reading.of(before.lr)
                * reading.at(grads[i]->0, j)
        },
        before.momentum is Some ==> {
            let last = real_velocity(reading, grads::values(before.velocities@)[i], j);
            let pace = real_velocity(reading, grads::values(after.velocities@)[i], j);
            &&& grads::values(after.velocities@)[i] is Some
            &&& grads::values(after.velocities@)[i]->0.len() == params[i]@.len()
            &&& pace - before.real_momentum(reading) * last == reading.at(grads[i]->0, j)
            &&& reading.at(params[i]@, j) - reading.at(moved[i]@, j) == reading.of(before.lr)
                * pace
        },
{
    let (g, w) = (grads[i]->0, params[i]@);
    let held = grads::values(before.velocities@)[i];
    assert(held == grad::value(before.velocities@[i]));
    assert forall|k: int| 0 <= k < g.len() implies (#[trigger] g[k]).sound() by {
        assert((reading.finite)(g[k]));
    }
    assert(usable(grads[i]));
    assert((reading.finite)(w[j]) && (reading.finite)(g[j]));
    assert(moved[i]@ == before.weights_after(w, held, grads[i]));
    assert(grads::values(after.velocities@)[i] == before.velocity_after(held, grads[i]));
    if let Some(v) = held {
        assert((reading.finite)(v[j]));
    }
    if let Some(m) = before.momentum {
        let c = reading.of(m);
        assert(c * 0real == 0real) by (nonlinear_arith);
    }
}

/// A parameter without a gradient, and one whose gradient holds what stands for no real number,
/// stay as they are, and so do their velocities.
pub proof fn law_unusable_gradients_move_nothing<T: Scalar>(
    reading: Reading<T>,
    before: SGD<T>,
    params: Seq<Vec<T>>,
    grads: Seq<Option<Seq<T>>>,
    after: SGD<T>,
    moved: Seq<Vec<T>>,
    i: int,
)
    requires
        reading.is_ring(),
        before.steps_to(params, grads, after, moved),
        grads.len() == params.len(),
        0 <= i < params.len(),
        grads[i] matches Some(g) ==> !reading.all_finite(g),
    ensures
        moved[i]@ == params[i]@,
        grads::values(after.velocities@)[i] == grads::values(before.velocities@)[i],
{
    if let Some(g) = grads[i] {
        if usable(grads[i]) {
            assert forall|k: int| 0 <= k < g.len() implies (reading.finite)(#[trigger] g[k]) by {
                assert(g[k].sound());
            }
        }
    }
    let held = grads::values(before.velocities@)[i];
    assert(moved[i]@ == before.weights_after(params[i]@, held, grads[i]));
    assert(grads::values(after.velocities@)[i] == before.velocity_after(held, grads[i]));
}

} // verus!
