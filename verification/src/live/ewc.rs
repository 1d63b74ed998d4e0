//! Elastic weight consolidation: a penalty for parameters that leave a former optimum.

use crate::tensor::arith;
use crate::tensor::arith::Scalar;
use crate::tensor::number::Number;
use crate::tensor::reals;
use crate::tensor::reals::Reading;
use vstd::prelude::*;
use vstd::slice::slice_to_vec;

verus! {

/// Where parameters were, how much each of them matters, and how strong the pull back is.
#[derive(Debug, Clone, PartialEq, Eq)]
pub struct EWC<T> {
    pub param_snapshot: Vec<Vec<T>>,
    pub fisher_diag: Vec<Vec<T>>,
    pub lambda: T,
}

/// Whether a list of parameters reaches as far as another, parameter by parameter.
pub open spec fn reaches<T>(list: Seq<Vec<T>>, params: Seq<Vec<T>>) -> bool {
    &&& params.len() <= list.len()
    &&& forall|i: int| 0 <= i < params.len() ==> (#[trigger] params[i])@.len() <= list[i]@.len()
}

/// The squares of some numbers, list by list.
pub open spec fn are_squares<T: Scalar>(grads: Seq<Vec<T>>, weights: Seq<Vec<T>>) -> bool {
    &&& weights.len() == grads.len()
    &&& forall|i: int|
        0 <= i < grads.len() ==> (#[trigger] weights[i])@ == arith::products(
            grads[i]@,
            grads[i]@,
        )
}

/// A gradient with what pulls on its elements added, as far as both go.
pub open spec fn with_pulls<T: Scalar>(grad: Seq<T>, pulls: Seq<T>) -> Seq<T> {
    Seq::new(
        grad.len(),
        |k: int|
            if k < pulls.len() {
                grad[k].sum(pulls[k])
            } else {
                grad[k]
            },
    )
}

/// A gradient with what pulls on its elements added, as far as both go.
fn add_pulls<T: Scalar>(grad: &Vec<T>, pulls: &Vec<T>) -> (sum: Vec<T>)
    ensures
        sum@ == with_pulls(grad@, pulls@),
{
    let mut sum: Vec<T> = Vec::new();
    for k in 0..grad.len()
        invariant
            sum@ == with_pulls(grad@, pulls@).take(k as int),
    {
        if k < pulls.len() {
            sum.push(grad[k].plus(pulls[k]));
        } else {
            sum.push(grad[k]);
        }
        assert(sum@ =~= with_pulls(grad@, pulls@).take(k + 1));
    }
    assert(sum@ =~= with_pulls(grad@, pulls@));
    sum
}

/// What element `j` of one parameter adds to the penalty: its weight times the square of how
/// far it has gone.
pub open spec fn drift<T: Scalar>(now: Seq<T>, former: Seq<T>, weights: Seq<T>, j: int) -> T {
    let gone = now[j].difference(former[j]);
    weights[j].product(gone).product(gone)
}

/// The sum `from` with the first `n` elements of one parameter added.
pub open spec fn with_drifts<T: Scalar>(
    from: T,
    now: Seq<T>,
    former: Seq<T>,
    weights: Seq<T>,
    n: nat,
) -> T
    decreases n,
{
    if n == 0 {
        from
    } else {
        with_drifts(from, now, former, weights, (n - 1) as nat).sum(
            drift(now, former, weights, n - 1),
        )
    }
}

/// The sum over the first `n` parameters.
pub open spec fn total_drift<T: Scalar>(
    now: Seq<Vec<T>>,
    former: Seq<Vec<T>>,
    weights: Seq<Vec<T>>,
    n: nat,
) -> T
    decreases n,
{
    if n == 0 {
        T::nought()
    } else {
        with_drifts(
            total_drift(now, former, weights, (n - 1) as nat),
            now[n - 1]@,
            former[n - 1]@,
            weights[n - 1]@,
            now[n - 1]@.len(),
        )
    }
}

/// The pull on every element of one parameter.
pub open spec fn pulls<T: Scalar>(lambda: T, now: Seq<T>, former: Seq<T>, weights: Seq<T>) -> Seq<
    T,
> {
    Seq::new(
        now.len(),
        |j: int| lambda.product(weights[j]).product(now[j].difference(former[j])),
    )
}

impl<T: Scalar> EWC<T> {
    /// The former parameters.
    pub open spec fn former(&self) -> Seq<Vec<T>> {
        self.param_snapshot@
    }

    /// The weights of the parameters.
    pub open spec fn weights(&self) -> Seq<Vec<T>> {
        self.fisher_diag@
    }

    /// Whether there is a former element and a weight for every element of some parameters.
    pub open spec fn knows(&self, params: Seq<Vec<T>>) -> bool {
        reaches(self.former(), params) && reaches(self.weights(), params)
    }

    /// Whether these are the parameters taken down, with the squares of their gradients for
    /// weights.
    pub open spec fn is_of(&self, params: Seq<Vec<T>>, grads: Seq<Vec<T>>, lambda: T) -> bool {
        &&& self.lambda == lambda
        &&& self.former().len() == params.len()
        &&& forall|i: int|
            0 <= i < params.len() ==> (#[trigger] self.former()[i])@ == params[i]@
        &&& are_squares(grads, self.weights())
    }

    /// Takes the parameters down. The weight of an element is the square of its gradient.
    pub fn new(params: &Vec<Vec<T>>, grads: &Vec<Vec<T>>, lambda: T) -> (ewc: Self)
        ensures
            ewc.is_of(params@, grads@, lambda),
    {
        let mut param_snapshot: Vec<Vec<T>> = Vec::new();
        for i in 0..params.len()
            invariant
                param_snapshot@.len() == i,
                forall|j: int|
                    0 <= j < i ==> (#[trigger] param_snapshot@[j])@ == params@[j]@,
        {
            param_snapshot.push(slice_to_vec(params[i].as_slice()));
        }
        let mut fisher_diag: Vec<Vec<T>> = Vec::new();
        for i in 0..grads.len()
            invariant
                fisher_diag@.len() == i,
                forall|j: int|
                    0 <= j < i ==> (#[trigger] fisher_diag@[j])@ == arith::products(
                        grads@[j]@,
                        grads@[j]@,
                    ),
        {
            fisher_diag.push(arith::mul(grads[i].as_slice(), grads[i].as_slice()));
        }
        EWC { param_snapshot, fisher_diag, lambda }
    }

    /// Whether `grads` hold the pull on every element.
    pub open spec fn are_pulls(&self, params: Seq<Vec<T>>, grads: Seq<Vec<T>>) -> bool {
        &&& grads.len() == params.len()
        &&& forall|i: int|
            0 <= i < grads.len() ==> (#[trigger] grads[i])@ == pulls(
                self.lambda,
                params[i]@,
                self.former()[i]@,
                self.weights()[i]@,
            )
    }

    /// The gradient of the penalty.
    pub fn penalty_grads(&self, current_params: &Vec<Vec<T>>) -> (grads: Vec<Vec<T>>)
        requires
            self.knows(current_params@),
        ensures
            self.are_pulls(current_params@, grads@),
    {
        let mut grads: Vec<Vec<T>> = Vec::new();
        let mut i: usize = 0;
        while i < current_params.len()
            invariant
                i <= current_params@.len(),
                self.knows(current_params@),
                grads@.len() == i,
                forall|k: int|
                    0 <= k < i ==> (#[trigger] grads@[k])@ == pulls(
                        self.lambda,
                        current_params@[k]@,
                        self.former()[k]@,
                        self.weights()[k]@,
                    ),
            decreases current_params@.len() - i,
        {
            let current = &current_params[i];
            let snapshot = &self.param_snapshot[i];
            let fisher = &self.fisher_diag[i];
            let ghost whole = pulls(self.lambda, current@, snapshot@, fisher@);
            assert(current_params@[i as int]@.len() <= self.former()[i as int]@.len());
            assert(current_params@[i as int]@.len() <= self.weights()[i as int]@.len());
            let mut grad: Vec<T> = Vec::new();
            let mut j: usize = 0;
            while j < current.len()
                invariant
                    j <= current@.len(),
                    current@.len() <= snapshot@.len(),
                    current@.len() <= fisher@.len(),
                    whole == pulls(self.lambda, current@, snapshot@, fisher@),
                    grad@ == whole.take(j as int),
                decreases current@.len() - j,
            {
                grad.push(self.lambda.times(fisher[j]).times(current[j].minus(snapshot[j])));
                j = j + 1;
                assert(grad@ =~= whole.take(j as int));
            }
            assert(grad@ =~= whole);
            grads.push(grad);
            i = i + 1;
        }
        grads
    }

    /// Whether `after` holds the gradients with the pulls added, as far as both go.
    pub open spec fn applies(
        &self,
        params: Seq<Vec<T>>,
        before: Seq<Option<Vec<T>>>,
        after: Seq<Option<Vec<T>>>,
    ) -> bool {
        &&& after.len() == before.len()
        &&& forall|i: int|
            0 <= i < after.len() ==> match #[trigger] after[i] {
                Some(g) => before[i] matches Some(own) && g@ == if i < params.len() {
                    with_pulls(
                        own@,
                        pulls(
                            self.lambda,
                            params[i]@,
                            self.former()[i]@,
                            self.weights()[i]@,
                        ),
                    )
                } else {
                    own@
                },
                None => before[i] is None,
            }
    }

    /// Adds the gradient of the penalty to the gradients that there are, as far as both go.
    pub fn apply_penalty(&self, params: &Vec<Vec<T>>, grads: &mut Vec<Option<Vec<T>>>)
        requires
            self.knows(params@),
        ensures
            self.applies(params@, old(grads)@, final(grads)@),
    {
        let penalty_grads = self.penalty_grads(params);
        let mut i: usize = 0;
        while i < penalty_grads.len() && i < grads.len()
            invariant
                i <= penalty_grads@.len() == params@.len(),
                i <= grads@.len() == old(grads)@.len(),
                forall|k: int|
                    0 <= k < penalty_grads@.len() ==> (#[trigger] penalty_grads@[k])@ == pulls(
                        self.lambda,
                        params@[k]@,
                        self.former()[k]@,
                        self.weights()[k]@,
                    ),
                forall|k: int| i <= k < grads@.len() ==> #[trigger] grads@[k] == old(grads)@[k],
                forall|k: int|
                    0 <= k < i ==> match #[trigger] grads@[k] {
                        Some(g) => old(grads)@[k] matches Some(before) && g@ == with_pulls(
                            before@,
                            penalty_grads@[k]@,
                        ),
                        None => old(grads)@[k] is None,
                    },
            decreases penalty_grads@.len() - i,
        {
            assert(grads@[i as int] == old(grads)@[i as int]);
            let sum: Option<Vec<T>> = match &grads[i] {
                Some(grad) => Some(add_pulls(grad, &penalty_grads[i])),
                None => None,
            };
            grads.set(i, sum);
            i = i + 1;
        }
    }

    /// The number of parameters.
    pub fn num_params(&self) -> (n: usize)
        ensures
            n == self.former().len(),
    {
        self.param_snapshot.len()
    }
}

impl<T: Number> EWC<T> {
    /// Whether `number` is half the strength times the sum over all elements.
    pub open spec fn is_penalty(&self, params: Seq<Vec<T>>, number: T) -> bool {
        exists|half: T| #[trigger]
            T::decimal.ensures((5, 1), half) && number == self.lambda.product(half).product(
                total_drift(params, self.former(), self.weights(), params.len()),
            )
    }

    /// The penalty for the parameters as they are now: half the strength times the sum over all
    /// elements.
    pub fn penalty(&self, current_params: &Vec<Vec<T>>) -> (number: T)
        requires
            self.knows(current_params@),
        ensures
            self.is_penalty(current_params@, number),
    {
        let mut total = T::zero();
        let mut i: usize = 0;
        while i < current_params.len()
            invariant
                i <= current_params@.len(),
                self.knows(current_params@),
                total == total_drift(
                    current_params@,
                    self.former(),
                    self.weights(),
                    i as nat,
                ),
            decreases current_params@.len() - i,
        {
            let current = &current_params[i];
            let snapshot = &self.param_snapshot[i];
            let fisher = &self.fisher_diag[i];
            let ghost before = total;
            assert(current_params@[i as int]@.len() <= self.former()[i as int]@.len());
            assert(current_params@[i as int]@.len() <= self.weights()[i as int]@.len());
            let mut j: usize = 0;
            while j < current.len()
                invariant
                    j <= current@.len(),
                    current@.len() <= snapshot@.len(),
                    current@.len() <= fisher@.len(),
                    total == with_drifts(before, current@, snapshot@, fisher@, j as nat),
                decreases current@.len() - j,
            {
                let gone = current[j].minus(snapshot[j]);
                total = total.plus(fisher[j].times(gone).times(gone));
                j = j + 1;
            }
            i = i + 1;
        }
        let half: T = T::decimal(5, 1);
        assert(T::decimal.ensures((5, 1), half));
        self.lambda.times(half).times(total)
    }
}

/// Whether the numbers of a type cancel out: what is subtracted from itself is gone, and stays
/// gone however it is multiplied or added to itself.
pub open spec fn cancels<T: Scalar>() -> bool {
    &&& forall|x: T| #[trigger] x.difference(x) == T::nought()
    &&& forall|x: T| #[trigger] x.product(T::nought()) == T::nought()
    &&& T::nought().sum(T::nought()) == T::nought()
}

/// Integers that wrap around cancel out.
pub proof fn law_integers_cancel()
    ensures
        cancels::<u64>(),
{
}

proof fn lemma_no_drift<T: Scalar>(now: Seq<T>, weights: Seq<T>, n: nat)
    requires
        cancels::<T>(),
    ensures
        with_drifts(T::nought(), now, now, weights, n) == T::nought(),
    decreases n,
{
    if n > 0 {
        lemma_no_drift(now, weights, (n - 1) as nat);
        let x = now[n - 1];
        assert(x.difference(x) == T::nought());
        assert(weights[n - 1].product(T::nought()) == T::nought());
        assert(T::nought().product(T::nought()) == T::nought());
    }
}

proof fn lemma_no_total_drift<T: Scalar>(
    now: Seq<Vec<T>>,
    former: Seq<Vec<T>>,
    weights: Seq<Vec<T>>,
    n: nat,
)
    requires
        cancels::<T>(),
        forall|i: int| 0 <= i < n ==> (#[trigger] now[i])@ == former[i]@,
    ensures
        total_drift(now, former, weights, n) == T::nought(),
    decreases n,
{
    if n > 0 {
        lemma_no_total_drift(now, former, weights, (n - 1) as nat);
        assert(now[n - 1]@ == former[n - 1]@);
        lemma_no_drift(now[n - 1]@, weights[n - 1]@, now[n - 1]@.len());
    }
}

/// Parameters that have not moved are not penalised, and not pulled anywhere.
pub proof fn law_no_penalty_at_the_snapshot<T: Scalar>(
    ewc: EWC<T>,
    current: Seq<Vec<T>>,
    half: T,
    i: int,
    j: int,
)
    requires
        cancels::<T>(),
        ewc.knows(current),
        forall|i: int| 0 <= i < current.len() ==> (#[trigger] current[i])@ == ewc.former()[i]@,
        0 <= i < current.len(),
        0 <= j < current[i]@.len(),
    ensures
        ewc.lambda.product(half).product(
            total_drift(current, ewc.former(), ewc.weights(), current.len()),
        ) == T::nought(),
        pulls(ewc.lambda, current[i]@, ewc.former()[i]@, ewc.weights()[i]@)[j] == T::nought(),
{
    lemma_no_total_drift(current, ewc.former(), ewc.weights(), current.len());
    assert(current[i]@ == ewc.former()[i]@);
    let x = current[i]@[j];
    assert(x.difference(x) == T::nought());
}

/// The sum over all elements of some parameters.
pub open spec fn sum_over<T>(params: Seq<Vec<T>>, f: spec_fn(int, int) -> real) -> real {
    reals::sum_to(params.len(), |i: int| reals::sum_to(params[i]@.len(), |j: int| f(i, j)))
}

/// Whether some parameters are made of real numbers.
pub open spec fn are_real<T>(reading: Reading<T>, params: Seq<Vec<T>>) -> bool {
    forall|i: int| 0 <= i < params.len() ==> reading.all_finite((#[trigger] params[i])@)
}

/// Element `j` of parameter `i`, as a real number.
pub open spec fn real_at<T>(reading: Reading<T>, params: Seq<Vec<T>>, i: int, j: int) -> real {
    reading.at(params[i]@, j)
}

/// Whether there is an element `j` of parameter `i`.
pub open spec fn is_place<T>(params: Seq<Vec<T>>, i: int, j: int) -> bool {
    0 <= i < params.len() && 0 <= j < params[i]@.len()
}

impl<T: Scalar> EWC<T> {
    /// Whether strength, former parameters and weights stand for real numbers.
    pub open spec fn is_real(&self, reading: Reading<T>) -> bool {
        &&& (reading.finite)(self.lambda)
        &&& are_real(reading, self.former())
        &&& are_real(reading, self.weights())
    }

    /// How far element `j` of parameter `i` has gone.
    pub open spec fn gone(
        &self,
        reading: Reading<T>,
        params: Seq<Vec<T>>,
        i: int,
        j: int,
    ) -> real {
        real_at(reading, params, i, j) - real_at(reading, self.former(), i, j)
    }
}

/// A sum over all elements of multiples is the multiple of the sum, and one of sums is the sum of
/// both.
proof fn lemma_sums_over<T>(
    params: Seq<Vec<T>>,
    a: real,
    f: spec_fn(int, int) -> real,
    b: real,
    g: spec_fn(int, int) -> real,
    both: spec_fn(int, int) -> real,
)
    requires
        forall|i: int, j: int|
            is_place(params, i, j) ==> #[trigger] both(i, j) == a * f(i, j) + b * g(i, j),
    ensures
        sum_over(params, both) == a * sum_over(params, f) + b * sum_over(params, g),
{
    let rows = |i: int| reals::sum_to(params[i]@.len(), |j: int| f(i, j));
    let others = |i: int| reals::sum_to(params[i]@.len(), |j: int| g(i, j));
    let left = |i: int| a * rows(i);
    let right = |i: int| b * others(i);
    let whole = |i: int| reals::sum_to(params[i]@.len(), |j: int| both(i, j));
    assert forall|i: int| 0 <= i < params.len() implies #[trigger] whole(i) == left(i) + right(
        i,
    ) by {
        let n = params[i]@.len();
        let (fs, gs) = (|j: int| f(i, j), |j: int| g(i, j));
        let (fa, gb) = (|j: int| a * f(i, j), |j: int| b * g(i, j));
        let bs = |j: int| both(i, j);
        reals::lemma_sum_of_multiples(n, a, fs, fa);
        reals::lemma_sum_of_multiples(n, b, gs, gb);
        assert forall|j: int| 0 <= j < n implies #[trigger] bs(j) == fa(j) + gb(j) by {
            assert(is_place(params, i, j));
            assert(both(i, j) == a * f(i, j) + b * g(i, j));
        }
        reals::lemma_sum_of_sums(n, fa, gb, bs);
    }
    reals::lemma_sum_of_sums(params.len(), left, right, whole);
    reals::lemma_sum_of_multiples(params.len(), a, rows, left);
    reals::lemma_sum_of_multiples(params.len(), b, others, right);
}

/// Sums over all elements of the same numbers are the same.
proof fn lemma_same_over<T>(
    params: Seq<Vec<T>>,
    f: spec_fn(int, int) -> real,
    g: spec_fn(int, int) -> real,
)
    requires
        forall|i: int, j: int| is_place(params, i, j) ==> #[trigger] f(i, j) == g(i, j),
    ensures
        sum_over(params, f) == sum_over(params, g),
{
    let rows = |i: int| reals::sum_to(params[i]@.len(), |j: int| f(i, j));
    let others = |i: int| reals::sum_to(params[i]@.len(), |j: int| g(i, j));
    assert forall|i: int| 0 <= i < params.len() implies #[trigger] rows(i) == others(i) by {
        let (fs, gs) = (|j: int| f(i, j), |j: int| g(i, j));
        assert forall|j: int| 0 <= j < params[i]@.len() implies #[trigger] fs(j) == gs(j) by {
            assert(is_place(params, i, j));
            assert(f(i, j) == g(i, j));
        }
        reals::lemma_same_sum(params[i]@.len(), fs, gs);
    }
    reals::lemma_same_sum(params.len(), rows, others);
}

proof fn lemma_real_drifts<T: Scalar>(
    reading: Reading<T>,
    from: T,
    now: Seq<T>,
    former: Seq<T>,
    weights: Seq<T>,
    n: nat,
)
    requires
        reading.is_ring(),
        (reading.finite)(from),
        n <= now.len() <= former.len(),
        now.len() <= weights.len(),
        reading.all_finite(now),
        reading.all_finite(former),
        reading.all_finite(weights),
    ensures
        reading.reads(
            with_drifts(from, now, former, weights, n),
            reading.of(from) + reals::sum_to(
                n,
                |j: int|
                    reading.at(weights, j) * (reading.at(now, j) - reading.at(former, j)) * (
                    reading.at(now, j) - reading.at(former, j)),
            ),
        ),
    decreases n,
{
    if n > 0 {
        lemma_real_drifts(reading, from, now, former, weights, (n - 1) as nat);
        assert((reading.finite)(now[n - 1]));
        assert((reading.finite)(former[n - 1]));
        assert((reading.finite)(weights[n - 1]));
    }
}

proof fn lemma_real_drift<T: Scalar>(
    reading: Reading<T>,
    ewc: EWC<T>,
    params: Seq<Vec<T>>,
    n: nat,
)
    requires
        reading.is_ring(),
        ewc.is_real(reading),
        ewc.knows(params),
        are_real(reading, params),
        n <= params.len(),
    ensures
        reading.reads(
            total_drift(params, ewc.former(), ewc.weights(), n),
            reals::sum_to(
                n,
                |i: int|
                    reals::sum_to(
                        params[i]@.len(),
                        |j: int|
                            real_at(reading, ewc.weights(), i, j) * ewc.gone(reading, params, i, j)
                                * ewc.gone(reading, params, i, j),
                    ),
            ),
        ),
    decreases n,
{
    if n > 0 {
        lemma_real_drift(reading, ewc, params, (n - 1) as nat);
        let i = n - 1;
        assert(params[i]@.len() <= ewc.former()[i]@.len());
        assert(reading.all_finite(params[i]@));
        assert(reading.all_finite(ewc.former()[i]@));
        assert(reading.all_finite(ewc.weights()[i]@));
        lemma_real_drifts(
            reading,
            total_drift(params, ewc.former(), ewc.weights(), i as nat),
            params[i]@,
            ewc.former()[i]@,
            ewc.weights()[i]@,
            params[i]@.len(),
        );
        reals::lemma_same_sum(
            params[i]@.len(),
            |j: int|
                reading.at(ewc.weights()[i]@, j) * (reading.at(params[i]@, j) - reading.at(
                    ewc.former()[i]@,
                    j,
                )) * (reading.at(params[i]@, j) - reading.at(ewc.former()[i]@, j)),
            |j: int|
                real_at(reading, ewc.weights(), i, j) * ewc.gone(reading, params, i, j)
                    * ewc.gone(reading, params, i, j),
        );
    }
}

/// The weight of an element is the square of its gradient, over real numbers, and the former
/// parameters are those that were given.
pub proof fn law_weights_are_squared_gradients<T: Scalar>(
    reading: Reading<T>,
    params: Seq<Vec<T>>,
    grads: Seq<Vec<T>>,
    lambda: T,
    ewc: EWC<T>,
    i: int,
    j: int,
)
    requires
        reading.is_ring(),
        are_real(reading, grads),
        ewc.is_of(params, grads, lambda),
        is_place(grads, i, j),
    ensures
        ewc.lambda == lambda,
        ewc.former().len() == params.len(),
        forall|k: int| 0 <= k < params.len() ==> (#[trigger] ewc.former()[k])@ == params[k]@,
        ewc.weights().len() == grads.len(),
        is_place(ewc.weights(), i, j),
        real_at(reading, ewc.weights(), i, j) == real_at(reading, grads, i, j) * real_at(
            reading,
            grads,
            i,
            j,
        ),
{
    assert(ewc.weights()[i]@ == arith::products(grads[i]@, grads[i]@));
    assert(reading.all_finite(grads[i]@));
    assert((reading.finite)(grads[i]@[j]));
}

/// Twice the penalty is the strength times the sum of the squares of how far every element has
/// gone, each times its weight, over real numbers.
pub proof fn law_penalty_is_half_a_weighted_square<T: Number>(
    reading: Reading<T>,
    ewc: EWC<T>,
    params: Seq<Vec<T>>,
    penalty: T,
)
    requires
        reading.is_faithful(),
        ewc.is_real(reading),
        ewc.knows(params),
        are_real(reading, params),
        ewc.is_penalty(params, penalty),
    ensures
        (reading.finite)(penalty),
        2real * reading.of(penalty) == reading.of(ewc.lambda) * sum_over(
            params,
            |i: int, j: int|
                real_at(reading, ewc.weights(), i, j) * ewc.gone(reading, params, i, j) * ewc.gone(
                    reading,
                    params,
                    i,
                    j,
                ),
        ),
{
    lemma_real_drift(reading, ewc, params, params.len());
    let half = choose|half: T| #[trigger]
        T::decimal.ensures((5, 1), half) && penalty == ewc.lambda.product(half).product(
            total_drift(params, ewc.former(), ewc.weights(), params.len()),
        );
    reading.lemma_half(half);
    let squares = |i: int, j: int|
        real_at(reading, ewc.weights(), i, j) * ewc.gone(reading, params, i, j) * ewc.gone(
            reading,
            params,
            i,
            j,
        );
    let rows = |i: int|
        reals::sum_to(
            params[i]@.len(),
            |j: int|
                real_at(reading, ewc.weights(), i, j) * ewc.gone(reading, params, i, j) * ewc.gone(
                    reading,
                    params,
                    i,
                    j,
                ),
        );
    let others = |i: int| reals::sum_to(params[i]@.len(), |j: int| squares(i, j));
    assert forall|i: int| 0 <= i < params.len() implies #[trigger] rows(i) == others(i) by {
        reals::lemma_same_sum(
            params[i]@.len(),
            |j: int|
                real_at(reading, ewc.weights(), i, j) * ewc.gone(reading, params, i, j) * ewc.gone(
                    reading,
                    params,
                    i,
                    j,
                ),
            |j: int| squares(i, j),
        );
    }
    reals::lemma_same_sum(params.len(), rows, others);
    let (l, total) = (reading.of(ewc.lambda), sum_over(params, squares));
    let half_strength = l * (1real / 2real);
    assert(2real * (half_strength * total) == (2real * half_strength) * total)
        by (nonlinear_arith);
}

/// How a weighted square grows.
proof fn lemma_square_grows(l: real, w: real, d: real, h: real)
    ensures
        l * (w * (d + h) * (d + h)) + (-l) * (w * d * d) == 2real * ((l * w * d) * h) + l * (w * h
            * h),
{
    let (a, b, c) = (w * d * d, w * d * h, w * h * h);
    assert(w * (d + h) * (d + h) == w * d * d + 2real * (w * d * h) + w * h * h)
        by (nonlinear_arith);
    assert(l * (a + 2real * b + c) == l * a + 2real * (l * b) + l * c) by (nonlinear_arith);
    assert((-l) * a == -(l * a)) by (nonlinear_arith);
    assert((l * w * d) * h == l * (w * d * h)) by (nonlinear_arith);
}

/// The pulls are the slope of the penalty: when all parameters move by some steps, the penalty
/// grows by the sum of the pulls times the steps, and by what the penalty of the steps alone
/// would be.
pub proof fn law_pulls_are_the_slope_of_the_penalty<T: Number>(
    reading: Reading<T>,
    ewc: EWC<T>,
    now: Seq<Vec<T>>,
    later: Seq<Vec<T>>,
    penalty: T,
    later_penalty: T,
    pulls: Seq<Vec<T>>,
)
    requires
        reading.is_faithful(),
        ewc.is_real(reading),
        ewc.knows(now),
        are_real(reading, now),
        are_real(reading, later),
        later.len() == now.len(),
        forall|i: int| 0 <= i < now.len() ==> (#[trigger] later[i])@.len() == now[i]@.len(),
        ewc.is_penalty(now, penalty),
        ewc.is_penalty(later, later_penalty),
        ewc.are_pulls(now, pulls),
    ensures
        are_real(reading, pulls),
        pulls.len() == now.len(),
        forall|i: int| 0 <= i < now.len() ==> (#[trigger] pulls[i])@.len() == now[i]@.len(),
        2real * (reading.of(later_penalty) - reading.of(penalty)) == 2real * sum_over(
            now,
            |i: int, j: int|
                real_at(reading, pulls, i, j) * (real_at(reading, later, i, j) - real_at(
                    reading,
                    now,
                    i,
                    j,
                )),
        ) + reading.of(ewc.lambda) * sum_over(
            now,
            |i: int, j: int|
                real_at(reading, ewc.weights(), i, j) * (real_at(reading, later, i, j) - real_at(
                    reading,
                    now,
                    i,
                    j,
                )) * (real_at(reading, later, i, j) - real_at(reading, now, i, j)),
        ),
{
    assert(ewc.knows(later)) by {
        assert forall|i: int| 0 <= i < later.len() implies (#[trigger] later[i])@.len()
            <= ewc.former()[i]@.len() && later[i]@.len() <= ewc.weights()[i]@.len() by {
            assert(now[i]@.len() <= ewc.former()[i]@.len());
        }
    }
    law_penalty_is_half_a_weighted_square(reading, ewc, now, penalty);
    law_penalty_is_half_a_weighted_square(reading, ewc, later, later_penalty);
    let l = reading.of(ewc.lambda);
    let first = |i: int, j: int|
        real_at(reading, ewc.weights(), i, j) * ewc.gone(reading, now, i, j) * ewc.gone(
            reading,
            now,
            i,
            j,
        );
    let second = |i: int, j: int|
        real_at(reading, ewc.weights(), i, j) * ewc.gone(reading, later, i, j) * ewc.gone(
            reading,
            later,
            i,
            j,
        );
    let work = |i: int, j: int|
        real_at(reading, pulls, i, j) * (real_at(reading, later, i, j) - real_at(
            reading,
            now,
            i,
            j,
        ));
    let own = |i: int, j: int|
        real_at(reading, ewc.weights(), i, j) * (real_at(reading, later, i, j) - real_at(
            reading,
            now,
            i,
            j,
        )) * (real_at(reading, later, i, j) - real_at(reading, now, i, j));
    let growth = |i: int, j: int| l * second(i, j) + (-l) * first(i, j);
    let parts = |i: int, j: int| 2real * work(i, j) + l * own(i, j);
    assert forall|i: int, j: int| is_place(now, i, j) implies {
        &&& (reading.finite)(pulls[i]@[j])
        &&& #[trigger] growth(i, j) == parts(i, j)
    } by {
        assert(later[i]@.len() == now[i]@.len());
        assert(now[i]@.len() <= ewc.former()[i]@.len());
        assert(now[i]@.len() <= ewc.weights()[i]@.len());
        assert(reading.all_finite(now[i]@) && reading.all_finite(later[i]@));
        assert(reading.all_finite(ewc.former()[i]@) && reading.all_finite(ewc.weights()[i]@));
        assert((reading.finite)(now[i]@[j]) && (reading.finite)(later[i]@[j]));
        assert((reading.finite)(ewc.former()[i]@[j]) && (reading.finite)(ewc.weights()[i]@[j]));
        assert(pulls[i]@ == self::pulls(
            ewc.lambda,
            now[i]@,
            ewc.former()[i]@,
            ewc.weights()[i]@,
        ));
        let w = real_at(reading, ewc.weights(), i, j);
        let (d, e) = (ewc.gone(reading, now, i, j), ewc.gone(reading, later, i, j));
        let h = real_at(reading, later, i, j) - real_at(reading, now, i, j);
        let p = real_at(reading, pulls, i, j);
        assert(p == l * w * d);
        assert(e == d + h);
        lemma_square_grows(l, w, d, h);
    }
    assert forall|i: int| 0 <= i < pulls.len() implies reading.all_finite(
        (#[trigger] pulls[i])@,
    ) by {
        assert forall|j: int| 0 <= j < pulls[i]@.len() implies (reading.finite)(
            #[trigger] pulls[i]@[j],
        ) by {
            assert(is_place(now, i, j));
            assert(growth(i, j) == parts(i, j));
        }
    }
    lemma_same_over(now, growth, parts);
    lemma_sums_over(now, l, second, -l, first, growth);
    lemma_sums_over(now, 2real, work, l, own, parts);
    lemma_same_shape(now, later, second);
    let (a, b) = (sum_over(now, first), sum_over(now, second));
    assert((-l) * a == -(l * a)) by (nonlinear_arith);
}

/// A sum over all elements goes by the lengths alone.
proof fn lemma_same_shape<T>(now: Seq<Vec<T>>, later: Seq<Vec<T>>, f: spec_fn(int, int) -> real)
    requires
        later.len() == now.len(),
        forall|i: int| 0 <= i < now.len() ==> (#[trigger] later[i])@.len() == now[i]@.len(),
    ensures
        sum_over(later, f) == sum_over(now, f),
{
    let rows = |i: int| reals::sum_to(later[i]@.len(), |j: int| f(i, j));
    let others = |i: int| reals::sum_to(now[i]@.len(), |j: int| f(i, j));
    assert forall|i: int| 0 <= i < now.len() implies #[trigger] rows(i) == others(i) by {
        assert(later[i]@.len() == now[i]@.len());
    }
    reals::lemma_same_sum(now.len(), rows, others);
}

/// What is added to the gradients are the pulls: each element of a gradient grows by the pull on
/// its element.
pub proof fn law_gradients_grow_by_the_pulls<T: Scalar>(
    reading: Reading<T>,
    ewc: EWC<T>,
    params: Seq<Vec<T>>,
    pulls: Seq<Vec<T>>,
    before: Seq<Option<Vec<T>>>,
    after: Seq<Option<Vec<T>>>,
    i: int,
    j: int,
)
    requires
        reading.is_ring(),
        ewc.are_pulls(params, pulls),
        are_real(reading, pulls),
        ewc.applies(params, before, after),
        0 <= i < before.len(),
        i < params.len(),
        before[i] matches Some(g) ==> reading.all_finite(g@) && 0 <= j < g@.len()
            && j < pulls[i]@.len(),
    ensures
        after.len() == before.len(),
        after[i] is Some <==> before[i] is Some,
        before[i] matches Some(g) ==> {
            &&& after[i]->0@.len() == g@.len()
            &&& reading.at(after[i]->0@, j) - reading.at(g@, j) == real_at(reading, pulls, i, j)
        },
{
    assert(pulls[i]@ == self::pulls(
        ewc.lambda,
        params[i]@,
        ewc.former()[i]@,
        ewc.weights()[i]@,
    ));
    assert(reading.all_finite(pulls[i]@));
    if let Some(g) = before[i] {
        assert((reading.finite)(g@[j]));
        assert((reading.finite)(pulls[i]@[j]));
    }
    match after[i] {
        Some(_) => {},
        None => {},
    }
}

} // verus!
