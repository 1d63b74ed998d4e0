//! Holding gradients against differences of values.

use crate::tensor::arith::Scalar;
use crate::tensor::number::Number;
use crate::tensor::reals;
use crate::tensor::reals::Reading;
use vstd::prelude::*;
use vstd::slice::slice_to_vec;

verus! {

/// The elements of some inputs.
pub open spec fn elements<T>(inputs: Seq<Vec<T>>) -> Seq<Seq<T>> {
    inputs.map_values(|v: Vec<T>| v@)
}

/// The inputs with element `i` of input `at` replaced.
pub open spec fn nudged<T>(inputs: Seq<Seq<T>>, at: int, i: int, element: T) -> Seq<Seq<T>> {
    inputs.update(at, inputs[at].update(i, element))
}

/// Whether two lists of inputs have the same shape.
pub open spec fn alike<T>(a: Seq<Vec<T>>, b: Seq<Vec<T>>) -> bool {
    &&& a.len() == b.len()
    &&& forall|x: int| 0 <= x < a.len() ==> (#[trigger] a[x])@.len() == b[x]@.len()
}

/// Whether a function and its gradients may be asked for inputs of the same shape as some, and
/// gradients have the shape of the inputs.
pub open spec fn can_be_asked<T, F, G>(
    value_of: F,
    gradient_of: G,
    inputs: Seq<Vec<T>>,
) -> bool where F: Fn(&Vec<Vec<T>>) -> T, G: Fn(&Vec<Vec<T>>) -> Vec<Vec<T>> {
    &&& forall|given: &Vec<Vec<T>>|
        alike(given@, inputs) ==> #[trigger] value_of.requires((given,))
    &&& forall|given: &Vec<Vec<T>>|
        alike(given@, inputs) ==> #[trigger] gradient_of.requires((given,))
    &&& forall|given: &Vec<Vec<T>>, grads: Vec<Vec<T>>|
        alike(given@, inputs) && #[trigger] gradient_of.ensures((given,), grads) ==> alike(
            grads@,
            given@,
        )
}

/// What a check of one element is made of: the values of the function with the element raised
/// and lowered, and the gradients at the inputs.
pub struct Readings<T> {
    pub raised: Vec<Vec<T>>,
    pub lowered: Vec<Vec<T>>,
    pub given: Vec<Vec<T>>,
    pub high: T,
    pub low: T,
    pub grads: Vec<Vec<T>>,
}

/// Whether readings belong to element `i` of input `at`.
pub open spec fn are_readings<T: Scalar, F, G>(
    value_of: F,
    gradient_of: G,
    inputs: Seq<Seq<T>>,
    eps: T,
    at: int,
    i: int,
    readings: Readings<T>,
) -> bool where F: Fn(&Vec<Vec<T>>) -> T, G: Fn(&Vec<Vec<T>>) -> Vec<Vec<T>> {
    let element = inputs[at][i];
    &&& elements(readings.raised@) == nudged(inputs, at, i, element.sum(eps))
    &&& elements(readings.lowered@) == nudged(inputs, at, i, element.difference(eps))
    &&& elements(readings.given@) == inputs
    &&& value_of.ensures((&readings.raised,), readings.high)
    &&& value_of.ensures((&readings.lowered,), readings.low)
    &&& gradient_of.ensures((&readings.given,), readings.grads)
}

/// A gradient held against a difference: the slope of the values, how far the gradient is from
/// it, the greater of both without their signs, but no less than a small number, and the
/// distance over that.
pub struct Comparison<T> {
    pub two: T,
    pub slope: T,
    pub distance: T,
    pub slope_size: T,
    pub grad_size: T,
    pub size: T,
    pub least: T,
    pub scale: T,
    pub error: T,
}

/// Whether `c` compares a gradient with the values `high` and `low`.
pub open spec fn is_comparison<T: Number>(
    high: T,
    low: T,
    grad: T,
    eps: T,
    c: Comparison<T>,
) -> bool {
    &&& T::count.ensures((2,), c.two)
    &&& T::over.ensures((high.difference(low), c.two.product(eps)), c.slope)
    &&& T::absolute.ensures((c.slope.difference(grad),), c.distance)
    &&& T::absolute.ensures((c.slope,), c.slope_size)
    &&& T::absolute.ensures((grad,), c.grad_size)
    &&& T::greater.ensures((c.slope_size, c.grad_size), c.size)
    &&& T::decimal.ensures((1, 8), c.least)
    &&& T::greater.ensures((c.size, c.least), c.scale)
    &&& T::over.ensures((c.distance, c.scale), c.error)
}

/// Whether `agrees` is the judgement of a gradient: that its error is not greater than `tol`.
pub open spec fn is_judgement<T: Number>(
    high: T,
    low: T,
    grad: T,
    eps: T,
    tol: T,
    agrees: bool,
) -> bool {
    exists|c: Comparison<T>|
        {
            &&& #[trigger] is_comparison(high, low, grad, eps, c)
            &&& T::is_below.ensures((tol, c.error), !agrees)
        }
}

/// Judges a gradient.
fn judge<T: Number>(high: T, low: T, grad: T, eps: T, tol: T) -> (agrees: bool)
    ensures
        is_judgement(high, low, grad, eps, tol, agrees),
{
    let two: T = T::count(2);
    let slope: T = high.minus(low).over(two.times(eps));
    let distance: T = slope.minus(grad).absolute();
    let slope_size: T = slope.absolute();
    let grad_size: T = grad.absolute();
    let size: T = slope_size.greater(grad_size);
    let least: T = T::decimal(1, 8);
    let scale: T = size.greater(least);
    let error: T = distance.over(scale);
    let too_great: bool = tol.is_below(error);
    proof {
        let c = Comparison {
            two,
            slope,
            distance,
            slope_size,
            grad_size,
            size,
            least,
            scale,
            error,
        };
        assert(is_comparison(high, low, grad, eps, c));
        assert(T::is_below.ensures((tol, c.error), too_great));
    }
    !too_great
}

/// Whether the check of element `i` of input `at` can come out as `verdict`.
pub open spec fn comes_out<T: Number, F, G>(
    value_of: F,
    gradient_of: G,
    inputs: Seq<Seq<T>>,
    eps: T,
    tol: T,
    at: int,
    i: int,
    verdict: bool,
) -> bool where F: Fn(&Vec<Vec<T>>) -> T, G: Fn(&Vec<Vec<T>>) -> Vec<Vec<T>> {
    exists|readings: Readings<T>|
        {
            &&& #[trigger] are_readings(value_of, gradient_of, inputs, eps, at, i, readings)
            &&& is_judgement(
                readings.high,
                readings.low,
                readings.grads@[at]@[i],
                eps,
                tol,
                verdict,
            )
        }
}

/// A copy of the inputs.
fn copy_inputs<T: Copy>(inputs: &Vec<Vec<T>>) -> (copy: Vec<Vec<T>>)
    ensures
        elements(copy@) == elements(inputs@),
        alike(copy@, inputs@),
{
    let mut copy: Vec<Vec<T>> = Vec::new();
    let mut x: usize = 0;
    while x < inputs.len()
        invariant
            x <= inputs@.len(),
            copy@.len() == x,
            forall|y: int| 0 <= y < x ==> (#[trigger] copy@[y])@ == inputs@[y]@,
        decreases inputs@.len() - x,
    {
        copy.push(slice_to_vec(inputs[x].as_slice()));
        x = x + 1;
    }
    assert(elements(copy@) =~= elements(inputs@));
    copy
}

/// The inputs with element `i` of input `at` replaced.
fn nudge<T: Copy>(inputs: &Vec<Vec<T>>, at: usize, i: usize, element: T) -> (out: Vec<Vec<T>>)
    requires
        at < inputs@.len(),
        i < inputs@[at as int]@.len(),
    ensures
        elements(out@) == nudged(elements(inputs@), at as int, i as int, element),
        alike(out@, inputs@),
{
    let mut out = copy_inputs(inputs);
    assert(elements(out@)[at as int] == elements(inputs@)[at as int]);
    let mut moved = slice_to_vec(inputs[at].as_slice());
    moved.set(i, element);
    out.set(at, moved);
    proof {
        assert forall|x: int| 0 <= x < inputs@.len() implies #[trigger] elements(out@)[x]
            == nudged(elements(inputs@), at as int, i as int, element)[x] by {
            if x != at {
                assert(elements(out@)[x] == elements(inputs@)[x]);
            }
        }
        assert(elements(out@) =~= nudged(elements(inputs@), at as int, i as int, element));
    }
    out
}

/// Holds the gradients of a function against differences of its values: every element of every
/// input is raised and lowered by `eps`, and the slope of the two values is compared with the
/// gradient. The first error greater than `tol` ends the check.
pub fn numerical_grad_check<T: Number, F, G>(
    inputs: &Vec<Vec<T>>,
    eps: T,
    tol: T,
    value_of: &F,
    gradient_of: &G,
) -> (yes: bool) where F: Fn(&Vec<Vec<T>>) -> T, G: Fn(&Vec<Vec<T>>) -> Vec<Vec<T>>
    requires
        can_be_asked(*value_of, *gradient_of, inputs@),
    ensures
        yes ==> forall|at: int, i: int|
            0 <= at < inputs@.len() && 0 <= i < inputs@[at]@.len() ==> #[trigger] comes_out(
                *value_of,
                *gradient_of,
                elements(inputs@),
                eps,
                tol,
                at,
                i,
                true,
            ),
        !yes ==> exists|at: int, i: int|
            0 <= at < inputs@.len() && 0 <= i < inputs@[at]@.len() && #[trigger] comes_out(
                *value_of,
                *gradient_of,
                elements(inputs@),
                eps,
                tol,
                at,
                i,
                false,
            ),
{
    let ghost whole = elements(inputs@);
    let mut at: usize = 0;
    while at < inputs.len()
        invariant
            at <= inputs@.len(),
            whole == elements(inputs@),
            can_be_asked(*value_of, *gradient_of, inputs@),
            forall|x: int, j: int|
                0 <= x < at && 0 <= j < inputs@[x]@.len() ==> #[trigger] comes_out(
                    *value_of,
                    *gradient_of,
                    whole,
                    eps,
                    tol,
                    x,
                    j,
                    true,
                ),
        decreases inputs@.len() - at,
    {
        let mut i: usize = 0;
        while i < inputs[at].len()
            invariant
                at < inputs@.len(),
                i <= inputs@[at as int]@.len(),
                whole == elements(inputs@),
                can_be_asked(*value_of, *gradient_of, inputs@),
                forall|x: int, j: int|
                    0 <= x < at && 0 <= j < inputs@[x]@.len() ==> #[trigger] comes_out(
                        *value_of,
                        *gradient_of,
                        whole,
                        eps,
                        tol,
                        x,
                        j,
                        true,
                    ),
                forall|j: int|
                    0 <= j < i ==> #[trigger] comes_out(
                        *value_of,
                        *gradient_of,
                        whole,
                        eps,
                        tol,
                        at as int,
                        j,
                        true,
                    ),
            decreases inputs@[at as int]@.len() - i,
        {
            let element: T = inputs[at][i];
            assert(whole[at as int][i as int] == element);
            let raised = nudge(inputs, at, i, element.plus(eps));
            let lowered = nudge(inputs, at, i, element.minus(eps));
            let given = copy_inputs(inputs);
            let high: T = value_of(&raised);
            let low: T = value_of(&lowered);
            let grads: Vec<Vec<T>> = gradient_of(&given);
            proof {
                assert(alike(grads@, given@));
                assert(elements(given@)[at as int] == whole[at as int]);
                assert(grads@[at as int]@.len() == given@[at as int]@.len());
            }
            let verdict: bool = judge(high, low, grads[at][i], eps, tol);
            proof {
                let readings = Readings { raised, lowered, given, high, low, grads };
                assert(are_readings(
                    *value_of,
                    *gradient_of,
                    whole,
                    eps,
                    at as int,
                    i as int,
                    readings,
                ));
                assert(comes_out(
                    *value_of,
                    *gradient_of,
                    whole,
                    eps,
                    tol,
                    at as int,
                    i as int,
                    verdict,
                ));
            }
            if !verdict {
                return false;
            }
            i = i + 1;
        }
        at = at + 1;
    }
    true
}

/// The judgement of a gradient, over real numbers: it agrees with the slope between the two
/// values, which lie twice `eps` apart, where both differ by no more than `tol` times the greater
/// of them, or times a hundred millionth where both are less.
pub proof fn law_gradients_are_judged_by_the_slope<T: Number>(
    reading: Reading<T>,
    high: T,
    low: T,
    grad: T,
    eps: T,
    tol: T,
    agrees: bool,
) -> (slope: real)
    requires
        reading.is_faithful(),
        (reading.finite)(high),
        (reading.finite)(low),
        (reading.finite)(grad),
        (reading.finite)(eps),
        (reading.finite)(tol),
        reading.of(eps) > 0real,
        is_judgement(high, low, grad, eps, tol, agrees),
    ensures
        slope * (2real * reading.of(eps)) == reading.of(high) - reading.of(low),
        ({
            let (a, b) = (reals::magnitude(slope), reals::magnitude(reading.of(grad)));
            let least = 1real / 100_000_000real;
            let size = if a >= b && a >= least {
                a
            } else if b >= least {
                b
            } else {
                least
            };
            agrees <==> reals::magnitude(slope - reading.of(grad)) <= reading.of(tol) * size
        }),
{
    let c = choose|c: Comparison<T>|
        {
            &&& #[trigger] is_comparison(high, low, grad, eps, c)
            &&& T::is_below.ensures((tol, c.error), !agrees)
        };
    reading.lemma_least(c.least);
    assert(reading.reads(c.two, 2real));
    let gap = 2real * reading.of(eps);
    let slope = reading.of(c.slope);
    reals::lemma_quotient(reading.of(high) - reading.of(low), gap);
    assert((reading.finite)(c.slope));
    let scale = reading.of(c.scale);
    assert(scale > 0real);
    let distance = reals::magnitude(slope - reading.of(grad));
    reals::lemma_quotient(distance, scale);
    let (q, t) = (distance / scale, reading.of(tol));
    assert((t < q) <==> (t * scale < q * scale)) by (nonlinear_arith)
        requires
            scale > 0real,
    ;
    slope
}

} // verus!
