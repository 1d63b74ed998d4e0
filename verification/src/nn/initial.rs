//! The weights that layers begin with, made of numbers that are drawn by chance.

use crate::tensor::number;
use crate::tensor::number::{count, ratio, root, Number};
use crate::tensor::reals;
use crate::tensor::reals::Reading;
use vstd::prelude::*;

verus! {

/// Whether `x` is the root of `a` over `b`.
pub open spec fn is_root_of_ratio<T: Number>(a: nat, b: nat, x: T) -> bool {
    exists|share: T| #[trigger] number::is_ratio(a, b, share) && number::is_root(share, x)
}

/// The root of one count over another.
fn root_of_ratio<T: Number>(a: u64, b: u64) -> (x: T)
    ensures
        is_root_of_ratio(a as nat, b as nat, x),
{
    let share: T = ratio(a, b);
    assert(number::is_ratio(a as nat, b as nat, share));
    root(share)
}

/// How far from zero the weights of a matrix are at first: the root of six over its rows and
/// columns.
pub fn xavier_limit<T: Number>(rows: usize, cols: usize) -> (limit: T)
    requires
        rows + cols <= usize::MAX,
    ensures
        is_root_of_ratio(6, (rows + cols) as nat, limit),
{
    root_of_ratio(6, (rows + cols) as u64)
}

/// How a number of the normal distribution comes about, from a number between zero and one and an
/// angle: its distance from the middle by the logarithm of the one, its side by the other.
pub struct NormalSteps<T> {
    pub two: T,
    pub minus_two: T,
    pub logarithm: T,
    pub distance: T,
    pub cosine: T,
}

/// Whether `steps` belong to these numbers.
pub open spec fn are_normal_steps<T: Number>(draw: (T, T), steps: NormalSteps<T>) -> bool {
    &&& number::is_count(2, steps.two)
    &&& T::opposite.ensures((steps.two,), steps.minus_two)
    &&& T::logarithm.ensures((draw.0,), steps.logarithm)
    &&& number::is_root(steps.minus_two.product(steps.logarithm), steps.distance)
    &&& T::cosine.ensures((draw.1,), steps.cosine)
}

/// Whether `weight` is what becomes of these numbers at this spread.
pub open spec fn is_normal<T: Number>(spread: T, draw: (T, T), weight: T) -> bool {
    exists|steps: NormalSteps<T>|
        {
            &&& #[trigger] are_normal_steps(draw, steps)
            &&& weight == spread.product(steps.distance).product(steps.cosine)
        }
}

/// What becomes of two numbers at this spread.
fn normal<T: Number>(spread: T, draw: (T, T)) -> (weight: T)
    ensures
        is_normal(spread, draw, weight),
{
    let two: T = count(2);
    let minus_two: T = two.opposite();
    let first: T = draw.0;
    let logarithm: T = first.logarithm();
    let distance: T = root(minus_two.times(logarithm));
    let second: T = draw.1;
    let cosine: T = second.cosine();
    proof {
        let steps = NormalSteps { two, minus_two, logarithm, distance, cosine };
        assert(are_normal_steps(draw, steps));
    }
    spread.times(distance).times(cosine)
}

/// Whether `weights` are made of these numbers, for a matrix with `rows` rows.
pub open spec fn are_kaiming<T: Number>(
    rows: usize,
    draws: Seq<(T, T)>,
    weights: Seq<T>,
) -> bool {
    &&& weights.len() == draws.len()
    &&& exists|spread: T|
        {
            &&& #[trigger] is_root_of_ratio(2, rows as nat, spread)
            &&& forall|i: int|
                0 <= i < draws.len() ==> is_normal(spread, draws[i], #[trigger] weights[i])
        }
}

/// The weights of a matrix with `rows` rows, each made of a number between zero and one and an
/// angle: they are spread around zero by the root of two over the rows.
pub fn kaiming_weights<T: Number>(rows: usize, draws: &[(T, T)]) -> (weights: Vec<T>)
    ensures
        are_kaiming(rows, draws@, weights@),
{
    let spread: T = root_of_ratio(2, rows as u64);
    assert(is_root_of_ratio(2, rows as nat, spread));
    let mut weights: Vec<T> = Vec::new();
    for i in 0..draws.len()
        invariant
            weights@.len() == i,
            forall|j: int| 0 <= j < i ==> is_normal(spread, draws@[j], #[trigger] weights@[j]),
    {
        weights.push(normal(spread, draws[i]));
    }
    weights
}

/// The root of one count over another, over real numbers: its square, as often as the other tells,
/// makes up the one.
proof fn lemma_root_of_ratio<T: Number>(reading: Reading<T>, a: nat, b: nat, x: T)
    requires
        reading.is_faithful(),
        a <= u64::MAX,
        0 < b <= u64::MAX,
        is_root_of_ratio(a, b, x),
    ensures
        (reading.finite)(x),
        reading.of(x) >= 0real,
        (reading.of(x) * reading.of(x)) * (b as real) == a as real,
{
    let share = choose|share: T| #[trigger]
        number::is_ratio(a, b, share) && number::is_root(share, x);
    reading.lemma_ratio(a, b, share);
    let (p, q) = (a as real, b as real);
    reals::lemma_quotient(p, q);
    assert(p / q >= 0real) by (nonlinear_arith)
        requires
            p >= 0real,
            q > 0real,
    ;
}

/// The square of the limit, times the rows and columns together, is six.
pub proof fn law_limits_shrink_with_the_size<T: Number>(
    reading: Reading<T>,
    rows: usize,
    cols: usize,
    limit: T,
)
    requires
        reading.is_faithful(),
        0 < rows + cols <= usize::MAX,
        is_root_of_ratio(6, (rows + cols) as nat, limit),
    ensures
        (reading.finite)(limit),
        reading.of(limit) >= 0real,
        (reading.of(limit) * reading.of(limit)) * ((rows + cols) as real) == 6real,
{
    lemma_root_of_ratio(reading, 6, (rows + cols) as nat, limit);
}

/// A weight, over real numbers: how far it lies from zero, by the spread, has a square that is
/// minus twice the logarithm of the first number drawn, and the second number is the angle that
/// tells how much of that is left. The square of the spread, times the rows, is two.
pub proof fn law_weights_are_spread_by_the_rows<T: Number>(
    reading: Reading<T>,
    rows: usize,
    draws: Seq<(T, T)>,
    weights: Seq<T>,
    i: int,
) -> (found: (real, real, real))
    requires
        reading.is_faithful(),
        rows > 0,
        are_kaiming(rows, draws, weights),
        0 <= i < draws.len(),
        (reading.finite)(draws[i].0),
        (reading.finite)(draws[i].1),
        0real < reading.of(draws[i].0) <= 1real,
    ensures
        weights.len() == draws.len(),
        ({
            let (spread, distance, log) = found;
            &&& spread >= 0real
            &&& (spread * spread) * (rows as real) == 2real
            &&& (reading.exp)(log) == reading.of(draws[i].0)
            &&& distance >= 0real
            &&& distance * distance == -2real * log
            &&& reading.at(weights, i) == (spread * distance) * (reading.cos)(
                reading.of(draws[i].1),
            )
        }),
{
    let spread = choose|spread: T|
        {
            &&& #[trigger] is_root_of_ratio(2, rows as nat, spread)
            &&& forall|i: int|
                0 <= i < draws.len() ==> is_normal(spread, draws[i], #[trigger] weights[i])
        };
    lemma_root_of_ratio(reading, 2, rows as nat, spread);
    assert(is_normal(spread, draws[i], weights[i]));
    let steps = choose|steps: NormalSteps<T>|
        {
            &&& #[trigger] are_normal_steps(draws[i], steps)
            &&& weights[i] == spread.product(steps.distance).product(steps.cosine)
        };
    assert(reading.reads(steps.two, 2real));
    let log = reading.of(steps.logarithm);
    assert((reading.exp)(0real) == 1real);
    assert(log <= 0real) by {
        if log > 0real {
            assert((reading.exp)(0real) < (reading.exp)(log));
        }
    }
    assert(reading.reads(steps.minus_two, -2real));
    assert(-2real * log >= 0real) by (nonlinear_arith)
        requires
            log <= 0real,
    ;
    assert(reading.reads(steps.minus_two.product(steps.logarithm), -2real * log));
    assert(reading.reads(steps.cosine, (reading.cos)(reading.of(draws[i].1))));
    (reading.of(spread), reading.of(steps.distance), log)
}

} // verus!
