//! Numbers that can also be divided and compared, and that have exponentials and logarithms.

use super::arith;
use super::arith::{sum, Scalar};
use super::layout::element_count;
use super::ops::{ReluOp, SumOp};
use super::reals;
use super::reals::Reading;
use super::shape;
use vstd::prelude::*;

verus! {

/// Numbers that can be divided and compared, and that have roots, exponentials and the like.
/// Nothing is asked of what these operations give: what is made of them is told step by step.
pub trait Number: Scalar {
    /// The number one.
    fn one() -> Self;

    /// A count as a number.
    fn count(n: u64) -> Self;

    /// A number from its decimal digits, the last `places` of which stand behind the point.
    fn decimal(digits: u64, places: u32) -> Self;

    /// The number whose single precision bits these are.
    fn from_bits(bits: u32) -> Self;

    /// The bits of the number in single precision.
    fn to_bits(self) -> u32;

    /// The ratio of a circle's circumference to its diameter.
    fn pi() -> Self;

    /// A number that is greater than none.
    fn lowest() -> Self;

    /// A number that is greater than all that are finite, or the greatest of these.
    fn highest() -> Self;

    /// The greater of two numbers.
    fn greater(self, other: Self) -> Self;

    /// Whether the number is less than another.
    fn is_below(self, other: Self) -> bool;

    /// Whether the number is at least another.
    fn reaches(self, other: Self) -> bool;

    /// Whether the number is greater than zero.
    fn is_positive(self) -> bool;

    /// Whether the number has a minus sign.
    fn is_negative(self) -> bool;

    /// Whether the number is zero.
    fn is_zero(self) -> bool;

    /// The number with the other sign.
    fn opposite(self) -> Self;

    /// The number without its sign.
    fn absolute(self) -> Self;

    /// The quotient of two numbers.
    fn over(self, other: Self) -> Self;

    /// The square root.
    fn root(self) -> Self;

    /// The number multiplied by itself, `n` times in all.
    fn power(self, n: u64) -> Self;

    /// The number to the power of another.
    fn raised(self, exponent: Self) -> Self;

    /// The exponential.
    fn exponential(self) -> Self;

    /// The natural logarithm.
    fn logarithm(self) -> Self;

    /// The hyperbolic tangent.
    fn tangent(self) -> Self;

    /// The sine.
    fn sine(self) -> Self;

    /// The cosine.
    fn cosine(self) -> Self;
}

/// Whether `number` is the number one.
pub open spec fn is_one<T: Number>(number: T) -> bool {
    T::one.ensures((), number)
}

/// The number one.
pub fn one<T: Number>() -> (number: T)
    ensures
        is_one(number),
{
    T::one()
}

/// Whether `number` is a number that is greater than none.
pub open spec fn is_lowest<T: Number>(number: T) -> bool {
    T::lowest.ensures((), number)
}

/// A number that is greater than none.
pub fn lowest<T: Number>() -> (number: T)
    ensures
        is_lowest(number),
{
    T::lowest()
}

/// Whether `number` is the count `n`.
pub open spec fn is_count<T: Number>(n: u64, number: T) -> bool {
    T::count.ensures((n,), number)
}

/// A count as a number.
pub fn count<T: Number>(n: u64) -> (number: T)
    ensures
        is_count(n, number),
{
    T::count(n)
}

/// Whether `y` is the square root of `x`.
pub open spec fn is_root<T: Number>(x: T, y: T) -> bool {
    T::root.ensures((x,), y)
}

/// The square root.
pub fn root<T: Number>(x: T) -> (y: T)
    ensures
        is_root(x, y),
{
    x.root()
}

/// Whether `number` is given by these decimal digits.
pub open spec fn is_decimal<T: Number>(digits: u64, places: u32, number: T) -> bool {
    T::decimal.ensures((digits, places), number)
}

/// A number from its decimal digits.
pub fn decimal<T: Number>(digits: u64, places: u32) -> (number: T)
    ensures
        is_decimal(digits, places, number),
{
    T::decimal(digits, places)
}

/// Whether `quotient` is `number` over the count `n`.
pub open spec fn is_part<T: Number>(number: T, n: nat, quotient: T) -> bool {
    exists|count: T|
        {
            &&& #[trigger] T::count.ensures((n as u64,), count)
            &&& T::over.ensures((number, count), quotient)
        }
}

/// A number over a count.
pub fn part<T: Number>(number: T, n: u64) -> (quotient: T)
    ensures
        is_part(number, n as nat, quotient),
{
    let count: T = T::count(n);
    let quotient: T = number.over(count);
    assert(T::count.ensures(((n as nat) as u64,), count));
    quotient
}

/// Whether `ratio` is one count over another.
pub open spec fn is_ratio<T: Number>(a: nat, b: nat, ratio: T) -> bool {
    exists|count: T|
        {
            &&& #[trigger] T::count.ensures((a as u64,), count)
            &&& is_part(count, b, ratio)
        }
}

/// One count over another.
pub fn ratio<T: Number>(a: u64, b: u64) -> (quotient: T)
    ensures
        is_ratio(a as nat, b as nat, quotient),
{
    let count: T = T::count(a);
    assert(T::count.ensures(((a as nat) as u64,), count));
    part(count, b)
}

/// Whether `y` is one over the root of `x`.
pub open spec fn is_inverse_root<T: Number>(x: T, y: T) -> bool {
    exists|one: T, root: T|
        {
            &&& #[trigger] T::one.ensures((), one)
            &&& #[trigger] T::root.ensures((x,), root)
            &&& T::over.ensures((one, root), y)
        }
}

/// One over the root of a number.
pub fn inverse_root<T: Number>(x: T) -> (y: T)
    ensures
        is_inverse_root(x, y),
{
    let one: T = T::one();
    let root: T = x.root();
    let y: T = one.over(root);
    assert(T::one.ensures((), one));
    assert(T::root.ensures((x,), root));
    y
}

/// The mean of a list.
pub fn mean<T: Number>(data: &[T]) -> (number: T)
    ensures
        is_part(arith::total(data@), data@.len(), number),
{
    part(sum(data), data.len() as u64)
}

/// The mean of a tensor of this shape: of `numel` elements in storage.
#[derive(Debug, Clone, PartialEq, Eq)]
pub struct MeanOp {
    pub input_shape: Vec<usize>,
    pub numel: usize,
}

impl MeanOp {
    /// Every element of the input gets the same part of the one gradient.
    pub fn backward<T: Number>(self, grad: T) -> (out: Vec<T>)
        requires
            shape::strides_fit(self.input_shape@),
            shape::volume(self.input_shape@) <= usize::MAX,
        ensures
            exists|share: T|
                {
                    &&& #[trigger] is_part(grad, self.numel as nat, share)
                    &&& out@ == Seq::new(shape::volume(self.input_shape@), |i: int| share)
                },
    {
        let share: T = part(grad, self.numel as u64);
        SumOp { input_shape: self.input_shape }.backward(share)
    }
}

/// Whether `out` holds the exponentials of `data`.
pub open spec fn are_exponentials<T: Number>(data: Seq<T>, out: Seq<T>) -> bool {
    &&& out.len() == data.len()
    &&& forall|i: int| 0 <= i < out.len() ==> T::exponential.ensures((data[i],), #[trigger] out[i])
}

/// The exponential of every element.
pub fn exp<T: Number>(data: &[T]) -> (out: Vec<T>)
    ensures
        are_exponentials(data@, out@),
{
    let mut out: Vec<T> = Vec::new();
    for i in 0..data.len()
        invariant
            out@.len() == i,
            forall|j: int|
                0 <= j < i ==> T::exponential.ensures((data@[j],), #[trigger] out@[j]),
    {
        let x: T = data[i];
        out.push(x.exponential());
    }
    out
}

/// The natural logarithm of every element.
pub fn log<T: Number>(data: &[T]) -> (out: Vec<T>)
    ensures
        out@.len() == data@.len(),
        forall|i: int|
            0 <= i < out@.len() ==> T::logarithm.ensures((data@[i],), #[trigger] out@[i]),
{
    let mut out: Vec<T> = Vec::new();
    for i in 0..data.len()
        invariant
            out@.len() == i,
            forall|j: int| 0 <= j < i ==> T::logarithm.ensures((data@[j],), #[trigger] out@[j]),
    {
        let x: T = data[i];
        out.push(x.logarithm());
    }
    out
}

/// The logarithm of a tensor.
#[derive(Debug, Clone, Copy, PartialEq, Eq, Structural)]
pub struct LogOp;

impl LogOp {
    /// The gradient of every element over the element, as far as both go.
    pub fn backward<T: Number>(&self, grad: &[T], input: &[T]) -> (out: Vec<T>)
        ensures
            out@.len() == arith::both(grad@, input@),
            forall|i: int|
                0 <= i < out@.len() ==> T::over.ensures(
                    (grad@[i], input@[i]),
                    #[trigger] out@[i],
                ),
    {
        let mut out: Vec<T> = Vec::new();
        let mut i: usize = 0;
        while i < grad.len() && i < input.len()
            invariant
                i <= arith::both(grad@, input@),
                out@.len() == i,
                forall|j: int|
                    0 <= j < i ==> T::over.ensures((grad@[j], input@[j]), #[trigger] out@[j]),
            decreases grad@.len() - i,
        {
            let g: T = grad[i];
            out.push(g.over(input[i]));
            i = i + 1;
        }
        out
    }
}

/// Every element, but zero where it is less; and which elements are positive.
pub fn relu<T: Number>(data: &[T]) -> (result: (Vec<T>, ReluOp))
    ensures
        result.0@.len() == data@.len(),
        result.1.mask@.len() == data@.len(),
        forall|i: int|
            0 <= i < data@.len() ==> T::greater.ensures(
                (data@[i], T::nought()),
                #[trigger] result.0@[i],
            ),
        forall|i: int|
            0 <= i < data@.len() ==> T::is_positive.ensures(
                (data@[i],),
                #[trigger] result.1.mask@[i],
            ),
{
    let mut out: Vec<T> = Vec::new();
    let mut mask: Vec<bool> = Vec::new();
    for i in 0..data.len()
        invariant
            out@.len() == i,
            mask@.len() == i,
            forall|j: int|
                0 <= j < i ==> T::greater.ensures(
                    (data@[j], T::nought()),
                    #[trigger] out@[j],
                ),
            forall|j: int|
                0 <= j < i ==> T::is_positive.ensures((data@[j],), #[trigger] mask@[j]),
    {
        let x: T = data[i];
        out.push(x.greater(T::zero()));
        mask.push(x.is_positive());
    }
    (out, ReluOp { mask })
}

/// The numbers that the Gaussian error linear unit is approximated with.
#[derive(Debug, Clone, Copy, PartialEq, Eq)]
pub struct GeluNumbers<T> {
    /// One half.
    pub half: T,
    /// One.
    pub one: T,
    /// The root of two over pi.
    pub root: T,
    /// The weight of the cube, 0.044715.
    pub cube: T,
    /// Three times the weight of the cube.
    pub triple: T,
}

/// Whether the numbers are those of the approximation.
pub open spec fn are_gelu_numbers<T: Number>(c: GeluNumbers<T>) -> bool {
    &&& T::decimal.ensures((5, 1), c.half)
    &&& T::one.ensures((), c.one)
    &&& exists|two: T, pi: T, ratio: T|
        {
            &&& #[trigger] T::count.ensures((2,), two)
            &&& #[trigger] T::pi.ensures((), pi)
            &&& #[trigger] T::over.ensures((two, pi), ratio)
            &&& T::root.ensures((ratio,), c.root)
        }
    &&& T::decimal.ensures((44_715, 6), c.cube)
    &&& T::decimal.ensures((134_145, 6), c.triple)
}

/// The numbers of the approximation.
pub fn gelu_numbers<T: Number>() -> (c: GeluNumbers<T>)
    ensures
        are_gelu_numbers(c),
{
    let two: T = T::count(2);
    let pi: T = T::pi();
    let ratio: T = two.over(pi);
    let c = GeluNumbers {
        half: T::decimal(5, 1),
        one: T::one(),
        root: ratio.root(),
        cube: T::decimal(44_715, 6),
        triple: T::decimal(134_145, 6),
    };
    assert(T::count.ensures((2,), two));
    assert(T::pi.ensures((), pi));
    assert(T::over.ensures((two, pi), ratio));
    c
}

impl<T: Number> GeluNumbers<T> {
    /// What the hyperbolic tangent is taken of.
    pub open spec fn argument(self, x: T) -> T {
        self.root.product(x.sum(self.cube.product(x.product(x).product(x))))
    }

    /// The unit at `x`, where the tangent is `t`.
    pub open spec fn unit(self, x: T, t: T) -> T {
        self.half.product(x).product(self.one.sum(t))
    }

    /// The slope of the unit at `x`, where the tangent is `t`.
    pub open spec fn slope(self, x: T, t: T) -> T {
        let bend = self.one.difference(t.product(t));
        let inner = self.root.product(self.one.sum(self.triple.product(x).product(x)));
        self.half.product(self.one.sum(t)).sum(
            self.half.product(x).product(bend).product(inner),
        )
    }

    /// The hyperbolic tangent that belongs to `x`.
    fn tangent_at(&self, x: T) -> (t: T)
        ensures
            T::tangent.ensures((self.argument(x),), t),
    {
        let argument: T = self.root.times(x.plus(self.cube.times(x.times(x).times(x))));
        argument.tangent()
    }

    /// Whether `y` is the unit at `x`.
    pub open spec fn is_unit(self, x: T, y: T) -> bool {
        exists|t: T| #[trigger] T::tangent.ensures((self.argument(x),), t) && y == self.unit(x, t)
    }

    /// Whether `g` is the gradient at `x` of a result with the gradient `grad`.
    pub open spec fn is_pulled(self, grad: T, x: T, g: T) -> bool {
        exists|t: T| #[trigger]
            T::tangent.ensures((self.argument(x),), t) && g == grad.product(self.slope(x, t))
    }
}

/// The Gaussian error linear unit of every element, in its approximation by the hyperbolic
/// tangent.
pub fn gelu<T: Number>(data: &[T], numbers: &GeluNumbers<T>) -> (out: Vec<T>)
    ensures
        out@.len() == data@.len(),
        forall|i: int| 0 <= i < out@.len() ==> numbers.is_unit(data@[i], #[trigger] out@[i]),
{
    let mut out: Vec<T> = Vec::new();
    for i in 0..data.len()
        invariant
            out@.len() == i,
            forall|j: int| 0 <= j < i ==> numbers.is_unit(data@[j], #[trigger] out@[j]),
    {
        let x: T = data[i];
        let t: T = numbers.tangent_at(x);
        out.push(numbers.half.times(x).times(numbers.one.plus(t)));
    }
    out
}

/// The Gaussian error linear unit of a tensor.
#[derive(Debug, Clone, Copy, PartialEq, Eq)]
pub struct GeluOp<T> {
    pub numbers: GeluNumbers<T>,
}

impl<T: Number> GeluOp<T> {
    /// The gradient of every element: that of the result by the slope at the element, as far as
    /// both go.
    pub fn backward(&self, grad: &[T], input: &[T]) -> (out: Vec<T>)
        ensures
            out@.len() == arith::both(grad@, input@),
            forall|i: int|
                0 <= i < out@.len() ==> self.numbers.is_pulled(
                    grad@[i],
                    input@[i],
                    #[trigger] out@[i],
                ),
    {
        let c: GeluNumbers<T> = self.numbers;
        let mut out: Vec<T> = Vec::new();
        let mut i: usize = 0;
        while i < grad.len() && i < input.len()
            invariant
                i <= arith::both(grad@, input@),
                c == self.numbers,
                out@.len() == i,
                forall|j: int|
                    0 <= j < i ==> self.numbers.is_pulled(
                        grad@[j],
                        input@[j],
                        #[trigger] out@[j],
                    ),
            decreases grad@.len() - i,
        {
            let x: T = input[i];
            let t: T = c.tangent_at(x);
            let bend: T = c.one.minus(t.times(t));
            let inner: T = c.root.times(c.one.plus(c.triple.times(x).times(x)));
            let slope: T = c.half.times(c.one.plus(t)).plus(c.half.times(x).times(bend).times(inner));
            out.push(grad[i].times(slope));
            i = i + 1;
        }
        out
    }
}

/// The mean of a list of real numbers is what the list adds up to if all elements are it.
pub proof fn law_the_mean_makes_up_the_sum<T: Number>(reading: Reading<T>, data: Seq<T>, mean: T)
    requires
        reading.is_faithful(),
        reading.all_finite(data),
        0 < data.len() <= u64::MAX,
        is_part(arith::total(data), data.len(), mean),
    ensures
        (reading.finite)(mean),
        reading.of(mean) * (data.len() as real) == reading.sum(data),
{
    reading.lemma_total(data);
    reading.lemma_part(arith::total(data), data.len(), mean);
    reals::lemma_quotient(reading.sum(data), data.len() as real);
}

/// What becomes of an element when it is rectified, over real numbers: it stays where it is
/// positive, and is nothing where it is not; and which of both is the case is remembered.
pub proof fn law_rectified_elements_are_not_negative<T: Number>(
    reading: Reading<T>,
    x: T,
    y: T,
    positive: bool,
)
    requires
        reading.is_faithful(),
        (reading.finite)(x),
        T::greater.ensures((x, T::nought()), y),
        T::is_positive.ensures((x,), positive),
    ensures
        (reading.finite)(y),
        positive <==> reading.of(x) > 0real,
        positive ==> reading.of(y) == reading.of(x),
        !positive ==> reading.of(y) == 0real,
{
}

/// The gradient of a logarithm gives that of the result back when it is multiplied by the
/// element.
pub proof fn law_logarithm_gradients_are_quotients<T: Number>(
    reading: Reading<T>,
    grad: T,
    x: T,
    out: T,
)
    requires
        reading.is_faithful(),
        (reading.finite)(grad),
        (reading.finite)(x),
        reading.of(x) != 0real,
        T::over.ensures((grad, x), out),
    ensures
        (reading.finite)(out),
        reading.of(out) * reading.of(x) == reading.of(grad),
{
    reals::lemma_quotient(reading.of(grad), reading.of(x));
}

/// What the Gaussian error linear unit takes the tangent of, as a function of real numbers: `root`
/// is the root of two over the ratio of circumference and diameter.
pub open spec fn real_argument(root: real, x: real) -> real {
    root * (x + (44_715real / 1_000_000real) * (x * x * x))
}

/// How fast that grows.
pub open spec fn real_argument_slope(root: real, x: real) -> real {
    root * (1real + 3real * (44_715real / 1_000_000real) * (x * x))
}

impl<T: Number> GeluNumbers<T> {
    /// The numbers as real numbers.
    pub proof fn lemma_real_constants(self, reading: Reading<T>)
        requires
            reading.is_faithful(),
            are_gelu_numbers(self),
        ensures
            reading.reads(self.half, 1real / 2real),
            reading.reads(self.one, 1real),
            reading.reads(self.cube, 44_715real / 1_000_000real),
            reading.reads(self.triple, 3real * (44_715real / 1_000_000real)),
            (reading.finite)(self.root),
            reading.of(self.root) >= 0real,
            reading.of(self.root) * reading.of(self.root) * reading.half_turn == 2real,
    {
        reading.lemma_half(self.half);
        reading.lemma_millionths(44_715, self.cube);
        reading.lemma_millionths(134_145, self.triple);
        let (two, pi, ratio) = choose|two: T, pi: T, ratio: T|
            {
                &&& #[trigger] T::count.ensures((2,), two)
                &&& #[trigger] T::pi.ensures((), pi)
                &&& #[trigger] T::over.ensures((two, pi), ratio)
                &&& T::root.ensures((ratio,), self.root)
            };
        assert(reading.reads(two, 2real));
        let p = reading.half_turn;
        reals::lemma_quotient(2real, p);
        assert(2real / p > 0real) by (nonlinear_arith)
            requires
                p > 0real,
        ;
    }

    /// The two exponentials that the tangent of a real number is made of.
    pub proof fn lemma_real_tangent(
        reading: Reading<T>,
        u: real,
        argument: T,
        t: T,
    ) -> (found: (real, real))
        requires
            reading.is_faithful(),
            reading.reads(argument, u),
            T::tangent.ensures((argument,), t),
        ensures
            (reading.finite)(t),
            found.0 == (reading.exp)(u),
            found.1 == (reading.exp)(-u),
            found.0 > 0real,
            found.1 > 0real,
            found.0 * found.1 == 1real,
            reading.of(t) * (found.0 + found.1) == found.0 - found.1,
    {
        let (up, down) = ((reading.exp)(u), (reading.exp)(-u));
        assert((reading.exp)(u + (-u)) == up * down);
        assert(u + (-u) == 0real);
        (up, down)
    }

    /// The numbers as real numbers, and the two exponentials that belong to `x`, the tangent of
    /// whose argument is `t`.
    proof fn lemma_real_gelu(self, reading: Reading<T>, x: T, t: T) -> (found: (real, real))
        requires
            reading.is_faithful(),
            are_gelu_numbers(self),
            (reading.finite)(x),
            T::tangent.ensures((self.argument(x),), t),
        ensures
            reading.reads(self.half, 1real / 2real),
            reading.reads(self.one, 1real),
            reading.reads(self.triple, 3real * (44_715real / 1_000_000real)),
            (reading.finite)(self.root),
            reading.of(self.root) >= 0real,
            reading.of(self.root) * reading.of(self.root) * reading.half_turn == 2real,
            (reading.finite)(t),
            found.0 == (reading.exp)(real_argument(reading.of(self.root), reading.of(x))),
            found.1 == (reading.exp)(-real_argument(reading.of(self.root), reading.of(x))),
            found.0 > 0real,
            found.1 > 0real,
            found.0 * found.1 == 1real,
            reading.of(t) * (found.0 + found.1) == found.0 - found.1,
    {
        self.lemma_real_constants(reading);
        let u = real_argument(reading.of(self.root), reading.of(x));
        assert(reading.reads(self.argument(x), u));
        Self::lemma_real_tangent(reading, u, self.argument(x), t)
    }
}

/// The Gaussian error linear unit, over real numbers: an element is let through in proportion to
/// the exponential of its argument, against that of the opposite.
pub proof fn law_gelu_weighs_both_signs<T: Number>(
    reading: Reading<T>,
    c: GeluNumbers<T>,
    x: T,
    y: T,
)
    requires
        reading.is_faithful(),
        are_gelu_numbers(c),
        (reading.finite)(x),
        c.is_unit(x, y),
    ensures
        (reading.finite)(y),
        reading.of(c.root) >= 0real,
        reading.of(c.root) * reading.of(c.root) * reading.half_turn == 2real,
        ({
            let u = real_argument(reading.of(c.root), reading.of(x));
            reading.of(y) * ((reading.exp)(u) + (reading.exp)(-u)) == reading.of(x) * (
            reading.exp)(u)
        }),
{
    let t = choose|t: T| #[trigger]
        T::tangent.ensures((c.argument(x),), t) && y == c.unit(x, t);
    let (up, down) = c.lemma_real_gelu(reading, x, t);
    let (r, z) = (reading.of(x), reading.of(t));
    let half = 1real / 2real;
    let both = up + down;
    let h = half * r;
    assert((h * (1real + z)) * both == h * (both + z * both)) by (nonlinear_arith);
    assert(both + z * both == 2real * up);
    assert(h * (2real * up) == (2real * h) * up) by (nonlinear_arith);
}

/// The gradient of the Gaussian error linear unit, over real numbers: that of the result by the
/// slope of what the unit lets through.
pub proof fn law_gelu_gradients_follow_the_slope<T: Number>(
    reading: Reading<T>,
    c: GeluNumbers<T>,
    grad: T,
    x: T,
    out: T,
)
    requires
        reading.is_faithful(),
        are_gelu_numbers(c),
        (reading.finite)(x),
        (reading.finite)(grad),
        c.is_pulled(grad, x, out),
    ensures
        (reading.finite)(out),
        ({
            let u = real_argument(reading.of(c.root), reading.of(x));
            let (up, down) = ((reading.exp)(u), (reading.exp)(-u));
            reading.of(out) * ((up + down) * (up + down)) == reading.of(grad) * (up * (up + down)
                + 2real * (reading.of(x) * real_argument_slope(
                reading.of(c.root),
                reading.of(x),
            )))
        }),
{
    let t = choose|t: T| #[trigger]
        T::tangent.ensures((c.argument(x),), t) && out == grad.product(c.slope(x, t));
    let (up, down) = c.lemma_real_gelu(reading, x, t);
    let (r, z, g) = (reading.of(x), reading.of(t), reading.of(grad));
    let half = 1real / 2real;
    let both = up + down;
    let k = 3real * (44_715real / 1_000_000real);
    let root = reading.of(c.root);
    let inner = root * (1real + (k * r) * r);
    assert((k * r) * r == k * (r * r)) by (nonlinear_arith);
    assert(inner == real_argument_slope(root, r));
    let first = half * (1real + z);
    let h = half * r;
    let bend = 1real - z * z;
    let second = (h * bend) * inner;
    let square = both * both;
    assert(reading.reads(out, g * (first + second)));
    assert(first * square == half * ((both + z * both) * both)) by {
        assert((half * (1real + z)) * (both * both) == half * (((1real + z) * both) * both))
            by (nonlinear_arith);
        assert((1real + z) * both == both + z * both) by (nonlinear_arith);
    }
    assert(both + z * both == 2real * up);
    assert(half * ((2real * up) * both) == up * both) by {
        let m = up * both;
        assert((2real * up) * both == 2real * (up * both)) by (nonlinear_arith);
    }
    assert(bend * square == square - (z * both) * (z * both)) by {
        assert((1real - z * z) * (both * both) == both * both - (z * both) * (z * both))
            by (nonlinear_arith);
    }
    let (d, m) = (up - down, up * down);
    assert((up + down) * (up + down) - (up - down) * (up - down) == 4real * (up * down))
        by (nonlinear_arith);
    assert(bend * square == 4real);
    assert(second * square == (h * inner) * (bend * square)) by {
        assert(((h * bend) * inner) * square == (h * inner) * (bend * square))
            by (nonlinear_arith);
    }
    assert((h * inner) * 4real == 2real * (r * inner)) by {
        let w = r * inner;
        assert((half * r) * inner == half * (r * inner)) by (nonlinear_arith);
    }
    assert((g * (first + second)) * square == g * (first * square + second * square))
        by (nonlinear_arith);
}

} // verus!
