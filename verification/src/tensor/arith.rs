//! Numbers, sums and products, whatever the numbers are.

use super::reals::Reading;
use vstd::prelude::*;

verus! {

/// Numbers that can be added, subtracted and multiplied. What the operations compute is up to
/// the type; a type outside of proofs need not define it.
pub trait Scalar: Copy {
    /// The number that sums start from.
    open spec fn nought() -> Self {
        arbitrary()
    }

    /// The sum of two numbers.
    open spec fn sum(self, other: Self) -> Self {
        arbitrary()
    }

    /// The difference of two numbers.
    open spec fn difference(self, other: Self) -> Self {
        arbitrary()
    }

    /// The product of two numbers.
    open spec fn product(self, other: Self) -> Self {
        arbitrary()
    }

    /// Whether the number is neither infinite nor undefined.
    open spec fn sound(self) -> bool {
        arbitrary()
    }

    /// The number that sums start from.
    fn zero() -> (number: Self)
        ensures
            number == Self::nought(),
    ;

    /// The sum of two numbers.
    fn plus(self, other: Self) -> (number: Self)
        ensures
            number == self.sum(other),
    ;

    /// The difference of two numbers.
    fn minus(self, other: Self) -> (number: Self)
        ensures
            number == self.difference(other),
    ;

    /// The product of two numbers.
    fn times(self, other: Self) -> (number: Self)
        ensures
            number == self.product(other),
    ;

    /// Whether the number is neither infinite nor undefined.
    fn is_sound(self) -> (yes: bool)
        ensures
            yes == self.sound(),
    ;
}

impl Scalar for u64 {
    open spec fn nought() -> Self {
        0
    }

    open spec fn sum(self, other: Self) -> Self {
        self.wrapping_add(other)
    }

    open spec fn difference(self, other: Self) -> Self {
        self.wrapping_sub(other)
    }

    open spec fn product(self, other: Self) -> Self {
        self.wrapping_mul(other)
    }

    open spec fn sound(self) -> bool {
        true
    }

    fn zero() -> (number: Self) {
        0
    }

    fn plus(self, other: Self) -> (number: Self) {
        self.wrapping_add(other)
    }

    fn minus(self, other: Self) -> (number: Self) {
        self.wrapping_sub(other)
    }

    fn times(self, other: Self) -> (number: Self) {
        self.wrapping_mul(other)
    }

    fn is_sound(self) -> (yes: bool) {
        true
    }
}

/// The sum of a list, from its first element on.
pub open spec fn total<T: Scalar>(s: Seq<T>) -> T
    decreases s.len(),
{
    if s.len() == 0 {
        T::nought()
    } else {
        total(s.drop_last()).sum(s.last())
    }
}

/// The sum of a list.
pub fn sum<T: Scalar>(data: &[T]) -> (number: T)
    ensures
        number == total(data@),
{
    let mut number = T::zero();
    let mut i: usize = 0;
    assert(data@.take(0) =~= Seq::<T>::empty());
    while i < data.len()
        invariant
            i <= data@.len(),
            number == total(data@.take(i as int)),
        decreases data@.len() - i,
    {
        assert(data@.take(i + 1).drop_last() =~= data@.take(i as int));
        number = number.plus(data[i]);
        i = i + 1;
    }
    assert(data@.take(i as int) =~= data@);
    number
}

/// How far both of two lists go.
pub open spec fn both<A, B>(a: Seq<A>, b: Seq<B>) -> nat {
    if a.len() <= b.len() {
        a.len()
    } else {
        b.len()
    }
}

/// The sums of two lists, element by element, as far as both go.
pub open spec fn sums<T: Scalar>(a: Seq<T>, b: Seq<T>) -> Seq<T> {
    Seq::new(both(a, b), |i: int| a[i].sum(b[i]))
}

/// The products of two lists, element by element, as far as both go.
pub open spec fn products<T: Scalar>(a: Seq<T>, b: Seq<T>) -> Seq<T> {
    Seq::new(both(a, b), |i: int| a[i].product(b[i]))
}

/// A list with each element multiplied by `factor`.
pub open spec fn scaled<T: Scalar>(a: Seq<T>, factor: T) -> Seq<T> {
    Seq::new(a.len(), |i: int| a[i].product(factor))
}

/// Adds two lists, element by element, as far as both go.
pub fn add<T: Scalar>(a: &[T], b: &[T]) -> (out: Vec<T>)
    ensures
        out@ == sums(a@, b@),
{
    let mut out: Vec<T> = Vec::new();
    let mut i: usize = 0;
    while i < a.len() && i < b.len()
        invariant
            i <= both(a@, b@),
            out@ == sums(a@, b@).take(i as int),
        decreases a@.len() - i,
    {
        out.push(a[i].plus(b[i]));
        i = i + 1;
        assert(out@ =~= sums(a@, b@).take(i as int));
    }
    assert(out@ =~= sums(a@, b@));
    out
}

/// The differences of the elements of two lists, as far as both go.
pub open spec fn differences<T: Scalar>(a: Seq<T>, b: Seq<T>) -> Seq<T> {
    Seq::new(both(a, b), |i: int| a[i].difference(b[i]))
}

/// Subtracts one list from another, element by element, as far as both go.
pub fn sub<T: Scalar>(a: &[T], b: &[T]) -> (out: Vec<T>)
    ensures
        out@ == differences(a@, b@),
{
    let mut out: Vec<T> = Vec::new();
    let mut i: usize = 0;
    while i < a.len() && i < b.len()
        invariant
            i <= both(a@, b@),
            out@ == differences(a@, b@).take(i as int),
        decreases a@.len() - i,
    {
        out.push(a[i].minus(b[i]));
        i = i + 1;
        assert(out@ =~= differences(a@, b@).take(i as int));
    }
    assert(out@ =~= differences(a@, b@));
    out
}

/// Multiplies two lists, element by element, as far as both go.
pub fn mul<T: Scalar>(a: &[T], b: &[T]) -> (out: Vec<T>)
    ensures
        out@ == products(a@, b@),
{
    let mut out: Vec<T> = Vec::new();
    let mut i: usize = 0;
    while i < a.len() && i < b.len()
        invariant
            i <= both(a@, b@),
            out@ == products(a@, b@).take(i as int),
        decreases a@.len() - i,
    {
        out.push(a[i].times(b[i]));
        i = i + 1;
        assert(out@ =~= products(a@, b@).take(i as int));
    }
    assert(out@ =~= products(a@, b@));
    out
}

/// Multiplies each element of a list by `factor`.
pub fn scale<T: Scalar>(a: &[T], factor: T) -> (out: Vec<T>)
    ensures
        out@ == scaled(a@, factor),
{
    let mut out: Vec<T> = Vec::new();
    let mut i: usize = 0;
    while i < a.len()
        invariant
            i <= a@.len(),
            out@ == scaled(a@, factor).take(i as int),
        decreases a@.len() - i,
    {
        out.push(a[i].times(factor));
        i = i + 1;
        assert(out@ =~= scaled(a@, factor).take(i as int));
    }
    assert(out@ =~= scaled(a@, factor));
    out
}

/// Multiplication, seen from its result.
#[derive(Debug, Clone, Copy, PartialEq, Eq, Structural)]
pub struct MulOp;

impl MulOp {
    /// The gradients of both factors: the gradient of the product times the other factor.
    pub fn backward<T: Scalar>(&self, grad: &[T], a: &[T], b: &[T]) -> (grads: (Vec<T>, Vec<T>))
        ensures
            grads.0@ == products(grad@, b@),
            grads.1@ == products(grad@, a@),
    {
        (self::mul(grad, b), self::mul(grad, a))
    }
}

/// The exponential function, seen from its result.
#[derive(Debug, Clone, Copy, PartialEq, Eq, Structural)]
pub struct ExpOp;

impl ExpOp {
    /// The gradient of the argument: the gradient of the result times the result.
    pub fn backward<T: Scalar>(&self, grad: &[T], output: &[T]) -> (out: Vec<T>)
        ensures
            out@ == products(grad@, output@),
    {
        self::mul(grad, output)
    }
}

/// Multiplication by a number, seen from its result.
#[derive(Debug, Clone, Copy, PartialEq, Eq)]
pub struct ScaleOp<T> {
    pub scalar: T,
}

impl<T: Scalar> ScaleOp<T> {
    /// The gradient of the argument: the gradient of the result times the number.
    pub fn backward(&self, grad: &[T]) -> (out: Vec<T>)
        ensures
            out@ == scaled(grad@, self.scalar),
    {
        scale(grad, self.scalar)
    }
}

/// The sum of those among the first `n` values that go to place `p`, in order.
pub open spec fn landed<T: Scalar>(values: Seq<T>, places: Seq<usize>, p: int, n: nat) -> T
    decreases n,
{
    if n == 0 {
        T::nought()
    } else if places[n - 1] == p {
        landed(values, places, p, (n - 1) as nat).sum(values[n - 1])
    } else {
        landed(values, places, p, (n - 1) as nat)
    }
}

/// Adds each value up at its place, as far as values and places go.
pub fn add_up_at<T: Scalar>(values: &[T], places: &[usize], len: usize) -> (out: Vec<T>)
    requires
        forall|i: int| 0 <= i < places@.len() ==> (#[trigger] places@[i]) < len,
    ensures
        out@.len() == len,
        forall|p: int|
            0 <= p < len ==> #[trigger] out@[p] == landed(
                values@,
                places@,
                p,
                both(values@, places@),
            ),
{
    let mut out: Vec<T> = Vec::new();
    while out.len() < len
        invariant
            out@.len() <= len,
            forall|p: int| 0 <= p < out@.len() ==> #[trigger] out@[p] == T::nought(),
        decreases len - out@.len(),
    {
        out.push(T::zero());
    }
    let mut i: usize = 0;
    while i < values.len() && i < places.len()
        invariant
            i <= both(values@, places@),
            out@.len() == len,
            forall|i: int| 0 <= i < places@.len() ==> (#[trigger] places@[i]) < len,
            forall|p: int|
                0 <= p < len ==> #[trigger] out@[p] == landed(values@, places@, p, i as nat),
        decreases values@.len() - i,
    {
        let place: usize = places[i];
        let held: T = out[place];
        out.set(place, held.plus(values[i]));
        i = i + 1;
    }
    out
}

/// Whether every number of a list is sound.
pub open spec fn all_sound<T: Scalar>(data: Seq<T>) -> bool {
    forall|i: int| 0 <= i < data.len() ==> (#[trigger] data[i]).sound()
}

/// Whether some number of a list is not sound.
pub fn has_unsound<T: Scalar>(data: &[T]) -> (yes: bool)
    ensures
        yes == !all_sound(data@),
{
    let mut i: usize = 0;
    while i < data.len()
        invariant
            i <= data@.len(),
            forall|j: int| 0 <= j < i ==> (#[trigger] data@[j]).sound(),
        decreases data@.len() - i,
    {
        if !data[i].is_sound() {
            assert(!data@[i as int].sound());
            return true;
        }
        i = i + 1;
    }
    false
}

/// Sums, differences, products and multiples of lists are those of their elements, over real
/// numbers, as far as both lists go.
pub proof fn law_lists_are_combined_element_by_element<T: Scalar>(
    reading: Reading<T>,
    a: Seq<T>,
    b: Seq<T>,
    factor: T,
    i: int,
)
    requires
        reading.is_ring(),
        reading.all_finite(a),
        reading.all_finite(b),
        (reading.finite)(factor),
        0 <= i < a.len(),
        i < b.len(),
    ensures
        sums(a, b).len() == both(a, b),
        differences(a, b).len() == both(a, b),
        products(a, b).len() == both(a, b),
        scaled(a, factor).len() == a.len(),
        both(a, b) <= a.len() && both(a, b) <= b.len(),
        both(a, b) == a.len() || both(a, b) == b.len(),
        reading.at(sums(a, b), i) == reading.at(a, i) + reading.at(b, i),
        reading.at(differences(a, b), i) == reading.at(a, i) - reading.at(b, i),
        reading.at(products(a, b), i) == reading.at(a, i) * reading.at(b, i),
        reading.at(scaled(a, factor), i) == reading.at(a, i) * reading.of(factor),
{
    assert((reading.finite)(a[i]) && (reading.finite)(b[i]));
}

} // verus!
