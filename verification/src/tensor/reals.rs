//! Numbers read as real numbers, which laws about what operations are for are stated over.

use super::arith;
use super::arith::Scalar;
use super::linalg;
use super::number;
use super::number::Number;
use vstd::prelude::*;

verus! {

/// A way to read numbers: which of them stand for a real number, and for which. The others, such
/// as infinities, stand for none. Exponentials, sines and cosines are read by functions of real
/// numbers.
#[verifier::reject_recursive_types(T)]
pub struct Reading<T> {
    pub finite: spec_fn(T) -> bool,
    pub value: spec_fn(T) -> real,
    pub exp: spec_fn(real) -> real,
    pub sin: spec_fn(real) -> real,
    pub cos: spec_fn(real) -> real,
    /// The angle of half a turn.
    pub half_turn: real,
}

/// The product of `n` times the same number.
pub open spec fn pow(base: real, n: nat) -> real
    decreases n,
{
    if n == 0 {
        1real
    } else {
        pow(base, (n - 1) as nat) * base
    }
}

/// The sum of the first `n` values of a function.
pub open spec fn sum_to(n: nat, f: spec_fn(int) -> real) -> real
    decreases n,
{
    if n == 0 {
        0real
    } else {
        sum_to((n - 1) as nat, f) + f(n - 1)
    }
}

/// The number without its sign.
pub open spec fn magnitude(x: real) -> real {
    if x < 0real {
        -x
    } else {
        x
    }
}

impl<T> Reading<T> {
    /// Whether a number stands for the real number `r`.
    pub open spec fn reads(self, x: T, r: real) -> bool {
        (self.finite)(x) && (self.value)(x) == r
    }

    /// What a number stands for.
    pub open spec fn of(self, x: T) -> real {
        (self.value)(x)
    }

    /// Whether all numbers of a list stand for real numbers.
    pub open spec fn all_finite(self, list: Seq<T>) -> bool {
        forall|i: int| 0 <= i < list.len() ==> (self.finite)(#[trigger] list[i])
    }

    /// The real number at place `i` of a list.
    pub open spec fn at(self, list: Seq<T>, i: int) -> real {
        (self.value)(list[i])
    }

    /// The sum of a list of real numbers.
    pub open spec fn sum(self, list: Seq<T>) -> real {
        sum_to(list.len(), |i: int| self.at(list, i))
    }

    /// The mean of a list of real numbers.
    pub open spec fn mean(self, list: Seq<T>) -> real {
        self.sum(list) / (list.len() as real)
    }

    /// Whether the exponential turns sums into products, and grows.
    pub open spec fn has_exponential(self) -> bool {
        &&& (self.exp)(0real) == 1real
        &&& forall|a: real| #[trigger] (self.exp)(a) > 0real
        &&& forall|a: real, b: real| #[trigger] (self.exp)(a + b) == (self.exp)(a) * (self.exp)(b)
        &&& forall|a: real, b: real|
            a < b ==> #[trigger] (self.exp)(a) < #[trigger] (self.exp)(b)
    }

    /// Whether sine and cosine are the coordinates of a point that goes around a circle.
    pub open spec fn has_circle(self) -> bool {
        &&& (self.sin)(0real) == 0real
        &&& (self.cos)(0real) == 1real
        &&& self.half_turn > 0real
        &&& (self.cos)(self.half_turn) == -1real
        &&& forall|a: real, b: real|
            0real <= a < b <= self.half_turn ==> #[trigger] (self.cos)(b) < #[trigger] (self.cos)(a)
        &&& forall|a: real|
            #![trigger (self.sin)(a)]
            #![trigger (self.cos)(a)]
            (self.sin)(a) * (self.sin)(a) + (self.cos)(a) * (self.cos)(a) == 1real
        &&& forall|a: real, b: real| #[trigger]
            (self.sin)(a + b) == (self.sin)(a) * (self.cos)(b) + (self.cos)(a) * (self.sin)(b)
        &&& forall|a: real, b: real| #[trigger]
            (self.cos)(a + b) == (self.cos)(a) * (self.cos)(b) - (self.sin)(a) * (self.sin)(b)
    }
}

impl<T: Scalar> Reading<T> {
    /// Whether sums, differences and products are those of real numbers, and the sound numbers are
    /// those that stand for one.
    pub open spec fn is_ring(self) -> bool {
        &&& self.reads(T::nought(), 0real)
        &&& forall|a: T| #[trigger] a.sound() == (self.finite)(a)
        &&& forall|a: T, b: T|
            (self.finite)(a) && (self.finite)(b) ==> self.reads(
                #[trigger] a.sum(b),
                self.of(a) + self.of(b),
            )
        &&& forall|a: T, b: T|
            (self.finite)(a) && (self.finite)(b) ==> self.reads(
                #[trigger] a.difference(b),
                self.of(a) - self.of(b),
            )
        &&& forall|a: T, b: T|
            (self.finite)(a) && (self.finite)(b) ==> self.reads(
                #[trigger] a.product(b),
                self.of(a) * self.of(b),
            )
    }
}

impl<T: Number> Reading<T> {
    /// Whether constants are what they are called.
    pub open spec fn has_constants(self) -> bool {
        &&& forall|x: T| #[trigger] T::one.ensures((), x) ==> self.reads(x, 1real)
        &&& forall|x: T| #[trigger] T::pi.ensures((), x) ==> self.reads(x, self.half_turn)
        &&& forall|n: u64, x: T| #[trigger] T::count.ensures((n,), x) ==> self.reads(x, n as real)
        &&& forall|digits: u64, places: u32, x: T| #[trigger]
            T::decimal.ensures((digits, places), x) ==> self.reads(
                x,
                digits as real / pow(10real, places as nat),
            )
    }

    /// Whether comparisons are those of real numbers. The lowest number is below all of them, and
    /// the highest above.
    pub open spec fn is_ordered(self) -> bool {
        &&& forall|a: T| #[trigger] T::lowest.ensures((), a) ==> !(self.finite)(a)
        &&& forall|a: T| #[trigger] T::highest.ensures((), a) ==> !(self.finite)(a)
        &&& forall|a: T, b: T, yes: bool|
            (self.finite)(a) && (self.finite)(b) && #[trigger] T::is_below.ensures((a, b), yes)
                ==> yes == (self.of(a) < self.of(b))
        &&& forall|a: T, b: T, yes: bool|
            (self.finite)(a) && (self.finite)(b) && #[trigger] T::reaches.ensures((a, b), yes)
                ==> yes == (self.of(a) >= self.of(b))
        &&& forall|a: T, b: T, yes: bool|
            (self.finite)(a) && T::highest.ensures((), b) && #[trigger] T::is_below.ensures(
                (a, b),
                yes,
            ) ==> yes
        &&& forall|a: T, b: T, c: T|
            (self.finite)(a) && (self.finite)(b) && #[trigger] T::greater.ensures((a, b), c)
                ==> self.reads(
                c,
                if self.of(a) < self.of(b) {
                    self.of(b)
                } else {
                    self.of(a)
                },
            )
        &&& forall|a: T, b: T, c: T|
            T::lowest.ensures((), a) && (self.finite)(b) && #[trigger] T::greater.ensures((a, b), c)
                ==> self.reads(c, self.of(b))
        &&& forall|a: T, yes: bool|
            (self.finite)(a) && #[trigger] T::is_positive.ensures((a,), yes) ==> yes == (self.of(a)
                > 0real)
        &&& forall|a: T, yes: bool|
            (self.finite)(a) && #[trigger] T::is_zero.ensures((a,), yes) ==> yes == (self.of(a)
                == 0real)
        &&& forall|a: T, yes: bool|
            (self.finite)(a) && self.of(a) != 0real && #[trigger] T::is_negative.ensures((a,), yes)
                ==> yes == (self.of(a) < 0real)
    }

    /// Whether signs, quotients, roots and powers are those of real numbers.
    pub open spec fn is_field(self) -> bool {
        &&& forall|a: T, b: T|
            (self.finite)(a) && #[trigger] T::opposite.ensures((a,), b) ==> self.reads(
                b,
                -self.of(a),
            )
        &&& forall|a: T, b: T|
            (self.finite)(a) && #[trigger] T::absolute.ensures((a,), b) ==> self.reads(
                b,
                magnitude(self.of(a)),
            )
        &&& forall|a: T, b: T, q: T|
            (self.finite)(a) && (self.finite)(b) && self.of(b) != 0real
                && #[trigger] T::over.ensures((a, b), q) ==> self.reads(q, self.of(a) / self.of(b))
        &&& forall|a: T, y: T|
            (self.finite)(a) && self.of(a) >= 0real && #[trigger] T::root.ensures((a,), y) ==> {
                &&& (self.finite)(y)
                &&& self.of(y) >= 0real
                &&& self.of(y) * self.of(y) == self.of(a)
            }
        &&& forall|a: T, n: u64, y: T|
            (self.finite)(a) && #[trigger] T::power.ensures((a, n), y) ==> self.reads(
                y,
                pow(self.of(a), n as nat),
            )
    }

    /// Whether exponentials, what undoes them, and the functions of angles are those of real
    /// numbers.
    pub open spec fn is_transcendental(self) -> bool {
        &&& self.has_exponential()
        &&& self.has_circle()
        &&& forall|a: T, y: T|
            (self.finite)(a) && #[trigger] T::exponential.ensures((a,), y) ==> self.reads(
                y,
                (self.exp)(self.of(a)),
            )
        &&& forall|a: T, y: T|
            (self.finite)(a) && self.of(a) > 0real && #[trigger] T::logarithm.ensures((a,), y)
                ==> (self.finite)(y) && (self.exp)(self.of(y)) == self.of(a)
        &&& forall|a: T, y: T|
            (self.finite)(a) && #[trigger] T::tangent.ensures((a,), y) ==> {
                let (up, down) = ((self.exp)(self.of(a)), (self.exp)(-self.of(a)));
                (self.finite)(y) && self.of(y) * (up + down) == up - down
            }
        &&& forall|a: T, y: T|
            (self.finite)(a) && #[trigger] T::sine.ensures((a,), y) ==> self.reads(
                y,
                (self.sin)(self.of(a)),
            )
        &&& forall|a: T, y: T|
            (self.finite)(a) && #[trigger] T::cosine.ensures((a,), y) ==> self.reads(
                y,
                (self.cos)(self.of(a)),
            )
        &&& forall|a: T, b: T, y: T, log: real|
            #![trigger T::raised.ensures((a, b), y), (self.exp)(log)]
            (self.finite)(a) && (self.finite)(b) && T::raised.ensures((a, b), y) && (self.exp)(log)
                == self.of(a) ==> self.reads(y, (self.exp)(log * self.of(b)))
    }

    /// Whether every operation on numbers that stand for real numbers is that of real numbers.
    pub open spec fn is_faithful(self) -> bool {
        &&& self.is_ring()
        &&& self.has_constants()
        &&& self.is_ordered()
        &&& self.is_field()
        &&& self.is_transcendental()
    }
}

/// Sums of the same numbers are the same.
pub proof fn lemma_same_sum(n: nat, f: spec_fn(int) -> real, g: spec_fn(int) -> real)
    requires
        forall|i: int| 0 <= i < n ==> #[trigger] f(i) == g(i),
    ensures
        sum_to(n, f) == sum_to(n, g),
    decreases n,
{
    if n > 0 {
        lemma_same_sum((n - 1) as nat, f, g);
        assert(f(n - 1) == g(n - 1));
    }
}

/// A sum of sums is the sum of both.
pub proof fn lemma_sum_of_sums(
    n: nat,
    f: spec_fn(int) -> real,
    g: spec_fn(int) -> real,
    both: spec_fn(int) -> real,
)
    requires
        forall|i: int| 0 <= i < n ==> #[trigger] both(i) == f(i) + g(i),
    ensures
        sum_to(n, both) == sum_to(n, f) + sum_to(n, g),
    decreases n,
{
    if n > 0 {
        lemma_sum_of_sums((n - 1) as nat, f, g, both);
        assert(both(n - 1) == f(n - 1) + g(n - 1));
    }
}

/// A sum of multiples is the multiple of the sum.
pub proof fn lemma_sum_of_multiples(
    n: nat,
    c: real,
    f: spec_fn(int) -> real,
    scaled: spec_fn(int) -> real,
)
    requires
        forall|i: int| 0 <= i < n ==> #[trigger] scaled(i) == c * f(i),
    ensures
        sum_to(n, scaled) == c * sum_to(n, f),
    decreases n,
{
    if n > 0 {
        lemma_sum_of_multiples((n - 1) as nat, c, f, scaled);
        let (rest, last) = (sum_to((n - 1) as nat, f), f(n - 1));
        assert(scaled(n - 1) == c * last);
        assert(c * rest + c * last == c * (rest + last)) by (nonlinear_arith);
    } else {
        assert(c * 0real == 0real) by (nonlinear_arith);
    }
}

/// A double sum may be taken in either order.
pub proof fn lemma_double_sum(
    n: nat,
    m: nat,
    f: spec_fn(int, int) -> real,
    outer: spec_fn(int) -> real,
    inner: spec_fn(int) -> real,
)
    requires
        forall|i: int| 0 <= i < n ==> #[trigger] outer(i) == sum_to(m, |j: int| f(i, j)),
        forall|j: int| 0 <= j < m ==> #[trigger] inner(j) == sum_to(n, |i: int| f(i, j)),
    ensures
        sum_to(n, outer) == sum_to(m, inner),
    decreases n,
{
    if n == 0 {
        assert forall|j: int| 0 <= j < m implies #[trigger] inner(j) == 0real by {}
        lemma_sum_of_zeros(m, inner);
    } else {
        let fewer = |j: int| sum_to((n - 1) as nat, |i: int| f(i, j));
        lemma_double_sum((n - 1) as nat, m, f, outer, fewer);
        let last = |j: int| f(n - 1, j);
        assert(outer(n - 1) == sum_to(m, |j: int| f(n - 1, j)));
        assert forall|j: int| 0 <= j < m implies #[trigger] inner(j) == fewer(j) + last(j) by {}
        lemma_sum_of_sums(m, fewer, last, inner);
    }
}

/// A sum of nothing but zeros is zero.
pub proof fn lemma_sum_of_zeros(n: nat, f: spec_fn(int) -> real)
    requires
        forall|i: int| 0 <= i < n ==> #[trigger] f(i) == 0real,
    ensures
        sum_to(n, f) == 0real,
    decreases n,
{
    if n > 0 {
        lemma_sum_of_zeros((n - 1) as nat, f);
        assert(f(n - 1) == 0real);
    }
}

/// A sum ends where only zeros follow.
pub proof fn lemma_sum_ends(n: nat, m: nat, f: spec_fn(int) -> real)
    requires
        m <= n,
        forall|i: int| m <= i < n ==> #[trigger] f(i) == 0real,
    ensures
        sum_to(n, f) == sum_to(m, f),
    decreases n,
{
    if m < n {
        lemma_sum_ends((n - 1) as nat, m, f);
        assert(f(n - 1) == 0real);
    }
}

/// A sum of positive numbers is positive.
pub proof fn lemma_sum_is_positive(n: nat, f: spec_fn(int) -> real)
    requires
        forall|i: int| 0 <= i < n ==> #[trigger] f(i) > 0real,
    ensures
        sum_to(n, f) >= 0real,
        n > 0 ==> sum_to(n, f) > 0real,
    decreases n,
{
    if n > 0 {
        lemma_sum_is_positive((n - 1) as nat, f);
        assert(f(n - 1) > 0real);
    }
}

/// A sum of numbers that are not negative is not negative.
pub proof fn lemma_sum_is_not_negative(n: nat, f: spec_fn(int) -> real)
    requires
        forall|i: int| 0 <= i < n ==> #[trigger] f(i) >= 0real,
    ensures
        sum_to(n, f) >= 0real,
    decreases n,
{
    if n > 0 {
        lemma_sum_is_not_negative((n - 1) as nat, f);
        assert(f(n - 1) >= 0real);
    }
}

/// What a quotient is.
pub proof fn lemma_quotient(a: real, b: real)
    requires
        b != 0real,
    ensures
        (a / b) * b == a,
        b * (a / b) == a,
{
    assert((a / b) * b == a && b * (a / b) == a) by (nonlinear_arith)
        requires
            b != 0real,
    ;
}

/// A number that gives `a` when it is multiplied by `b` is their quotient.
pub proof fn lemma_is_quotient(a: real, b: real, q: real)
    requires
        b != 0real,
        q * b == a,
    ensures
        q == a / b,
{
    assert(q == a / b) by (nonlinear_arith)
        requires
            b != 0real,
            q * b == a,
    ;
}

/// Roots of the same number are the same, as long as they are not negative.
pub proof fn lemma_same_root(x: real, y: real)
    requires
        x >= 0real,
        y >= 0real,
        x * x == y * y,
    ensures
        x == y,
{
    assert(x == y) by (nonlinear_arith)
        requires
            x >= 0real,
            y >= 0real,
            x * x == y * y,
    ;
}

/// Powers of a number between zero and one lie there too, and from the first on they are below
/// one where it is.
pub proof fn lemma_power_of_fraction(base: real, n: nat)
    requires
        0real <= base < 1real,
    ensures
        0real <= pow(base, n) <= 1real,
        n > 0 ==> pow(base, n) < 1real,
    decreases n,
{
    if n > 0 {
        lemma_power_of_fraction(base, (n - 1) as nat);
        let before = pow(base, (n - 1) as nat);
        assert(0real <= before * base && before * base <= base) by (nonlinear_arith)
            requires
                0real <= base,
                0real <= before <= 1real,
        ;
    }
}

impl<T: Scalar> Reading<T> {
    /// The sum of a list is that of real numbers.
    pub proof fn lemma_total(self, list: Seq<T>)
        requires
            self.is_ring(),
            self.all_finite(list),
        ensures
            self.reads(arith::total(list), self.sum(list)),
        decreases list.len(),
    {
        if list.len() > 0 {
            let rest = list.drop_last();
            assert forall|i: int| 0 <= i < rest.len() implies (self.finite)(
                #[trigger] rest[i],
            ) by {
                assert((self.finite)(list[i]));
            }
            self.lemma_total(rest);
            lemma_same_sum(
                rest.len(),
                |i: int| self.at(rest, i),
                |i: int| self.at(list, i),
            );
            assert((self.finite)(list[list.len() - 1]));
        }
    }
}

impl<T: Scalar> Reading<T> {
    /// A sum of products is that of real numbers.
    pub proof fn lemma_dot(
        self,
        a: Seq<T>,
        x: linalg::Vectors,
        i: int,
        b: Seq<T>,
        y: linalg::Vectors,
        j: int,
        n: nat,
    )
        requires
            self.is_ring(),
            forall|p: int| 0 <= p < n ==> (self.finite)(a[#[trigger] x.at(i, p)]),
            forall|p: int| 0 <= p < n ==> (self.finite)(b[#[trigger] y.at(j, p)]),
        ensures
            self.reads(
                linalg::dot(a, x, i, b, y, j, n),
                sum_to(n, |p: int| self.at(a, x.at(i, p)) * self.at(b, y.at(j, p))),
            ),
        decreases n,
    {
        if n > 0 {
            self.lemma_dot(a, x, i, b, y, j, (n - 1) as nat);
            assert((self.finite)(a[x.at(i, n - 1)]));
            assert((self.finite)(b[y.at(j, n - 1)]));
        }
    }
}

impl<T: Number> Reading<T> {
    /// A number over a count is the quotient.
    pub proof fn lemma_part(self, number: T, n: nat, quotient: T)
        requires
            self.has_constants(),
            self.is_field(),
            (self.finite)(number),
            0 < n <= u64::MAX,
            number::is_part(number, n, quotient),
        ensures
            self.reads(quotient, self.of(number) / (n as real)),
    {
        let count = choose|count: T|
            {
                &&& #[trigger] T::count.ensures((n as u64,), count)
                &&& T::over.ensures((number, count), quotient)
            };
        assert(self.reads(count, n as real));
    }

    /// One count over another is the quotient.
    pub proof fn lemma_ratio(self, a: nat, b: nat, ratio: T)
        requires
            self.has_constants(),
            self.is_field(),
            a <= u64::MAX,
            0 < b <= u64::MAX,
            number::is_ratio(a, b, ratio),
        ensures
            self.reads(ratio, a as real / b as real),
    {
        let count = choose|count: T|
            {
                &&& #[trigger] T::count.ensures((a as u64,), count)
                &&& number::is_part(count, b, ratio)
            };
        assert(self.reads(count, a as real));
        self.lemma_part(count, b, ratio);
    }

    /// So many millionths.
    pub proof fn lemma_millionths(self, digits: u64, number: T)
        requires
            self.has_constants(),
            T::decimal.ensures((digits, 6), number),
        ensures
            self.reads(number, digits as real / 1_000_000real),
    {
        reveal_with_fuel(pow, 7);
        assert(pow(10real, 6) == 1_000_000real);
    }

    /// One hundred millionth.
    pub proof fn lemma_least(self, least: T)
        requires
            self.has_constants(),
            T::decimal.ensures((1, 8), least),
        ensures
            self.reads(least, 1real / 100_000_000real),
    {
        reveal_with_fuel(pow, 9);
        assert(pow(10real, 8) == 100_000_000real);
    }

    /// One half.
    pub proof fn lemma_half(self, half: T)
        requires
            self.has_constants(),
            T::decimal.ensures((5, 1), half),
        ensures
            self.reads(half, 1real / 2real),
    {
        assert(pow(10real, 0) == 1real);
        assert(pow(10real, 1) == pow(10real, 0) * 10real);
        assert(1real * 10real == 10real);
        assert(5real / 10real == 1real / 2real);
    }
}

impl<T: Scalar> Reading<T> {
    /// What lands on place `p` is a sum of real numbers.
    pub proof fn lemma_landed(self, list: Seq<T>, places: Seq<usize>, p: int, n: nat)
        requires
            self.is_ring(),
            self.all_finite(list),
            n <= list.len(),
            n <= places.len(),
        ensures
            self.reads(
                arith::landed(list, places, p, n),
                sum_to(
                    n,
                    |q: int|
                        if places[q] == p {
                            self.at(list, q)
                        } else {
                            0real
                        },
                ),
            ),
        decreases n,
    {
        if n > 0 {
            self.lemma_landed(list, places, p, (n - 1) as nat);
            assert((self.finite)(list[n - 1]));
        }
    }
}

} // verus!
