//! The gradients of a list of parameters. A parameter may have none.

use crate::tensor::arith;
use crate::tensor::arith::Scalar;
use crate::tensor::grad;
use crate::tensor::number::Number;
use crate::tensor::reals;
use crate::tensor::reals::Reading;
use vstd::prelude::*;

verus! {

/// The values of the gradients.
pub open spec fn values<T>(grads: Seq<Option<Vec<T>>>) -> Seq<Option<Seq<T>>> {
    Seq::new(grads.len(), |i: int| grad::value(grads[i]))
}

/// Forgets all gradients.
pub fn zero_grad<T>(grads: &mut Vec<Option<Vec<T>>>)
    ensures
        values(final(grads)@) == Seq::new(old(grads)@.len(), |i: int| None::<Seq<T>>),
{
    let mut i: usize = 0;
    while i < grads.len()
        invariant
            i <= grads@.len() == old(grads)@.len(),
            forall|k: int| 0 <= k < i ==> #[trigger] grads@[k] is None,
        decreases grads@.len() - i,
    {
        grads.set(i, None);
        i = i + 1;
    }
    assert(values(grads@) =~= Seq::new(old(grads)@.len(), |i: int| None::<Seq<T>>));
}

/// The gradients with each element multiplied by `factor`.
pub open spec fn scaled_values<T: Scalar>(grads: Seq<Option<Seq<T>>>, factor: T) -> Seq<
    Option<Seq<T>>,
> {
    Seq::new(
        grads.len(),
        |i: int|
            match grads[i] {
                Some(g) => Some(arith::scaled(g, factor)),
                None => None,
            },
    )
}

/// Multiplies all gradients by `factor`.
pub fn scale_gradients<T: Scalar>(grads: &mut Vec<Option<Vec<T>>>, factor: T)
    ensures
        values(final(grads)@) == scaled_values(values(old(grads)@), factor),
{
    let ghost whole = scaled_values(values(grads@), factor);
    let mut i: usize = 0;
    while i < grads.len()
        invariant
            i <= grads@.len() == old(grads)@.len(),
            whole == scaled_values(values(old(grads)@), factor),
            forall|k: int| i <= k < grads@.len() ==> #[trigger] grads@[k] == old(grads)@[k],
            forall|k: int| 0 <= k < i ==> #[trigger] values(grads@)[k] == whole[k],
        decreases grads@.len() - i,
    {
        let ghost before = grads@;
        assert(grads@[i as int] == old(grads)@[i as int]);
        let scaled: Option<Vec<T>> = match &grads[i] {
            Some(g) => Some(arith::scale(g.as_slice(), factor)),
            None => None,
        };
        grads.set(i, scaled);
        proof {
            assert forall|k: int| 0 <= k < i + 1 implies #[trigger] values(grads@)[k]
                == whole[k] by {
                if k < i {
                    assert(values(before)[k] == whole[k]);
                }
            }
        }
        i = i + 1;
    }
    assert(values(grads@) =~= whole);
}

/// The sum of the squares of the first `n` gradients, each summed up on its own first.
pub open spec fn square_total<T: Scalar>(grads: Seq<Option<Seq<T>>>, n: nat) -> T
    decreases n,
{
    if n == 0 {
        T::nought()
    } else {
        let before = square_total(grads, (n - 1) as nat);
        match grads[n - 1] {
            Some(g) => before.sum(arith::total(arith::products(g, g))),
            None => before,
        }
    }
}

/// The square of the length of all gradients, taken as one vector.
pub fn squared_norm<T: Scalar>(grads: &Vec<Option<Vec<T>>>) -> (number: T)
    ensures
        number == square_total(values(grads@), grads@.len()),
{
    let mut number = T::zero();
    let mut i: usize = 0;
    while i < grads.len()
        invariant
            i <= grads@.len(),
            number == square_total(values(grads@), i as nat),
        decreases grads@.len() - i,
    {
        match &grads[i] {
            Some(g) => {
                let squares = arith::mul(g.as_slice(), g.as_slice());
                number = number.plus(arith::sum(squares.as_slice()));
            },
            None => {},
        }
        i = i + 1;
    }
    number
}

/// Whether gradients of this norm are multiplied by `by` to limit the norm to `max_norm`: by the
/// quotient of the two, with a small number added to the norm, where the norm is too great.
pub open spec fn is_clipping<T: Number>(norm: T, max_norm: T, by: Option<T>) -> bool {
    exists|too_great: bool, little: T|
        {
            &&& #[trigger] T::is_below.ensures((max_norm, norm), too_great)
            &&& #[trigger] T::decimal.ensures((1, 6), little)
            &&& match by {
                Some(by) => too_great && T::over.ensures((max_norm, norm.sum(little)), by),
                None => !too_great,
            }
        }
}

/// Whether gradients are limited to `max_norm`, where `norm` is the root of the sum of their
/// squares.
pub open spec fn is_clipped<T: Number>(
    before: Seq<Option<Seq<T>>>,
    max_norm: T,
    norm: T,
    after: Seq<Option<Seq<T>>>,
) -> bool {
    &&& T::root.ensures((square_total(before, before.len()),), norm)
    &&& exists|by: Option<T>|
        {
            &&& #[trigger] is_clipping(norm, max_norm, by)
            &&& after == match by {
                Some(by) => scaled_values(before, by),
                None => before,
            }
        }
}

/// Whether there is an element `j` of gradient `i`.
pub open spec fn is_element<T>(grads: Seq<Option<Seq<T>>>, i: int, j: int) -> bool {
    0 <= i < grads.len() && grads[i] is Some && 0 <= j < grads[i]->0.len()
}

/// Whether every gradient is `factor` times what it was.
pub open spec fn shrinks<T>(
    reading: Reading<T>,
    before: Seq<Option<Seq<T>>>,
    after: Seq<Option<Seq<T>>>,
    factor: real,
) -> bool {
    &&& forall|i: int|
        0 <= i < before.len() ==> {
            &&& (#[trigger] after[i]) is Some == before[i] is Some
            &&& before[i] is Some ==> after[i]->0.len() == before[i]->0.len()
        }
    &&& forall|i: int, j: int|
        is_element(before, i, j) ==> reading.of((#[trigger] after[i])->0[j]) == factor
            * reading.of(#[trigger] before[i]->0[j])
}

/// The norm of all gradients taken together, and what they are multiplied by if it is too great.
pub fn clipping<T: Number>(grads: &Vec<Option<Vec<T>>>, max_norm: T) -> (found: (T, Option<T>))
    ensures
        T::root.ensures((square_total(values(grads@), grads@.len()),), found.0),
        is_clipping(found.0, max_norm, found.1),
{
    let squares: T = squared_norm(grads);
    let norm: T = squares.root();
    let too_great: bool = max_norm.is_below(norm);
    let little: T = T::decimal(1, 6);
    assert(T::is_below.ensures((max_norm, norm), too_great));
    assert(T::decimal.ensures((1, 6), little));
    if too_great {
        (norm, Some(max_norm.over(norm.plus(little))))
    } else {
        (norm, None)
    }
}

/// Limits the norm of all gradients together, and gives back what it was.
pub fn clip_grad_norm<T: Number>(grads: &mut Vec<Option<Vec<T>>>, max_norm: T) -> (norm: T)
    ensures
        is_clipped(values(old(grads)@), max_norm, norm, values(final(grads)@)),
{
    let (norm, by) = clipping(&*grads, max_norm);
    assert(is_clipping(norm, max_norm, by));
    if let Some(by) = by {
        scale_gradients(grads, by);
    }
    norm
}

/// Whether a gradient, where there is one, is made of real numbers.
pub open spec fn is_real<T>(reading: Reading<T>, grad: Option<Seq<T>>) -> bool {
    match grad {
        Some(g) => reading.all_finite(g),
        None => true,
    }
}

/// Whether all gradients are made of real numbers.
pub open spec fn are_real<T>(reading: Reading<T>, grads: Seq<Option<Seq<T>>>) -> bool {
    forall|i: int| 0 <= i < grads.len() ==> is_real(reading, #[trigger] grads[i])
}

/// The sum of the squares of a gradient, which is zero where there is none.
pub open spec fn real_squares<T>(reading: Reading<T>, grad: Option<Seq<T>>) -> real {
    match grad {
        Some(g) => reals::sum_to(g.len(), |j: int| reading.at(g, j) * reading.at(g, j)),
        None => 0real,
    }
}

/// The square of the length of the first `n` gradients, taken as one vector of real numbers.
pub open spec fn real_square_total<T>(
    reading: Reading<T>,
    grads: Seq<Option<Seq<T>>>,
    n: nat,
) -> real {
    reals::sum_to(n, |i: int| real_squares(reading, grads[i]))
}

/// The sum of the squares is that of real numbers.
proof fn lemma_squares<T: Scalar>(reading: Reading<T>, g: Seq<T>)
    requires
        reading.is_ring(),
        reading.all_finite(g),
    ensures
        reading.reads(arith::total(arith::products(g, g)), real_squares(reading, Some(g))),
        real_squares(reading, Some(g)) >= 0real,
{
    let squares = arith::products(g, g);
    assert forall|j: int| 0 <= j < squares.len() implies reading.reads(
        #[trigger] squares[j],
        reading.at(g, j) * reading.at(g, j),
    ) by {
        assert((reading.finite)(g[j]));
    }
    reading.lemma_total(squares);
    let own = |j: int| reading.at(g, j) * reading.at(g, j);
    reals::lemma_same_sum(g.len(), |j: int| reading.at(squares, j), own);
    assert forall|j: int| 0 <= j < g.len() implies #[trigger] own(j) >= 0real by {
        let x = reading.at(g, j);
        assert(x * x >= 0real) by (nonlinear_arith);
    }
    reals::lemma_sum_is_not_negative(g.len(), own);
}

/// The square of the length is that of real numbers.
proof fn lemma_square_total<T: Scalar>(
    reading: Reading<T>,
    grads: Seq<Option<Seq<T>>>,
    n: nat,
)
    requires
        reading.is_ring(),
        are_real(reading, grads),
        n <= grads.len(),
    ensures
        reading.reads(square_total(grads, n), real_square_total(reading, grads, n)),
        real_square_total(reading, grads, n) >= 0real,
    decreases n,
{
    if n > 0 {
        lemma_square_total(reading, grads, (n - 1) as nat);
        assert(is_real(reading, grads[n - 1]));
        if let Some(g) = grads[n - 1] {
            lemma_squares(reading, g);
        }
    }
}

/// Scaled gradients are made of real numbers again, and the square of their length is scaled by
/// the square of the factor.
proof fn lemma_scaled_total<T: Scalar>(
    reading: Reading<T>,
    grads: Seq<Option<Seq<T>>>,
    by: T,
)
    requires
        reading.is_ring(),
        are_real(reading, grads),
        (reading.finite)(by),
    ensures
        are_real(reading, scaled_values(grads, by)),
        real_square_total(reading, scaled_values(grads, by), grads.len()) == (reading.of(by)
            * reading.of(by)) * real_square_total(reading, grads, grads.len()),
{
    let after = scaled_values(grads, by);
    let c = reading.of(by);
    assert forall|i: int| 0 <= i < grads.len() implies {
        &&& is_real(reading, #[trigger] after[i])
        &&& real_squares(reading, after[i]) == (c * c) * real_squares(reading, grads[i])
    } by {
        assert(is_real(reading, grads[i]));
        if let Some(g) = grads[i] {
            let scaled = arith::scaled(g, by);
            assert forall|j: int| 0 <= j < g.len() implies reading.reads(
                #[trigger] scaled[j],
                reading.at(g, j) * c,
            ) by {
                assert((reading.finite)(g[j]));
            }
            let own = |j: int| reading.at(g, j) * reading.at(g, j);
            let grown = |j: int| reading.at(scaled, j) * reading.at(scaled, j);
            assert forall|j: int| 0 <= j < g.len() implies #[trigger] grown(j) == (c * c)
                * own(j) by {
                let x = reading.at(g, j);
                assert(reading.reads(scaled[j], x * c));
                assert((x * c) * (x * c) == (c * c) * (x * x)) by (nonlinear_arith);
            }
            reals::lemma_sum_of_multiples(g.len(), c * c, own, grown);
        } else {
            assert((c * c) * 0real == 0real) by (nonlinear_arith);
        }
    }
    reals::lemma_sum_of_multiples(
        grads.len(),
        c * c,
        |i: int| real_squares(reading, grads[i]),
        |i: int| real_squares(reading, after[i]),
    );
}

/// Clipping, over real numbers. What is given back is the length of all gradients taken as one
/// vector. Gradients that are no longer than allowed stay as they are. Longer ones keep their
/// direction, all of them shrink by the same factor, and they end up shorter than allowed by a
/// millionth of that factor.
pub proof fn law_clipping_shortens_all_gradients_alike<T: Number>(
    reading: Reading<T>,
    before: Seq<Option<Seq<T>>>,
    max_norm: T,
    norm: T,
    after: Seq<Option<Seq<T>>>,
    norm_after: T,
)
    requires
        reading.is_faithful(),
        are_real(reading, before),
        (reading.finite)(max_norm),
        reading.of(max_norm) > 0real,
        is_clipped(before, max_norm, norm, after),
        T::root.ensures((square_total(after, after.len()),), norm_after),
    ensures
        reading.of(norm) >= 0real,
        reading.of(norm) * reading.of(norm) == real_square_total(reading, before, before.len()),
        reading.of(norm) <= reading.of(max_norm) ==> after == before,
        reading.of(norm) > reading.of(max_norm) ==> {
            &&& after.len() == before.len()
            &&& exists|factor: real|
                {
                    &&& 0real < factor < 1real
                    &&& #[trigger] shrinks(reading, before, after, factor)
                    &&& reading.of(norm_after) == factor * reading.of(norm)
                    &&& reading.of(norm_after) + factor / 1_000_000real == reading.of(max_norm)
                }
        },
{
    lemma_square_total(reading, before, before.len());
    let by = choose|by: Option<T>|
        {
            &&& #[trigger] is_clipping(norm, max_norm, by)
            &&& after == match by {
                Some(by) => scaled_values(before, by),
                None => before,
            }
        };
    let (too_great, little) = choose|too_great: bool, little: T|
        {
            &&& #[trigger] T::is_below.ensures((max_norm, norm), too_great)
            &&& #[trigger] T::decimal.ensures((1, 6), little)
            &&& match by {
                Some(by) => too_great && T::over.ensures((max_norm, norm.sum(little)), by),
                None => !too_great,
            }
        };
    if too_great {
        let by = by->0;
        reading.lemma_millionths(1, little);
        let (m, n) = (reading.of(max_norm), reading.of(norm));
        let e = 1real / 1_000_000real;
        let f = reading.of(by);
        assert(reading.reads(by, m / (n + e)));
        assert(0real < f && f < 1real && f * n + f * e == m) by (nonlinear_arith)
            requires
                f == m / (n + e),
                0real < m < n,
                e > 0real,
        ;
        assert(f * e == f / 1_000_000real);
        lemma_scaled_total(reading, before, by);
        lemma_square_total(reading, after, after.len());
        let squares = real_square_total(reading, before, before.len());
        let root = reading.of(norm_after);
        assert((f * f) * squares == (f * n) * (f * n)) by (nonlinear_arith)
            requires
                squares == n * n,
        ;
        assert(f * n >= 0real) by (nonlinear_arith)
            requires
                f > 0real,
                n > 0real,
        ;
        reals::lemma_same_root(root, f * n);
        assert forall|i: int, j: int| is_element(before, i, j) implies reading.of(
            (#[trigger] after[i])->0[j],
        ) == f * reading.of(#[trigger] before[i]->0[j]) by {
            assert(is_real(reading, before[i]));
            let x = reading.of(before[i]->0[j]);
            assert((reading.finite)(before[i]->0[j]));
            assert(x * f == f * x) by (nonlinear_arith);
        }
        assert(shrinks(reading, before, after, f));
    }
}

} // verus!
