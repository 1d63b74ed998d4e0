//! Rotary position embedding: pairs of elements are turned by angles that depend on their
//! position.

use crate::tensor::arith::Scalar;
use crate::tensor::number;
use crate::tensor::number::{ratio, Number};
use crate::tensor::ops;
use crate::tensor::reals::Reading;
use vstd::prelude::*;

verus! {

/// The cosine and the sine of an angle.
#[derive(Debug, Clone, Copy, PartialEq, Eq)]
pub struct Angle<T> {
    pub cos: T,
    pub sin: T,
}

/// The shape of what is turned: heads of `seq_len` positions with `head_dim` elements each.
#[derive(Debug, Clone, Copy, PartialEq, Eq, Structural)]
pub struct RopeShape {
    pub n_head: usize,
    pub seq_len: usize,
    pub head_dim: usize,
}

impl RopeShape {
    /// Whether elements come in pairs, and can be counted.
    pub open spec fn valid(self) -> bool {
        &&& self.head_dim % 2 == 0
        &&& self.seq_len * (self.head_dim / 2) <= usize::MAX
    }

    /// The angle of the element at place `q`: there is one for each pair of each position.
    pub open spec fn angle_at(self, q: int) -> int {
        ((q / self.head_dim as int) % self.seq_len as int) * (self.head_dim / 2) + (q
            % self.head_dim as int) / 2
    }

    /// The element at place `q` after the turn.
    pub open spec fn turned<T: Scalar>(self, data: Seq<T>, angles: Seq<Angle<T>>, q: int) -> T {
        let angle = angles[self.angle_at(q)];
        if q % 2 == 0 {
            data[q].product(angle.cos).difference(data[q + 1].product(angle.sin))
        } else {
            data[q - 1].product(angle.sin).sum(data[q].product(angle.cos))
        }
    }

    /// The number of elements that are turned.
    pub open spec fn len(self) -> int {
        self.n_head * (self.seq_len * self.head_dim)
    }

    /// The elements after the turn. What stands behind those that are turned becomes zero.
    pub open spec fn all_turned<T: Scalar>(self, data: Seq<T>, angles: Seq<Angle<T>>) -> Seq<T> {
        Seq::new(
            data.len(),
            |q: int|
                if q < self.len() {
                    self.turned(data, angles, q)
                } else {
                    T::nought()
                },
        )
    }

    /// Turns every pair of elements.
    pub fn turn<T: Scalar>(&self, data: &[T], angles: &[Angle<T>]) -> (out: Vec<T>)
        requires
            self.valid(),
            self.len() <= data@.len(),
            angles@.len() == self.seq_len * (self.head_dim / 2),
        ensures
            out@ == self.all_turned(data@, angles@),
    {
        let half: usize = self.head_dim / 2;
        let len: usize = self.turned_len(data.len());
        let mut out: Vec<T> = Vec::new();
        proof {
            lemma_even(self.n_head as int, self.seq_len as int, self.head_dim as int);
        }
        while out.len() < len
            invariant
                self.valid(),
                half == self.head_dim / 2,
                len == self.len(),
                len <= data@.len(),
                len % 2 == 0,
                angles@.len() == self.seq_len * half,
                angles@.len() <= usize::MAX,
                out@.len() <= len,
                out@.len() % 2 == 0,
                forall|q: int|
                    0 <= q < out@.len() ==> #[trigger] out@[q] == self.turned(data@, angles@, q),
            decreases len - out@.len(),
        {
            let q: usize = out.len();
            assert(self.seq_len > 0 && self.head_dim > 0) by (nonlinear_arith)
                requires
                    0 < self.n_head * (self.seq_len * self.head_dim),
                    self.seq_len >= 0,
                    self.head_dim >= 0,
            ;
            let position: usize = q / self.head_dim % self.seq_len;
            let pair: usize = q % self.head_dim / 2;
            proof {
                lemma_same_angle(*self, q as int);
                assert(position * half + pair < self.seq_len * half) by (nonlinear_arith)
                    requires
                        0 <= position < self.seq_len,
                        0 <= pair < half,
                ;
                assert(position * half >= 0) by (nonlinear_arith);
            }
            let angle: Angle<T> = angles[position * half + pair];
            let even: T = data[q];
            let odd: T = data[q + 1];
            out.push(even.times(angle.cos).minus(odd.times(angle.sin)));
            out.push(even.times(angle.sin).plus(odd.times(angle.cos)));
        }
        while out.len() < data.len()
            invariant
                len == self.len(),
                len <= out@.len() <= data@.len(),
                forall|q: int|
                    0 <= q < len ==> #[trigger] out@[q] == self.turned(data@, angles@, q),
                forall|q: int| len <= q < out@.len() ==> #[trigger] out@[q] == T::nought(),
            decreases data@.len() - out@.len(),
        {
            out.push(T::zero());
        }
        assert(out@ =~= self.all_turned(data@, angles@));
        out
    }

    /// The number of elements that are turned, of which there are at most `limit`.
    fn turned_len(&self, limit: usize) -> (len: usize)
        requires
            self.len() <= limit,
        ensures
            len == self.len(),
    {
        if self.n_head == 0 {
            assert(self.len() == 0) by (nonlinear_arith)
                requires
                    self.n_head == 0,
                    self.len() == self.n_head * (self.seq_len * self.head_dim),
            ;
            return 0;
        }
        assert(0 <= self.seq_len * self.head_dim <= self.n_head * (self.seq_len * self.head_dim))
            by (nonlinear_arith)
            requires
                self.n_head >= 1,
                self.seq_len >= 0,
                self.head_dim >= 0,
        ;
        self.n_head * (self.seq_len * self.head_dim)
    }
}

/// How an angle comes about: the exponent of the base, the base to that power, the position, and
/// the position over that.
pub struct AngleSteps<T> {
    pub exponent: T,
    pub slowness: T,
    pub position: T,
    pub theta: T,
    pub sine: T,
}

impl RopeShape {
    /// Whether `angle` is that of pair `pair` of position `pos`: later pairs turn more slowly,
    /// and the way back goes by the opposite sine.
    pub open spec fn is_angle<T: Number>(
        self,
        base: T,
        inverse: bool,
        pos: nat,
        pair: nat,
        angle: Angle<T>,
    ) -> bool {
        exists|steps: AngleSteps<T>|
            {
                &&& #[trigger] number::is_ratio(2 * pair, self.head_dim as nat, steps.exponent)
                &&& T::raised.ensures((base, steps.exponent), steps.slowness)
                &&& T::count.ensures((pos as u64,), steps.position)
                &&& T::over.ensures((steps.position, steps.slowness), steps.theta)
                &&& T::cosine.ensures((steps.theta,), angle.cos)
                &&& T::sine.ensures((steps.theta,), steps.sine)
                &&& if inverse {
                    T::opposite.ensures((steps.sine,), angle.sin)
                } else {
                    angle.sin == steps.sine
                }
            }
    }

    /// The angle of one pair.
    fn angle_of<T: Number>(&self, base: T, inverse: bool, pos: usize, pair: usize) -> (angle: Angle<
        T,
    >)
        requires
            2 * pair <= usize::MAX,
        ensures
            self.is_angle(base, inverse, pos as nat, pair as nat, angle),
    {
        let exponent: T = ratio((2 * pair) as u64, self.head_dim as u64);
        let slowness: T = base.raised(exponent);
        let position: T = T::count(pos as u64);
        let theta: T = position.over(slowness);
        let sine: T = theta.sine();
        let cos: T = theta.cosine();
        let sin: T = if inverse {
            sine.opposite()
        } else {
            sine
        };
        let angle = Angle { cos, sin };
        proof {
            let steps = AngleSteps { exponent, slowness, position, theta, sine };
            assert(number::is_ratio(2 * pair as nat, self.head_dim as nat, steps.exponent));
            assert(T::count.ensures(((pos as nat) as u64,), steps.position));
        }
        angle
    }

    /// Whether `angles` are those of all pairs of all positions.
    pub open spec fn are_angles<T: Number>(
        self,
        base: T,
        inverse: bool,
        angles: Seq<Angle<T>>,
    ) -> bool {
        &&& angles.len() == self.seq_len * (self.head_dim / 2)
        &&& forall|i: int|
            0 <= i < angles.len() ==> self.is_angle(
                base,
                inverse,
                (i / (self.head_dim / 2) as int) as nat,
                (i % (self.head_dim / 2) as int) as nat,
                #[trigger] angles[i],
            )
    }

    /// The angles of all pairs of all positions.
    pub fn angles<T: Number>(&self, base: T, inverse: bool) -> (angles: Vec<Angle<T>>)
        requires
            self.valid(),
        ensures
            self.are_angles(base, inverse, angles@),
    {
        let half: usize = self.head_dim / 2;
        let mut angles: Vec<Angle<T>> = Vec::new();
        for i in 0..self.seq_len * half
            invariant
                self.valid(),
                half == self.head_dim / 2,
                angles@.len() == i,
                forall|j: int|
                    0 <= j < i ==> self.is_angle(
                        base,
                        inverse,
                        (j / half as int) as nat,
                        (j % half as int) as nat,
                        #[trigger] angles@[j],
                    ),
        {
            assert(half > 0) by (nonlinear_arith)
                requires
                    i < self.seq_len * half,
                    i >= 0,
                    half >= 0,
            ;
            angles.push(self.angle_of(base, inverse, i / half, i % half));
        }
        angles
    }
}

/// An even factor makes the product even.
proof fn lemma_even(heads: int, positions: int, elements: int)
    requires
        elements % 2 == 0,
    ensures
        heads * (positions * elements) % 2 == 0,
{
    let half = elements / 2;
    assert(heads * (positions * elements) == 2 * (heads * (positions * half)))
        by (nonlinear_arith)
        requires
            elements == 2 * half,
    ;
}

/// Both elements of a pair are turned by the same angle, and there is one for them.
proof fn lemma_same_angle(shape: RopeShape, q: int)
    requires
        shape.valid(),
        shape.seq_len > 0,
        shape.head_dim > 0,
        0 <= q,
        q % 2 == 0,
    ensures
        shape.angle_at(q) == shape.angle_at(q + 1),
        0 <= (q / shape.head_dim as int) % (shape.seq_len as int) < shape.seq_len,
        0 <= (q % shape.head_dim as int) / 2 < shape.head_dim / 2,
        (q + 1) % 2 == 1,
{
    let d = shape.head_dim as int;
    let (a, b) = (q / d, q % d);
    vstd::arithmetic::div_mod::lemma_fundamental_div_mod(q, d);
    let half = d / 2;
    assert(b % 2 == 0) by {
        assert(d * a == 2 * (half * a)) by (nonlinear_arith)
            requires
                d == 2 * half,
        ;
    }
    assert(b + 1 < d);
    vstd::arithmetic::div_mod::lemma_fundamental_div_mod_converse(q + 1, d, a, b + 1);
}

impl RopeShape {
    /// The angle by which pair `pair` of position `pos` is turned, where `log` is the logarithm of
    /// the base.
    pub open spec fn real_angle<T>(
        self,
        reading: Reading<T>,
        log: real,
        pos: nat,
        pair: nat,
    ) -> real {
        pos as real / (reading.exp)(log * ((2 * pair) as real / self.head_dim as real))
    }

    /// The place of the first element of pair `pair` of position `pos` of head `h`.
    pub open spec fn place(self, h: int, pos: int, pair: int) -> int {
        (h * self.seq_len + pos) * self.head_dim + 2 * pair
    }

    /// Whether a position of a head has this pair.
    pub open spec fn has_pair(self, h: int, pos: int, pair: int) -> bool {
        &&& 0 <= h < self.n_head
        &&& 0 <= pos < self.seq_len
        &&& 0 <= pair < self.head_dim / 2
    }
}

/// Angles, over real numbers: later positions turn further in proportion, later pairs more
/// slowly, by a power of the base; and the way back goes round the other way.
pub proof fn law_angles_grow_with_the_position<T: Number>(
    reading: Reading<T>,
    shape: RopeShape,
    base: T,
    log: real,
    inverse: bool,
    pos: nat,
    pair: nat,
    angle: Angle<T>,
)
    requires
        reading.is_faithful(),
        (reading.finite)(base),
        (reading.exp)(log) == reading.of(base),
        pos <= u64::MAX,
        2 * pair < shape.head_dim,
        shape.is_angle(base, inverse, pos, pair, angle),
    ensures
        reading.reads(angle.cos, (reading.cos)(shape.real_angle(reading, log, pos, pair))),
        reading.reads(
            angle.sin,
            if inverse {
                -(reading.sin)(shape.real_angle(reading, log, pos, pair))
            } else {
                (reading.sin)(shape.real_angle(reading, log, pos, pair))
            },
        ),
{
    let steps = choose|steps: AngleSteps<T>|
        {
            &&& #[trigger] number::is_ratio(2 * pair, shape.head_dim as nat, steps.exponent)
            &&& T::raised.ensures((base, steps.exponent), steps.slowness)
            &&& T::count.ensures((pos as u64,), steps.position)
            &&& T::over.ensures((steps.position, steps.slowness), steps.theta)
            &&& T::cosine.ensures((steps.theta,), angle.cos)
            &&& T::sine.ensures((steps.theta,), steps.sine)
            &&& if inverse {
                T::opposite.ensures((steps.sine,), angle.sin)
            } else {
                angle.sin == steps.sine
            }
        };
    reading.lemma_ratio(2 * pair, shape.head_dim as nat, steps.exponent);
    let exponent = (2 * pair) as real / shape.head_dim as real;
    assert(reading.reads(steps.slowness, (reading.exp)(log * exponent)));
    assert((reading.exp)(log * exponent) > 0real);
    assert(reading.reads(steps.position, pos as real));
}

/// Every pair is turned by the angle of its position, over real numbers: it points along what it
/// was as far as the cosine tells, and across as far as the sine tells. What stands behind the
/// heads becomes zero.
pub proof fn law_pairs_turn_by_the_angle_of_their_position<T: Number>(
    reading: Reading<T>,
    shape: RopeShape,
    base: T,
    log: real,
    inverse: bool,
    data: Seq<T>,
    angles: Seq<Angle<T>>,
    h: int,
    pos: int,
    pair: int,
)
    requires
        reading.is_faithful(),
        (reading.finite)(base),
        (reading.exp)(log) == reading.of(base),
        shape.valid(),
        shape.len() <= data.len(),
        reading.all_finite(data),
        shape.are_angles(base, inverse, angles),
        shape.has_pair(h, pos, pair),
    ensures
        shape.all_turned(data, angles).len() == data.len(),
        forall|q: int|
            shape.len() <= q < data.len() ==> #[trigger] shape.all_turned(data, angles)[q]
                == T::nought(),
        ({
            let q = shape.place(h, pos, pair);
            let out = shape.all_turned(data, angles);
            let angle = shape.real_angle(reading, log, pos as nat, pair as nat);
            let (x, y) = (reading.at(data, q), reading.at(data, q + 1));
            let (u, v) = (reading.at(out, q), reading.at(out, q + 1));
            let side = if inverse {
                -(reading.sin)(angle)
            } else {
                (reading.sin)(angle)
            };
            &&& 0 <= q && q + 1 < shape.len()
            &&& x * u + y * v == (reading.cos)(angle) * (x * x + y * y)
            &&& x * v - y * u == side * (x * x + y * y)
        }),
{
    let d = shape.head_dim as int;
    let half = d / 2;
    let n = shape.seq_len as int;
    let row = h * n + pos;
    let rows = shape.n_head * n;
    let q = shape.place(h, pos, pair);
    ops::lemma_split_position(h, pos, shape.n_head as int, n);
    ops::lemma_split_position(row, 2 * pair, rows, d);
    ops::lemma_split_position(row, 2 * pair + 1, rows, d);
    ops::lemma_split_position(pos, pair, n, half);
    assert((shape.n_head * n) * d == shape.n_head * (n * d)) by (nonlinear_arith);
    assert(row * (2 * half) == 2 * (row * half)) by (nonlinear_arith);
    assert(d == 2 * half);
    assert(q % 2 == 0);
    lemma_same_angle(shape, q);
    let at = pos * half + pair;
    assert(shape.angle_at(q) == at);
    let angle = angles[at];
    assert(shape.is_angle(base, inverse, pos as nat, pair as nat, angle));
    law_angles_grow_with_the_position(
        reading,
        shape,
        base,
        log,
        inverse,
        pos as nat,
        pair as nat,
        angle,
    );
    assert((reading.finite)(data[q]) && (reading.finite)(data[q + 1]));
    let (c, s) = (reading.of(angle.cos), reading.of(angle.sin));
    let out = shape.all_turned(data, angles);
    let (x, y) = (reading.at(data, q), reading.at(data, q + 1));
    assert(reading.at(out, q) == x * c - y * s);
    assert(reading.at(out, q + 1) == x * s + y * c);
    lemma_turn(x, y, c, s);
}

/// How a turned pair lies to what it was.
proof fn lemma_turn(x: real, y: real, c: real, s: real)
    ensures
        x * (x * c - y * s) + y * (x * s + y * c) == c * (x * x + y * y),
        x * (x * s + y * c) - y * (x * c - y * s) == s * (x * x + y * y),
{
    let (a, b, e, f) = (x * c, y * s, x * s, y * c);
    assert(x * (a - b) == x * a - x * b) by (nonlinear_arith);
    assert(y * (e + f) == y * e + y * f) by (nonlinear_arith);
    assert(x * (e + f) == x * e + x * f) by (nonlinear_arith);
    assert(y * (a - b) == y * a - y * b) by (nonlinear_arith);
    assert(x * (y * s) == y * (x * s)) by (nonlinear_arith);
    assert(x * (y * c) == y * (x * c)) by (nonlinear_arith);
    assert(x * (x * c) == c * (x * x)) by (nonlinear_arith);
    assert(y * (y * c) == c * (y * y)) by (nonlinear_arith);
    assert(x * (x * s) == s * (x * x)) by (nonlinear_arith);
    assert(y * (y * s) == s * (y * y)) by (nonlinear_arith);
    let (i, j) = (x * x, y * y);
    assert(c * (i + j) == c * i + c * j) by (nonlinear_arith);
    assert(s * (i + j) == s * i + s * j) by (nonlinear_arith);
}

} // verus!
