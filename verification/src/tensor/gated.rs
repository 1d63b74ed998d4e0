//! A linear unit that another one opens and closes.

use super::arith;
use super::number;
use super::number::{one, Number};
use super::reals;
use super::reals::Reading;
use vstd::prelude::*;

verus! {

/// How far a gate is open: one over one plus the exponential of its opposite; what it lets
/// through of itself; and how fast that changes.
#[derive(Debug, Clone, Copy, PartialEq, Eq)]
pub struct Gate<T> {
    pub open: T,
    pub through: T,
    pub slope: T,
}

/// Whether `open` tells how far a gate with this number is open.
pub open spec fn is_open<T: Number>(x: T, one: T, open: T) -> bool {
    exists|opposite: T, power: T|
        {
            &&& #[trigger] T::opposite.ensures((x,), opposite)
            &&& #[trigger] T::exponential.ensures((opposite,), power)
            &&& T::over.ensures((one, one.sum(power)), open)
        }
}

/// Whether `gate` belongs to this number.
pub open spec fn is_gate<T: Number>(x: T, gate: Gate<T>) -> bool {
    exists|one: T|
        {
            &&& #[trigger] number::is_one(one)
            &&& is_open(x, one, gate.open)
            &&& gate.through == x.product(gate.open)
            &&& gate.slope == gate.open.product(one.sum(x.product(one.difference(gate.open))))
        }
}

/// How far a unit with this number is open, and what follows from it.
fn gate_of<T: Number>(x: T) -> (gate: Gate<T>)
    ensures
        is_gate(x, gate),
{
    let one: T = one();
    let opposite: T = x.opposite();
    let power: T = opposite.exponential();
    let open: T = one.over(one.plus(power));
    assert(T::opposite.ensures((x,), opposite));
    assert(T::exponential.ensures((opposite,), power));
    assert(is_open(x, one, open));
    let slope: T = open.times(one.plus(x.times(one.minus(open))));
    Gate { open, through: x.times(open), slope }
}

/// What the gradient of a gated unit is made of.
#[derive(Debug, Clone, PartialEq, Eq)]
pub struct SwigluOp<T> {
    pub up: Vec<T>,
    pub gates: Vec<Gate<T>>,
}

/// What some gates let through of themselves.
pub open spec fn through<T>(gates: Seq<Gate<T>>) -> Seq<T> {
    gates.map_values(|gate: Gate<T>| gate.through)
}

/// How fast what some gates let through changes.
pub open spec fn slopes<T>(gates: Seq<Gate<T>>) -> Seq<T> {
    gates.map_values(|gate: Gate<T>| gate.slope)
}

impl<T: Number> SwigluOp<T> {
    /// Every element times what its gate lets through of itself.
    pub open spec fn output(&self) -> Seq<T> {
        arith::products(self.up@, through(self.gates@))
    }

    /// The gradient of the elements.
    pub open spec fn up_gradient(&self, grad: Seq<T>) -> Seq<T> {
        arith::products(grad, through(self.gates@))
    }

    /// The gradient of the gates.
    pub open spec fn gate_gradient(&self, grad: Seq<T>) -> Seq<T> {
        arith::products(arith::products(grad, self.up@), slopes(self.gates@))
    }
}

/// Every element of `up` times what its gate lets through of itself.
pub fn swiglu<T: Number>(up: &[T], gate: &[T]) -> (result: (Vec<T>, SwigluOp<T>))
    requires
        up@.len() == gate@.len(),
    ensures
        result.1.up@ == up@,
        result.1.gates@.len() == gate@.len(),
        forall|i: int| 0 <= i < gate@.len() ==> is_gate(gate@[i], #[trigger] result.1.gates@[i]),
        result.0@ == result.1.output(),
{
    let mut out: Vec<T> = Vec::new();
    let mut gates: Vec<Gate<T>> = Vec::new();
    let mut copy: Vec<T> = Vec::new();
    for i in 0..up.len()
        invariant
            up@.len() == gate@.len(),
            out@.len() == i,
            gates@.len() == i,
            copy@ == up@.take(i as int),
            forall|j: int| 0 <= j < i ==> is_gate(gate@[j], #[trigger] gates@[j]),
            forall|j: int|
                0 <= j < i ==> #[trigger] out@[j] == up@[j].product(gates@[j].through),
    {
        let found: Gate<T> = gate_of(gate[i]);
        out.push(up[i].times(found.through));
        gates.push(found);
        copy.push(up[i]);
        assert(copy@ =~= up@.take(i + 1));
    }
    assert(copy@ =~= up@);
    let op = SwigluOp { up: copy, gates };
    assert(out@ =~= op.output());
    (out, op)
}

impl<T: Number> SwigluOp<T> {
    /// The gradients of both units.
    pub fn backward(&self, grad: &[T]) -> (grads: (Vec<T>, Vec<T>))
        requires
            grad@.len() == self.up@.len() == self.gates@.len(),
        ensures
            grads.0@ == self.up_gradient(grad@),
            grads.1@ == self.gate_gradient(grad@),
    {
        let mut up: Vec<T> = Vec::new();
        let mut gate: Vec<T> = Vec::new();
        for i in 0..grad.len()
            invariant
                grad@.len() == self.up@.len() == self.gates@.len(),
                up@.len() == i,
                gate@.len() == i,
                forall|j: int|
                    0 <= j < i ==> #[trigger] up@[j] == grad@[j].product(self.gates@[j].through),
                forall|j: int|
                    0 <= j < i ==> #[trigger] gate@[j] == grad@[j].product(self.up@[j]).product(
                        self.gates@[j].slope,
                    ),
        {
            let found: Gate<T> = self.gates[i];
            up.push(grad[i].times(found.through));
            gate.push(grad[i].times(self.up[i]).times(found.slope));
        }
        assert(up@ =~= arith::products(grad@, through(self.gates@)));
        assert(gate@ =~= arith::products(
            arith::products(grad@, self.up@),
            slopes(self.gates@),
        ));
        (up, gate)
    }
}

/// How far a gate is open, what it lets through of itself, and how fast that changes, over real
/// numbers: the open part and the closed part are to each other as one and the exponential of the
/// opposite of its number.
pub proof fn law_gates_open_with_their_number<T: Number>(
    reading: Reading<T>,
    x: T,
    gate: Gate<T>,
)
    requires
        reading.is_faithful(),
        (reading.finite)(x),
        is_gate(x, gate),
    ensures
        (reading.finite)(gate.open),
        (reading.finite)(gate.through),
        (reading.finite)(gate.slope),
        0real < reading.of(gate.open) < 1real,
        reading.of(gate.open) * (reading.exp)(-reading.of(x)) == 1real - reading.of(gate.open),
        reading.of(gate.through) * (1real + (reading.exp)(-reading.of(x))) == reading.of(x),
        reading.of(gate.slope) - reading.of(gate.open) == reading.of(gate.through) * (1real
            - reading.of(gate.open)),
{
    let one = choose|one: T|
        {
            &&& #[trigger] number::is_one(one)
            &&& is_open(x, one, gate.open)
            &&& gate.through == x.product(gate.open)
            &&& gate.slope == gate.open.product(one.sum(x.product(one.difference(gate.open))))
        };
    let (opposite, power) = choose|opposite: T, power: T|
        {
            &&& #[trigger] T::opposite.ensures((x,), opposite)
            &&& #[trigger] T::exponential.ensures((opposite,), power)
            &&& T::over.ensures((one, one.sum(power)), gate.open)
        };
    assert(reading.reads(one, 1real));
    let r = reading.of(x);
    let e = (reading.exp)(-r);
    let o = reading.of(gate.open);
    assert(e > 0real);
    reals::lemma_quotient(1real, 1real + e);
    assert(o * (1real + e) == o + o * e) by (nonlinear_arith);
    assert(o > 0real && o * e > 0real) by (nonlinear_arith)
        requires
            o * (1real + e) == 1real,
            e > 0real,
    ;
    assert((r * o) * (1real + e) == r * (o * (1real + e))) by (nonlinear_arith);
    assert(r * 1real == r);
    assert(o * (1real + r * (1real - o)) == o + (r * o) * (1real - o)) by (nonlinear_arith);
}

/// A gated unit, over real numbers: every element is multiplied by what its gate lets through,
/// and its gradients are those of a product.
pub proof fn law_gated_units_are_products<T: Number>(
    reading: Reading<T>,
    op: SwigluOp<T>,
    grad: Seq<T>,
    i: int,
)
    requires
        reading.is_ring(),
        op.up@.len() == op.gates@.len() == grad.len(),
        0 <= i < grad.len(),
        (reading.finite)(op.up@[i]),
        (reading.finite)(grad[i]),
        (reading.finite)(op.gates@[i].through),
        (reading.finite)(op.gates@[i].slope),
    ensures
        reading.at(op.output(), i) == reading.at(op.up@, i) * reading.of(op.gates@[i].through),
        reading.at(op.up_gradient(grad), i) == reading.at(grad, i) * reading.of(
            op.gates@[i].through,
        ),
        reading.at(op.gate_gradient(grad), i) == reading.at(grad, i) * reading.at(op.up@, i)
            * reading.of(op.gates@[i].slope),
{
    assert(through(op.gates@)[i] == op.gates@[i].through);
    assert(slopes(op.gates@)[i] == op.gates@[i].slope);
}

} // verus!
