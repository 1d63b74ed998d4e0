//! A computation graph, through which gradients go back from a result to what it was made of.

use crate::tensor::grad_mode::{is_grad_enabled, GradMode};
use vstd::prelude::*;

verus! {

/// Gradients, which add up where paths meet.
pub trait Gradient: Sized {
    /// Both gradients together. A type outside of proofs need not define it.
    open spec fn plus(self, other: Self) -> Self {
        arbitrary()
    }

    /// Adds another gradient to this one.
    fn accumulate(&mut self, other: &Self)
        ensures
            *final(self) == old(self).plus(*other),
    ;

    /// The same gradient once more.
    fn copy(&self) -> (same: Self)
        ensures
            same == *self,
    ;
}

impl Gradient for u64 {
    open spec fn plus(self, other: Self) -> Self {
        self.wrapping_add(other)
    }

    fn accumulate(&mut self, other: &Self) {
        *self = self.wrapping_add(*other);
    }

    fn copy(&self) -> (same: Self) {
        *self
    }
}

/// An operation, seen from its result: what the gradient of the result means for the inputs.
pub trait Op<G> {
    /// The gradients of the inputs, in order; none for an input that has no influence. A type
    /// outside of proofs need not define it.
    open spec fn pulled(&self, grad_output: G) -> Seq<Option<G>> {
        arbitrary()
    }

    /// The gradients of the inputs.
    fn backward(&self, grad_output: &G) -> (grads: Vec<Option<G>>)
        ensures
            grads@ == self.pulled(*grad_output),
    ;
}

/// The sum of two values.
#[derive(Debug, Clone, Copy, PartialEq, Eq, Structural)]
pub struct AddOp;

impl<G: Gradient> Op<G> for AddOp {
    open spec fn pulled(&self, grad_output: G) -> Seq<Option<G>> {
        seq![Some(grad_output), Some(grad_output)]
    }

    fn backward(&self, grad_output: &G) -> (grads: Vec<Option<G>>) {
        let mut grads: Vec<Option<G>> = Vec::new();
        grads.push(Some(grad_output.copy()));
        grads.push(Some(grad_output.copy()));
        assert(grads@ =~= seq![Some(*grad_output), Some(*grad_output)]);
        grads
    }
}

/// How a value was made.
#[derive(Debug)]
pub struct Node<O> {
    pub op: O,
    pub inputs: Vec<usize>,
}

/// A value of the graph: how it was made, if it was not given, and whether it wants a
/// gradient.
#[derive(Debug)]
pub struct GraphValue<O> {
    pub creator: Option<Node<O>>,
    pub requires_grad: bool,
}

/// Values in the order in which they were made.
#[derive(Debug)]
pub struct Graph<O> {
    values: Vec<GraphValue<O>>,
}

/// Where the gradient `grad` of value `v` goes by the first `n` inputs of its operation: which
/// inputs, and with which gradients.
pub open spec fn sent<G, O: Op<G>>(values: Seq<GraphValue<O>>, v: int, grad: G, n: nat) -> Seq<
    (usize, G),
>
    decreases n,
{
    match values[v].creator {
        None => seq![],
        Some(node) => if n == 0 {
            seq![]
        } else {
            let before = sent(values, v, grad, (n - 1) as nat);
            match node.op.pulled(grad)[n - 1] {
                Some(g) => before.push((node.inputs@[n - 1], g)),
                None => before,
            }
        },
    }
}

/// The number of inputs that the operation of value `v` has gradients for.
pub open spec fn fan_in<G, O: Op<G>>(values: Seq<GraphValue<O>>, v: int, grad: G) -> nat {
    match values[v].creator {
        None => 0,
        Some(node) => if node.inputs@.len() < node.op.pulled(grad).len() {
            node.inputs@.len()
        } else {
            node.op.pulled(grad).len()
        },
    }
}

/// Where all gradients of a list go, in order.
pub open spec fn all_sent<G, O: Op<G>>(values: Seq<GraphValue<O>>, from: Seq<(usize, G)>) -> Seq<
    (usize, G),
>
    decreases from.len(),
{
    if from.len() == 0 {
        seq![]
    } else {
        let (v, grad) = from.last();
        all_sent(values, from.drop_last()) + sent(
            values,
            v as int,
            grad,
            fan_in(values, v as int, grad),
        )
    }
}

/// The gradients that arrive by paths of `k` operations.
pub open spec fn level<G, O: Op<G>>(
    values: Seq<GraphValue<O>>,
    root: usize,
    seed: G,
    k: nat,
) -> Seq<(usize, G)>
    decreases k,
{
    if k == 0 {
        seq![(root, seed)]
    } else {
        all_sent(values, level(values, root, seed, (k - 1) as nat))
    }
}

/// The gradients that arrive by paths of fewer than `k` operations, the shorter paths first.
pub open spec fn arrivals<G, O: Op<G>>(
    values: Seq<GraphValue<O>>,
    root: usize,
    seed: G,
    k: nat,
) -> Seq<(usize, G)>
    decreases k,
{
    if k == 0 {
        seq![]
    } else {
        arrivals(values, root, seed, (k - 1) as nat) + level(values, root, seed, (k - 1) as nat)
    }
}

/// What value `v` makes of the gradients that arrive: it adds them to the gradient that it
/// holds, in order, if it wants a gradient.
pub open spec fn gathered<G: Gradient, O>(
    values: Seq<GraphValue<O>>,
    held: Option<G>,
    arrived: Seq<(usize, G)>,
    v: int,
) -> Option<G>
    decreases arrived.len(),
{
    if arrived.len() == 0 {
        held
    } else {
        let before = gathered(values, held, arrived.drop_last(), v);
        let (at, grad) = arrived.last();
        if at == v && values[v].requires_grad {
            match before {
                None => Some(grad),
                Some(sum) => Some(sum.plus(grad)),
            }
        } else {
            before
        }
    }
}

/// The gradient of value `v`, which held `held` before: every path from the root to it
/// contributes once.
pub open spec fn gradient_on<G: Gradient, O: Op<G>>(
    values: Seq<GraphValue<O>>,
    held: Option<G>,
    root: usize,
    seed: G,
    v: int,
) -> Option<G> {
    gathered(values, held, arrivals(values, root, seed, (root + 1) as nat), v)
}

/// The gradient of value `v`, which held none before.
pub open spec fn gradient_of<G: Gradient, O: Op<G>>(
    values: Seq<GraphValue<O>>,
    root: usize,
    seed: G,
    v: int,
) -> Option<G> {
    gradient_on(values, None, root, seed, v)
}

impl<O> Graph<O> {
    /// The values.
    pub closed spec fn all(&self) -> Seq<GraphValue<O>> {
        self.values@
    }

    /// Every value was made of earlier ones.
    pub open spec fn well_formed(&self) -> bool {
        is_ordered(self.all())
    }

    /// A graph without values.
    pub fn new() -> (graph: Self)
        ensures
            graph.well_formed(),
            graph.all() == Seq::<GraphValue<O>>::empty(),
    {
        Graph { values: Vec::new() }
    }

    /// Adds a given value.
    pub fn leaf(&mut self, requires_grad: bool) -> (id: usize)
        requires
            old(self).well_formed(),
        ensures
            final(self).well_formed(),
            id == old(self).all().len(),
            final(self).all() == old(self).all().push(
                GraphValue { creator: None, requires_grad },
            ),
    {
        let id: usize = self.values.len();
        self.values.push(GraphValue { creator: None, requires_grad });
        id
    }

    /// Whether a value wants a gradient.
    pub fn requires_grad(&self, id: usize) -> (yes: bool)
        requires
            id < self.all().len(),
        ensures
            yes == self.all()[id as int].requires_grad,
    {
        self.values[id].requires_grad
    }

    /// Adds the result of an operation. It is recorded and wants a gradient if one of the inputs
    /// does and the mode says so; else it is a given value.
    pub fn apply(&mut self, mode: &GradMode, op: O, inputs: Vec<usize>) -> (id: usize)
        requires
            old(self).well_formed(),
            forall|i: int|
                0 <= i < inputs@.len() ==> #[trigger] inputs@[i] < old(self).all().len(),
        ensures
            final(self).well_formed(),
            id == old(self).all().len(),
            ({
                let wanted = mode.enabled && exists|i: int|
                    0 <= i < inputs@.len() && old(
                        self,
                    ).all()[#[trigger] inputs@[i] as int].requires_grad;
                final(self).all() == old(self).all().push(
                    GraphValue {
                        creator: if wanted {
                            Some(Node { op, inputs })
                        } else {
                            None
                        },
                        requires_grad: wanted,
                    },
                )
            }),
    {
        let id: usize = self.values.len();
        let mut wanted: bool = false;
        let mut i: usize = 0;
        while i < inputs.len()
            invariant
                i <= inputs@.len(),
                self.values@ == old(self).all(),
                forall|j: int|
                    0 <= j < inputs@.len() ==> #[trigger] inputs@[j] < self.values@.len(),
                wanted == (mode.enabled && exists|j: int|
                    0 <= j < i && self.values@[#[trigger] inputs@[j] as int].requires_grad),
            decreases inputs@.len() - i,
        {
            if is_grad_enabled(mode) && self.values[inputs[i]].requires_grad {
                wanted = true;
            }
            i = i + 1;
        }
        if wanted {
            self.values.push(
                GraphValue { creator: Some(Node { op, inputs }), requires_grad: true },
            );
        } else {
            self.values.push(GraphValue { creator: None, requires_grad: false });
        }
        id
    }

    /// Adds a value that was recorded before. Whether it wants a gradient is its own: an input
    /// may have stopped to want one since.
    pub fn record(&mut self, op: O, inputs: Vec<usize>, requires_grad: bool) -> (id: usize)
        requires
            old(self).well_formed(),
            forall|i: int|
                0 <= i < inputs@.len() ==> #[trigger] inputs@[i] < old(self).all().len(),
        ensures
            final(self).well_formed(),
            id == old(self).all().len(),
            final(self).all() == old(self).all().push(
                GraphValue { creator: Some(Node { op, inputs }), requires_grad },
            ),
    {
        let id: usize = self.values.len();
        self.values.push(GraphValue { creator: Some(Node { op, inputs }), requires_grad });
        id
    }
}

/// Whether every value was made of earlier ones.
pub open spec fn is_ordered<O>(values: Seq<GraphValue<O>>) -> bool {
    forall|v: int| #![trigger values[v]]
        0 <= v < values.len() ==> (values[v].creator matches Some(node) ==> forall|i: int|
            0 <= i < node.inputs@.len() ==> #[trigger] node.inputs@[i] < v)
}

/// Gradients go to earlier values only.
proof fn lemma_sent_is_earlier<G, O: Op<G>>(
    values: Seq<GraphValue<O>>,
    v: int,
    grad: G,
    n: nat,
)
    requires
        is_ordered(values),
        0 <= v < values.len(),
        n <= fan_in(values, v, grad),
    ensures
        forall|i: int|
            0 <= i < sent(values, v, grad, n).len() ==> (#[trigger] sent(values, v, grad, n)[i]).0
                < v,
    decreases n,
{
    if n > 0 && values[v].creator is Some {
        lemma_sent_is_earlier(values, v, grad, (n - 1) as nat);
        let node = values[v].creator->0;
        assert(node.inputs@[n - 1] < v);
        let fewer = sent(values, v, grad, (n - 1) as nat);
        let whole = sent(values, v, grad, n);
        assert forall|i: int| 0 <= i < whole.len() implies (#[trigger] whole[i]).0 < v by {
            if i < fewer.len() {
                assert(whole[i] == fewer[i]);
            }
        }
    }
}

/// Adds a gradient to a value that wants one.
fn gather<G: Gradient>(slot: &mut Option<G>, grad: &G)
    ensures
        *final(slot) == match *old(slot) {
            None => Some(*grad),
            Some(sum) => Some(sum.plus(*grad)),
        },
{
    let held: Option<G> = slot.take();
    match held {
        None => {
            *slot = Some(grad.copy());
        },
        Some(sum) => {
            let mut sum: G = sum;
            sum.accumulate(grad);
            *slot = Some(sum);
        },
    }
}

impl<O> Graph<O> {
    /// Sends the gradient of one value to its inputs.
    fn send<G: Gradient>(
        &self,
        v: usize,
        grad: &G,
        grads: &mut Vec<Option<G>>,
        next: &mut Vec<(usize, G)>,
        held: Ghost<Seq<Option<G>>>,
        arrived: Ghost<Seq<(usize, G)>>,
    ) where O: Op<G>
        requires
            self.well_formed(),
            v < self.all().len(),
            old(grads)@.len() == self.all().len(),
            forall|x: int|
                0 <= x < self.all().len() ==> #[trigger] old(grads)@[x] == gathered(
                    self.all(),
                    held@[x],
                    arrived@ + old(next)@,
                    x,
                ),
        ensures
            final(grads)@.len() == self.all().len(),
            final(next)@ == old(next)@ + sent(
                self.all(),
                v as int,
                *grad,
                fan_in(self.all(), v as int, *grad),
            ),
            forall|x: int|
                0 <= x < self.all().len() ==> #[trigger] final(grads)@[x] == gathered(
                    self.all(),
                    held@[x],
                    arrived@ + final(next)@,
                    x,
                ),
    {
        let ghost values = self.values@;
        let ghost start = next@;
        match &self.values[v].creator {
            None => {
                assert(next@ =~= start + sent(values, v as int, *grad, 0));
            },
            Some(node) => {
                let pulled: Vec<Option<G>> = node.op.backward(grad);
                let ghost all_pulled = pulled@;
                let mut rest: Vec<Option<G>> = pulled;
                let mut i: usize = 0;
                assert(next@ =~= start + sent(values, v as int, *grad, 0));
                while i < node.inputs.len() && rest.len() > 0
                    invariant
                        values == self.values@,
                        self.well_formed(),
                        v < values.len(),
                        values[v as int].creator == Some(*node),
                        all_pulled == node.op.pulled(*grad),
                        i <= node.inputs@.len(),
                        i <= all_pulled.len(),
                        rest@ == all_pulled.skip(i as int),
                        grads@.len() == values.len(),
                        next@ == start + sent(values, v as int, *grad, i as nat),
                        forall|x: int|
                            0 <= x < values.len() ==> #[trigger] grads@[x] == gathered(
                                values,
                                held@[x],
                                arrived@ + next@,
                                x,
                            ),
                    decreases node.inputs@.len() - i,
                {
                    let input: usize = node.inputs[i];
                    assert(input < v);
                    let ghost known = next@;
                    let ghost earlier = grads@;
                    let pulled_one: Option<G> = rest.remove(0);
                    assert(pulled_one == all_pulled[i as int]);
                    if let Some(g) = pulled_one {
                        if self.values[input].requires_grad {
                            gather(&mut grads[input], &g);
                        }
                        next.push((input, g));
                        proof {
                            let longer = arrived@ + next@;
                            assert(longer.drop_last() =~= arrived@ + known);
                            assert(longer.last() == (input, g));
                            assert(next@ =~= start + sent(values, v as int, *grad, (i + 1) as nat));
                            assert forall|x: int| 0 <= x < values.len() implies #[trigger] grads@[x]
                                == gathered(values, held@[x], longer, x) by {
                                assert(earlier[x] == gathered(
                                    values,
                                    held@[x],
                                    arrived@ + known,
                                    x,
                                ));
                            }
                        }
                    } else {
                        assert(next@ =~= start + sent(values, v as int, *grad, (i + 1) as nat));
                    }
                    assert(rest@ =~= all_pulled.skip(i + 1));
                    i = i + 1;
                }
                assert(i == fan_in(values, v as int, *grad));
            },
        }
    }

    /// Sends the gradient `seed` of the value `root` back through the graph. Returned are the
    /// gradients of all values, as far as they want one and are reached.
    pub fn backward_with_grad<G: Gradient>(&self, root: usize, seed: G) -> (grads: Vec<
        Option<G>,
    >) where O: Op<G>
        requires
            self.well_formed(),
            root < self.all().len(),
        ensures
            grads@.len() == self.all().len(),
            forall|v: int|
                0 <= v < self.all().len() ==> #[trigger] grads@[v] == gradient_of(
                    self.all(),
                    root,
                    seed,
                    v,
                ),
    {
        let mut grads: Vec<Option<G>> = Vec::new();
        let mut n: usize = 0;
        while n < self.values.len()
            invariant
                n <= self.values@.len(),
                grads@.len() == n,
                forall|v: int| 0 <= v < n ==> #[trigger] grads@[v] == None::<G>,
            decreases self.values@.len() - n,
        {
            grads.push(None);
            n = n + 1;
        }
        let ghost nothing = grads@;
        self.accumulate_grads(root, seed, &mut grads);
        assert forall|v: int| 0 <= v < self.all().len() implies #[trigger] grads@[v]
            == gradient_of(self.all(), root, seed, v) by {
            assert(nothing[v] == None::<G>);
        }
        grads
    }

    /// Sends the gradient `seed` of the value `root` back through the graph, and adds what
    /// arrives to the gradients that the values hold.
    pub fn accumulate_grads<G: Gradient>(
        &self,
        root: usize,
        seed: G,
        grads: &mut Vec<Option<G>>,
    ) where O: Op<G>
        requires
            self.well_formed(),
            root < self.all().len(),
            old(grads)@.len() == self.all().len(),
        ensures
            final(grads)@.len() == self.all().len(),
            forall|v: int|
                0 <= v < self.all().len() ==> #[trigger] final(grads)@[v] == gradient_on(
                    self.all(),
                    old(grads)@[v],
                    root,
                    seed,
                    v,
                ),
    {
        let ghost values = self.values@;
        let ghost held = grads@;
        if self.values[root].requires_grad {
            gather(&mut grads[root], &seed);
        }
        let mut current: Vec<(usize, G)> = Vec::new();
        current.push((root, seed));
        let mut k: usize = 0;
        proof {
            let one = arrivals(values, root, seed, 1);
            assert(one =~= seq![(root, seed)]) by {
                assert(arrivals(values, root, seed, 0) =~= Seq::<(usize, G)>::empty());
            }
            assert(one.drop_last() =~= Seq::<(usize, G)>::empty());
            assert(current@ =~= level(values, root, seed, 0));
            assert forall|v: int| 0 <= v < values.len() implies #[trigger] grads@[v] == gathered(
                values,
                held[v],
                one,
                v,
            ) by {
                assert(gathered(values, held[v], one.drop_last(), v) == held[v]);
                assert(one.last() == (root, seed));
            }
        }
        while k < root
            invariant
                values == self.values@,
                self.well_formed(),
                root < values.len(),
                k <= root,
                grads@.len() == values.len(),
                current@ == level(values, root, seed, k as nat),
                forall|i: int| 0 <= i < current@.len() ==> (#[trigger] current@[i]).0 <= root - k,
                forall|v: int|
                    0 <= v < values.len() ==> #[trigger] grads@[v] == gathered(
                        values,
                        held[v],
                        arrivals(values, root, seed, (k + 1) as nat),
                        v,
                    ),
            decreases root - k,
        {
            let ghost arrived = arrivals(values, root, seed, (k + 1) as nat);
            let mut next: Vec<(usize, G)> = Vec::new();
            let mut i: usize = 0;
            proof {
                assert(arrived + next@ =~= arrived);
                assert(current@.take(0) =~= Seq::<(usize, G)>::empty());
                assert(next@ =~= all_sent(values, current@.take(0)));
            }
            while i < current.len()
                invariant
                    values == self.values@,
                    self.well_formed(),
                    root < values.len(),
                    k < root,
                    i <= current@.len(),
                    grads@.len() == values.len(),
                    next@ == all_sent(values, current@.take(i as int)),
                    forall|j: int|
                        0 <= j < current@.len() ==> (#[trigger] current@[j]).0 <= root - k,
                    forall|j: int| 0 <= j < next@.len() ==> (#[trigger] next@[j]).0 < root - k,
                    forall|v: int|
                        0 <= v < values.len() ==> #[trigger] grads@[v] == gathered(
                            values,
                            held[v],
                            arrived + next@,
                            v,
                        ),
                decreases current@.len() - i,
            {
                let ghost known = next@;
                let ghost (v, grad) = current@[i as int];
                assert(v <= root - k);
                self.send(
                    current[i].0,
                    &current[i].1,
                    grads,
                    &mut next,
                    Ghost(held),
                    Ghost(arrived),
                );
                proof {
                    let more = sent(values, v as int, grad, fan_in(values, v as int, grad));
                    lemma_sent_is_earlier(values, v as int, grad, fan_in(values, v as int, grad));
                    assert(current@.take(i + 1).drop_last() =~= current@.take(i as int));
                    assert(current@.take(i + 1).last() == current@[i as int]);
                    assert forall|j: int| 0 <= j < next@.len() implies (#[trigger] next@[j]).0
                        < root - k by {
                        if j >= known.len() {
                            assert(next@[j] == more[j - known.len()]);
                        } else {
                            assert(next@[j] == known[j]);
                        }
                    }
                }
                i = i + 1;
            }
            proof {
                assert(current@.take(i as int) =~= current@);
                assert(next@ == level(values, root, seed, (k + 1) as nat));
                assert(arrivals(values, root, seed, (k + 2) as nat) =~= arrived + next@);
            }
            current = next;
            k = k + 1;
        }
    }
}

/// What is sent goes to earlier values than those that it is sent from.
proof fn lemma_all_sent_is_earlier<G, O: Op<G>>(
    values: Seq<GraphValue<O>>,
    from: Seq<(usize, G)>,
    bound: int,
)
    requires
        is_ordered(values),
        bound <= values.len(),
        forall|i: int| 0 <= i < from.len() ==> (#[trigger] from[i]).0 < bound,
    ensures
        forall|i: int|
            0 <= i < all_sent(values, from).len() ==> (#[trigger] all_sent(values, from)[i]).0
                < bound - 1,
    decreases from.len(),
{
    if from.len() > 0 {
        let rest = from.drop_last();
        assert forall|i: int| 0 <= i < rest.len() implies (#[trigger] rest[i]).0 < bound by {
            assert(from[i].0 < bound);
        }
        lemma_all_sent_is_earlier(values, rest, bound);
        let (v, grad) = from.last();
        assert(from[from.len() - 1].0 < bound);
        lemma_sent_is_earlier(values, v as int, grad, fan_in(values, v as int, grad));
        let before = all_sent(values, rest);
        let last = sent(values, v as int, grad, fan_in(values, v as int, grad));
        let whole = all_sent(values, from);
        assert(whole == before + last);
        assert forall|i: int| 0 <= i < whole.len() implies (#[trigger] whole[i]).0 < bound
            - 1 by {
            if i < before.len() {
                assert(whole[i] == before[i]);
            } else {
                assert(whole[i] == last[i - before.len()]);
            }
        }
    }
}

/// After `k` steps gradients have gone back by `k` values at least.
proof fn lemma_levels_go_back<G, O: Op<G>>(
    values: Seq<GraphValue<O>>,
    root: usize,
    seed: G,
    k: nat,
)
    requires
        is_ordered(values),
        root < values.len(),
    ensures
        forall|i: int|
            0 <= i < level(values, root, seed, k).len() ==> (#[trigger] level(
                values,
                root,
                seed,
                k,
            )[i]).0 + k <= root,
    decreases k,
{
    if k > 0 {
        lemma_levels_go_back(values, root, seed, (k - 1) as nat);
        lemma_all_sent_is_earlier(
            values,
            level(values, root, seed, (k - 1) as nat),
            root - k + 2,
        );
    }
}

/// Gradients that arrive elsewhere make no difference.
proof fn lemma_arrived_elsewhere<G: Gradient, O>(
    values: Seq<GraphValue<O>>,
    held: Option<G>,
    arrived: Seq<(usize, G)>,
    more: Seq<(usize, G)>,
    v: int,
)
    requires
        forall|i: int| 0 <= i < more.len() ==> (#[trigger] more[i]).0 != v,
    ensures
        gathered(values, held, arrived + more, v) == gathered(values, held, arrived, v),
    decreases more.len(),
{
    if more.len() == 0 {
        assert(arrived + more =~= arrived);
    } else {
        let fewer = more.drop_last();
        assert forall|i: int| 0 <= i < fewer.len() implies (#[trigger] fewer[i]).0 != v by {
            assert(more[i].0 != v);
        }
        lemma_arrived_elsewhere(values, held, arrived, fewer, v);
        assert((arrived + more).drop_last() =~= arrived + fewer);
        assert(more[more.len() - 1].0 != v);
    }
}

/// After the first step nothing arrives at the result or later.
proof fn lemma_arrivals_below<G: Gradient, O: Op<G>>(
    values: Seq<GraphValue<O>>,
    held: Option<G>,
    root: usize,
    seed: G,
    k: nat,
    v: int,
)
    requires
        is_ordered(values),
        root < values.len(),
        root <= v,
        k >= 1,
    ensures
        gathered(values, held, arrivals(values, root, seed, k), v) == gathered(
            values,
            held,
            seq![(root, seed)],
            v,
        ),
    decreases k,
{
    let now = arrivals(values, root, seed, k);
    let before = arrivals(values, root, seed, (k - 1) as nat);
    let last = level(values, root, seed, (k - 1) as nat);
    if k == 1 {
        assert(now =~= seq![(root, seed)]);
    } else {
        lemma_arrivals_below(values, held, root, seed, (k - 1) as nat, v);
        lemma_levels_go_back(values, root, seed, (k - 1) as nat);
        lemma_arrived_elsewhere(values, held, before, last, v);
    }
}

/// A result that wants a gradient gets the seed for it, and nothing else.
pub proof fn law_the_result_has_the_seed<G: Gradient, O: Op<G>>(
    values: Seq<GraphValue<O>>,
    held: Option<G>,
    root: usize,
    seed: G,
)
    requires
        is_ordered(values),
        root < values.len(),
        values[root as int].requires_grad,
    ensures
        gradient_on(values, held, root, seed, root as int) == match held {
            None => Some(seed),
            Some(sum) => Some(sum.plus(seed)),
        },
        gradient_of(values, root, seed, root as int) == Some(seed),
{
    lemma_arrivals_below(values, held, root, seed, (root + 1) as nat, root as int);
    lemma_arrivals_below(values, None, root, seed, (root + 1) as nat, root as int);
    let start = seq![(root, seed)];
    assert(start.drop_last() =~= Seq::<(usize, G)>::empty());
    assert(gathered(values, held, start.drop_last(), root as int) == held);
    assert(gathered(values, None::<G>, start.drop_last(), root as int) == None::<G>);
}

/// Values that came after the result have no part in it: their gradients stay as they are.
pub proof fn law_later_values_have_no_part<G: Gradient, O: Op<G>>(
    values: Seq<GraphValue<O>>,
    held: Option<G>,
    root: usize,
    seed: G,
    v: int,
)
    requires
        is_ordered(values),
        root < v < values.len(),
    ensures
        gradient_on(values, held, root, seed, v) == held,
{
    lemma_arrivals_below(values, held, root, seed, (root + 1) as nat, v);
    let start = seq![(root, seed)];
    assert(start.drop_last() =~= Seq::<(usize, G)>::empty());
    assert(gathered(values, held, start.drop_last(), v) == held);
}

proof fn lemma_unwanted_stays_out<G: Gradient, O>(
    values: Seq<GraphValue<O>>,
    held: Option<G>,
    arrived: Seq<(usize, G)>,
    v: int,
)
    requires
        !values[v].requires_grad,
    ensures
        gathered(values, held, arrived, v) == held,
    decreases arrived.len(),
{
    if arrived.len() > 0 {
        lemma_unwanted_stays_out(values, held, arrived.drop_last(), v);
    }
}

/// Values that want no gradient get none.
pub proof fn law_unwanted_gradients_stay_out<G: Gradient, O: Op<G>>(
    values: Seq<GraphValue<O>>,
    held: Option<G>,
    root: usize,
    seed: G,
    v: int,
)
    requires
        0 <= v < values.len(),
        !values[v].requires_grad,
    ensures
        gradient_on(values, held, root, seed, v) == held,
{
    lemma_unwanted_stays_out(values, held, arrivals(values, root, seed, (root + 1) as nat), v);
}

proof fn lemma_gathered_twice<G: Gradient, O>(
    values: Seq<GraphValue<O>>,
    held: Option<G>,
    first: Seq<(usize, G)>,
    second: Seq<(usize, G)>,
    v: int,
)
    ensures
        gathered(values, gathered(values, held, first, v), second, v) == gathered(
            values,
            held,
            first + second,
            v,
        ),
    decreases second.len(),
{
    if second.len() == 0 {
        assert(first + second =~= first);
    } else {
        lemma_gathered_twice(values, held, first, second.drop_last(), v);
        assert((first + second).drop_last() =~= first + second.drop_last());
    }
}

/// Gradients of several results add up: sent back one after the other, they leave what all
/// arrivals together leave, those of the first result first.
pub proof fn law_gradients_of_two_results_add_up<G: Gradient, O: Op<G>>(
    values: Seq<GraphValue<O>>,
    held: Option<G>,
    first: (usize, G),
    second: (usize, G),
    v: int,
)
    ensures
        gradient_on(
            values,
            gradient_on(values, held, first.0, first.1, v),
            second.0,
            second.1,
            v,
        ) == gathered(
            values,
            held,
            arrivals(values, first.0, first.1, (first.0 + 1) as nat) + arrivals(
                values,
                second.0,
                second.1,
                (second.0 + 1) as nat,
            ),
            v,
        ),
{
    lemma_gathered_twice(
        values,
        held,
        arrivals(values, first.0, first.1, (first.0 + 1) as nat),
        arrivals(values, second.0, second.1, (second.0 + 1) as nat),
        v,
    );
}

} // verus!
