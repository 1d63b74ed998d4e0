//! Gradients, which add up where they meet.

use super::arith::Scalar;
use vstd::prelude::*;
use vstd::slice::slice_to_vec;

verus! {

/// The value of a gradient.
pub open spec fn value<T>(grad: Option<Vec<T>>) -> Option<Seq<T>> {
    match grad {
        Some(g) => Some(g@),
        None => None,
    }
}

/// The gradient `held` with another one added. A held gradient keeps its length.
pub open spec fn accumulated<T: Scalar>(held: Option<Seq<T>>, incoming: Seq<T>) -> Seq<T> {
    match held {
        Some(g) => Seq::new(
            g.len(),
            |i: int|
                if i < incoming.len() {
                    g[i].sum(incoming[i])
                } else {
                    g[i]
                },
        ),
        None => incoming,
    }
}

/// Adds a gradient to the one that is held, as far as both go; the first one is taken as it is.
pub fn accum_grad<T: Scalar>(held: &mut Option<Vec<T>>, incoming: &[T])
    ensures
        value(*final(held)) == Some(accumulated(value(*old(held)), incoming@)),
{
    let sum = match &*held {
        Some(g) => {
            let mut sum: Vec<T> = Vec::new();
            let mut i: usize = 0;
            let ghost whole = accumulated(Some(g@), incoming@);
            while i < g.len()
                invariant
                    i <= g@.len(),
                    whole == accumulated(Some(g@), incoming@),
                    sum@ == whole.take(i as int),
                decreases g@.len() - i,
            {
                if i < incoming.len() {
                    sum.push(g[i].plus(incoming[i]));
                } else {
                    sum.push(g[i]);
                }
                i = i + 1;
                assert(sum@ =~= whole.take(i as int));
            }
            assert(sum@ =~= whole);
            sum
        },
        None => slice_to_vec(incoming),
    };
    *held = Some(sum);
}

} // verus!
