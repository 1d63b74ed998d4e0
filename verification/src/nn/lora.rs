//! Low-rank adapters, and how they are folded into the weights that they adapt.

use crate::tensor::arith;
use crate::tensor::arith::Scalar;
use crate::tensor::linalg;
use crate::tensor::linalg::matmul;
use crate::tensor::ops;
use crate::tensor::reals;
use crate::tensor::reals::Reading;
use vstd::prelude::*;

verus! {

/// The shape of an adapter: it adds the product of an `out_features` by `rank` and a `rank` by
/// `in_features` matrix to weights of `out_features` rows.
#[derive(Debug, Clone, Copy, PartialEq, Eq, Structural)]
pub struct LoraShape {
    pub out_features: usize,
    pub in_features: usize,
    pub rank: usize,
}

impl LoraShape {
    /// The weights with the adapter folded in.
    pub open spec fn merged<T: Scalar>(
        &self,
        weight: Seq<T>,
        lora_a: Seq<T>,
        lora_b: Seq<T>,
        scaling: T,
    ) -> Seq<T> {
        arith::sums(
            weight,
            arith::scaled(
                linalg::matrix_product(
                    lora_b,
                    lora_a,
                    self.out_features,
                    self.rank,
                    self.in_features,
                ),
                scaling,
            ),
        )
    }

    /// Whether every weight gets something added, all of it can be counted, and what is added
    /// can be computed, if there is anything to add.
    pub open spec fn fits(&self, weight: nat, lora_a: nat, lora_b: nat) -> bool {
        &&& weight <= self.out_features * self.in_features <= usize::MAX
        &&& self.out_features > 0 && self.in_features > 0 ==> {
            &&& self.out_features * self.rank <= lora_b
            &&& self.rank * self.in_features <= lora_a
        }
    }

    /// Whether the shape goes with these numbers of elements.
    pub fn can_merge(&self, weight: usize, lora_a: usize, lora_b: usize) -> (yes: bool)
        ensures
            yes == self.fits(weight as nat, lora_a as nat, lora_b as nat),
    {
        let size: usize = match self.out_features.checked_mul(self.in_features) {
            Some(size) => size,
            None => {
                return false;
            },
        };
        if weight > size {
            return false;
        }
        if self.out_features == 0 || self.in_features == 0 {
            return true;
        }
        match (self.out_features.checked_mul(self.rank), self.rank.checked_mul(self.in_features)) {
            (Some(size_b), Some(size_a)) => size_b <= lora_b && size_a <= lora_a,
            _ => false,
        }
    }

    /// Folds an adapter into the weights.
    pub fn merge<T: Scalar>(&self, weight: &mut Vec<T>, lora_a: &[T], lora_b: &[T], scaling: T)
        requires
            self.fits(old(weight)@.len(), lora_a@.len(), lora_b@.len()),
        ensures
            final(weight)@ == self.merged(old(weight)@, lora_a@, lora_b@, scaling),
            final(weight)@.len() == old(weight)@.len(),
    {
        if self.out_features == 0 || self.in_features == 0 {
            assert(weight@.len() == 0) by (nonlinear_arith)
                requires
                    weight@.len() <= self.out_features * self.in_features,
                    self.out_features == 0 || self.in_features == 0,
            ;
            assert(weight@ =~= self.merged(weight@, lora_a@, lora_b@, scaling));
            return;
        }
        let product = matmul(lora_b, lora_a, self.out_features, self.rank, self.in_features);
        let added = arith::scale(product.as_slice(), scaling);
        let sum = arith::add(weight.as_slice(), added.as_slice());
        *weight = sum;
    }
}

/// Folding an adapter in, over real numbers: each weight grows by the scaling times the product of
/// its row of the one matrix with its column of the other.
pub proof fn law_folding_adds_the_scaled_product<T: Scalar>(
    reading: Reading<T>,
    shape: LoraShape,
    weight: Seq<T>,
    lora_a: Seq<T>,
    lora_b: Seq<T>,
    scaling: T,
    o: int,
    k: int,
)
    requires
        reading.is_ring(),
        reading.all_finite(weight),
        reading.all_finite(lora_a),
        reading.all_finite(lora_b),
        (reading.finite)(scaling),
        weight.len() == shape.out_features * shape.in_features,
        shape.fits(weight.len(), lora_a.len(), lora_b.len()),
        0 <= o < shape.out_features,
        0 <= k < shape.in_features,
    ensures
        shape.merged(weight, lora_a, lora_b, scaling).len() == weight.len(),
        reading.at(
            shape.merged(weight, lora_a, lora_b, scaling),
            o * shape.in_features + k,
        ) - reading.at(weight, o * shape.in_features + k) == reals::sum_to(
            shape.rank as nat,
            |p: int|
                reading.at(lora_b, o * shape.rank + p) * reading.at(
                    lora_a,
                    p * shape.in_features + k,
                ),
        ) * reading.of(scaling),
{
    linalg::law_products_weigh_rows_with_columns(
        reading,
        lora_b,
        lora_a,
        shape.out_features,
        shape.rank,
        shape.in_features,
        o,
        k,
    );
    ops::lemma_split_position(o, k, shape.out_features as int, shape.in_features as int);
    let q = o * shape.in_features + k;
    assert((reading.finite)(weight[q]));
}

} // verus!
