//! Shapes, strides and positions.

use super::dtype;
use super::dtype::{DType, Device};
use crate::text;
use crate::text::{push_decimal, push_text};
use vstd::prelude::*;
use vstd::slice::slice_to_vec;

verus! {

/// What can be wrong with tensors.
#[derive(Debug, Clone, PartialEq, Eq)]
pub enum TensorError {
    ShapeMismatch { expected: Vec<usize>, got: Vec<usize> },
    DeviceMismatch { expected: Device, got: Device },
    DTypeMismatch { expected: DType, got: DType },
    InvalidShape(String),
    LockPoisoned,
    DeviceError(String),
}

/// The text of a list of numbers, without the brackets.
pub open spec fn numbers_text(s: Seq<usize>) -> Seq<char>
    decreases s.len(),
{
    if s.len() == 0 {
        seq![]
    } else if s.len() == 1 {
        text::decimal(s[0] as nat)
    } else {
        numbers_text(s.drop_last()) + ", "@ + text::decimal(s.last() as nat)
    }
}

/// The text of a shape: its numbers in brackets.
pub open spec fn shape_text(s: Seq<usize>) -> Seq<char> {
    "["@ + numbers_text(s) + "]"@
}

/// The text of a fault.
pub open spec fn tensor_fault_text(e: TensorError) -> Seq<char> {
    match e {
        TensorError::ShapeMismatch { expected, got } => "shape mismatch: expected "@ + shape_text(
            expected@,
        ) + ", got "@ + shape_text(got@),
        TensorError::DeviceMismatch { expected, got } => "device mismatch: expected "@
            + dtype::place_text(expected) + ", got "@ + dtype::place_text(got),
        TensorError::DTypeMismatch { expected, got } => "dtype mismatch: expected "@
            + dtype::dtype_name(expected) + ", got "@ + dtype::dtype_name(got),
        TensorError::InvalidShape(why) => "invalid shape: "@ + why@,
        TensorError::LockPoisoned => "lock poisoned"@,
        TensorError::DeviceError(why) => "device storage error: "@ + why@,
    }
}

/// Appends the text of a shape.
pub fn push_shape(out: &mut String, shape: &Vec<usize>)
    ensures
        final(out)@ == old(out)@ + shape_text(shape@),
{
    push_text(out, "[");
    let ghost open = out@;
    let mut i: usize = 0;
    assert(numbers_text(shape@.take(0)) =~= seq![]);
    assert(open + seq![] =~= open);
    while i < shape.len()
        invariant
            i <= shape@.len(),
            out@ == open + numbers_text(shape@.take(i as int)),
        decreases shape@.len() - i,
    {
        let ghost before = numbers_text(shape@.take(i as int));
        assert(shape@.take(i + 1).drop_last() =~= shape@.take(i as int));
        if i > 0 {
            push_text(out, ", ");
        }
        push_decimal(out, shape[i] as u64);
        proof {
            let number = text::decimal(shape@[i as int] as nat);
            assert(open + before + ", "@ + number =~= open + (before + ", "@ + number));
            assert(i == 0 ==> open + before + number =~= open + number);
        }
        i = i + 1;
    }
    assert(shape@.take(i as int) =~= shape@);
    push_text(out, "]");
    proof {
        let numbers = numbers_text(shape@);
        assert(old(out)@ + "["@ + numbers + "]"@ =~= old(out)@ + ("["@ + numbers + "]"@));
    }
}

impl TensorError {
    /// The text of this fault.
    pub fn message(&self) -> (shown: String)
        ensures
            shown@ == tensor_fault_text(*self),
    {
        match self {
            TensorError::ShapeMismatch { expected, got } => {
                let mut out = "shape mismatch: expected ".to_owned();
                push_shape(&mut out, expected);
                push_text(&mut out, ", got ");
                push_shape(&mut out, got);
                out
            },
            TensorError::DeviceMismatch { expected, got } => {
                let mut out = "device mismatch: expected ".to_owned();
                expected.push_name(&mut out);
                push_text(&mut out, ", got ");
                got.push_name(&mut out);
                out
            },
            TensorError::DTypeMismatch { expected, got } => {
                let mut out = "dtype mismatch: expected ".to_owned();
                push_text(&mut out, expected.name());
                push_text(&mut out, ", got ");
                push_text(&mut out, got.name());
                out
            },
            TensorError::InvalidShape(why) => {
                let mut out = "invalid shape: ".to_owned();
                push_text(&mut out, why.as_str());
                out
            },
            TensorError::LockPoisoned => "lock poisoned".to_owned(),
            TensorError::DeviceError(why) => {
                let mut out = "device storage error: ".to_owned();
                push_text(&mut out, why.as_str());
                out
            },
        }
    }
}

/// The product of all dimensions: how many elements a shape has.
pub open spec fn volume(shape: Seq<usize>) -> nat
    decreases shape.len(),
{
    if shape.len() == 0 {
        1
    } else {
        shape[0] as nat * volume(shape.skip(1))
    }
}

/// Whether the strides of a shape can be computed: the volume behind every dimension but the
/// first fits.
pub open spec fn strides_fit(shape: Seq<usize>) -> bool {
    forall|i: int| 1 <= i <= shape.len() ==> #[trigger] volume(shape.skip(i)) <= usize::MAX
}

/// The strides of a shape whose last dimension varies fastest: how many elements lie behind
/// each dimension.
pub open spec fn row_major(shape: Seq<usize>) -> Seq<usize> {
    Seq::new(shape.len(), |i: int| volume(shape.skip(i + 1)) as usize)
}

/// Computes the strides of a shape.
pub fn compute_strides(shape: &[usize]) -> (strides: Vec<usize>)
    requires
        strides_fit(shape@),
    ensures
        strides@ == row_major(shape@),
{
    let n: usize = shape.len();
    let mut strides: Vec<usize> = vec![1usize; n];
    if n == 0 {
        assert(strides@ =~= row_major(shape@));
        return strides;
    }
    assert(shape@.skip(n as int) =~= seq![]);
    let mut i: usize = n - 1;
    while i > 0
        invariant
            i < n == shape@.len() == strides@.len(),
            strides_fit(shape@),
            forall|j: int| i <= j < n ==> strides@[j] == volume(shape@.skip(j + 1)),
        decreases i,
    {
        proof {
            assert(shape@.skip(i as int).skip(1) =~= shape@.skip(i + 1));
            assert(volume(shape@.skip(i as int)) == shape@[i as int] as nat * volume(
                shape@.skip(i + 1),
            ));
            assert(strides@[i as int] * shape@[i as int] == shape@[i as int] * strides@[i as int])
                by (nonlinear_arith);
        }
        let stride: usize = strides[i] * shape[i];
        strides.set(i - 1, stride);
        i = i - 1;
    }
    assert(strides@ =~= row_major(shape@));
    strides
}

/// Dimension `i` of a shape counted from the end; one beyond the front.
pub open spec fn from_end(shape: Seq<usize>, i: int) -> usize {
    if i < shape.len() {
        shape[shape.len() - 1 - i]
    } else {
        1
    }
}

/// The number of dimensions that two shapes have together.
pub open spec fn common_rank(a: Seq<usize>, b: Seq<usize>) -> nat {
    if a.len() > b.len() {
        a.len()
    } else {
        b.len()
    }
}

/// Whether two dimensions go together: they are equal, or one of them is one.
pub open spec fn dims_agree(x: usize, y: usize) -> bool {
    x == y || x == 1 || y == 1
}

/// Whether two shapes go together, dimension by dimension from the end.
pub open spec fn shapes_agree(a: Seq<usize>, b: Seq<usize>) -> bool {
    forall|i: int|
        0 <= i < common_rank(a, b) ==> dims_agree(#[trigger] from_end(a, i), from_end(b, i))
}

/// The shape that two shapes have together: the greater rank, and in each dimension the one
/// that is not one.
pub open spec fn common_shape(a: Seq<usize>, b: Seq<usize>) -> Seq<usize> {
    let rank = common_rank(a, b);
    Seq::new(
        rank,
        |k: int| {
            let x = from_end(a, rank - 1 - k);
            let y = from_end(b, rank - 1 - k);
            if x == 1 {
                y
            } else {
                x
            }
        },
    )
}

/// Reads a dimension counted from the end.
fn dim_from_end(shape: &[usize], i: usize) -> (dim: usize)
    ensures
        dim == from_end(shape@, i as int),
{
    if i < shape.len() {
        shape[shape.len() - 1 - i]
    } else {
        1
    }
}

/// The shape that two shapes have together, aligned at their last dimensions.
pub fn broadcast_shape(a: &[usize], b: &[usize]) -> (result: Result<Vec<usize>, TensorError>)
    ensures
        result is Ok <==> shapes_agree(a@, b@),
        result matches Ok(shape) ==> shape@ == common_shape(a@, b@),
        result matches Err(e) ==> (e matches TensorError::ShapeMismatch { expected, got }
            && expected@ == a@ && got@ == b@),
{
    let rank: usize = if a.len() > b.len() { a.len() } else { b.len() };
    let mut shape: Vec<usize> = vec![1usize; rank];
    let mut i: usize = 0;
    while i < rank
        invariant
            i <= rank == common_rank(a@, b@) == shape@.len(),
            forall|j: int|
                0 <= j < i ==> dims_agree(#[trigger] from_end(a@, j), from_end(b@, j)),
            forall|k: int| rank - i <= k < rank ==> shape@[k] == common_shape(a@, b@)[k],
        decreases rank - i,
    {
        let x: usize = dim_from_end(a, i);
        let y: usize = dim_from_end(b, i);
        if x == y || y == 1 {
            shape.set(rank - 1 - i, x);
        } else if x == 1 {
            shape.set(rank - 1 - i, y);
        } else {
            assert(!dims_agree(from_end(a@, i as int), from_end(b@, i as int)));
            return Err(
                TensorError::ShapeMismatch { expected: slice_to_vec(a), got: slice_to_vec(b) },
            );
        }
        i = i + 1;
    }
    assert(shape@ =~= common_shape(a@, b@));
    Ok(shape)
}

/// Whether two shapes go together.
pub fn can_broadcast(a: &[usize], b: &[usize]) -> (yes: bool)
    ensures
        yes == shapes_agree(a@, b@),
{
    broadcast_shape(a, b).is_ok()
}

/// The order of two shapes does not matter.
pub proof fn law_broadcast_is_symmetric(a: Seq<usize>, b: Seq<usize>)
    ensures
        shapes_agree(a, b) == shapes_agree(b, a),
        shapes_agree(a, b) ==> common_shape(a, b) == common_shape(b, a),
{
    if shapes_agree(a, b) {
        assert forall|i: int| 0 <= i < common_rank(b, a) implies dims_agree(
            #[trigger] from_end(b, i),
            from_end(a, i),
        ) by {
            assert(dims_agree(from_end(a, i), from_end(b, i)));
        }
        assert forall|k: int| 0 <= k < common_rank(a, b) implies common_shape(a, b)[k]
            == common_shape(b, a)[k] by {
            assert(dims_agree(
                from_end(a, common_rank(a, b) - 1 - k),
                from_end(b, common_rank(a, b) - 1 - k),
            ));
        }
        assert(common_shape(a, b) =~= common_shape(b, a));
    }
    if shapes_agree(b, a) {
        assert forall|i: int| 0 <= i < common_rank(a, b) implies dims_agree(
            #[trigger] from_end(a, i),
            from_end(b, i),
        ) by {
            assert(dims_agree(from_end(b, i), from_end(a, i)));
        }
    }
}

/// A shape goes together with itself and with the scalar shape. It does not change by itself, nor,
/// if it has dimensions, by the scalar shape.
pub proof fn law_broadcast_is_neutral(a: Seq<usize>)
    ensures
        shapes_agree(a, a) && common_shape(a, a) == a,
        shapes_agree(a, seq![1usize]),
        a.len() > 0 ==> common_shape(a, seq![1usize]) == a,
{
    assert(common_shape(a, a) =~= a);
    if a.len() > 0 {
        assert(common_shape(a, seq![1usize]) =~= a);
    }
}

/// A shape goes together with the common shape of itself and another, which absorbs it.
pub proof fn law_broadcast_absorbs(a: Seq<usize>, b: Seq<usize>)
    requires
        shapes_agree(a, b),
    ensures
        shapes_agree(a, common_shape(a, b)),
        common_shape(a, common_shape(a, b)) == common_shape(a, b),
{
    let c = common_shape(a, b);
    assert forall|i: int| 0 <= i < common_rank(a, c) implies {
        &&& dims_agree(#[trigger] from_end(a, i), from_end(c, i))
        &&& (from_end(a, i) == 1 || from_end(c, i) == from_end(a, i))
    } by {
        assert(dims_agree(from_end(a, i), from_end(b, i)));
    }
    assert forall|k: int| 0 <= k < c.len() implies common_shape(a, c)[k] == c[k] by {
        let i = c.len() - 1 - k;
        assert(dims_agree(from_end(a, i), from_end(c, i)));
        assert(dims_agree(from_end(a, i), from_end(b, i)));
    }
    assert(common_shape(a, c) =~= c);
}

/// The coordinates of element `flat`, counted with the last dimension fastest. Dimensions
/// with nothing behind them get the coordinate zero.
pub open spec fn coordinates(flat: nat, shape: Seq<usize>) -> Seq<usize>
    decreases shape.len(),
{
    if shape.len() == 0 {
        seq![]
    } else {
        let stride = volume(shape.skip(1));
        if stride == 0 {
            seq![0usize] + coordinates(flat, shape.skip(1))
        } else {
            seq![(flat / stride) as usize] + coordinates(flat % stride, shape.skip(1))
        }
    }
}

/// The position of coordinates under strides: their products added up.
pub open spec fn dot(coords: Seq<usize>, strides: Seq<usize>) -> nat
    decreases coords.len(),
{
    if coords.len() == 0 || strides.len() == 0 {
        0
    } else {
        coords[0] as nat * strides[0] as nat + dot(coords.skip(1), strides.skip(1))
    }
}

/// Computes the coordinates of an element.
pub fn unravel_index(flat_idx: usize, shape: &[usize]) -> (coords: Vec<usize>)
    requires
        strides_fit(shape@),
    ensures
        coords@ == coordinates(flat_idx as nat, shape@),
{
    let strides: Vec<usize> = compute_strides(shape);
    let n: usize = shape.len();
    let mut coords: Vec<usize> = Vec::new();
    let mut rest: usize = flat_idx;
    let mut i: usize = 0;
    assert(shape@.skip(0) =~= shape@);
    assert(coords@ + coordinates(flat_idx as nat, shape@) =~= coordinates(
        flat_idx as nat,
        shape@,
    ));
    while i < n
        invariant
            i <= n == shape@.len() == strides@.len(),
            strides_fit(shape@),
            strides@ == row_major(shape@),
            coords@ + coordinates(rest as nat, shape@.skip(i as int)) == coordinates(
                flat_idx as nat,
                shape@,
            ),
        decreases n - i,
    {
        let stride: usize = strides[i];
        let ghost before = coords@;
        proof {
            assert(shape@.skip(i as int).skip(1) =~= shape@.skip(i + 1));
            assert(stride == volume(shape@.skip(i + 1)));
        }
        if stride == 0 {
            coords.push(0);
            proof {
                let tail = coordinates(rest as nat, shape@.skip(i + 1));
                assert(before + (seq![0usize] + tail) =~= coords@ + tail);
            }
        } else {
            coords.push(rest / stride);
            let next: usize = rest % stride;
            proof {
                let tail = coordinates(next as nat, shape@.skip(i + 1));
                assert(before + (seq![(rest / stride) as usize] + tail) =~= coords@ + tail);
            }
            rest = next;
        }
        i = i + 1;
    }
    assert(coords@ + coordinates(rest as nat, shape@.skip(i as int)) =~= coords@);
    coords
}

/// Whether coordinates lie inside a shape.
pub open spec fn inside(coords: Seq<usize>, shape: Seq<usize>) -> bool {
    &&& coords.len() == shape.len()
    &&& forall|d: int| 0 <= d < shape.len() ==> #[trigger] coords[d] < shape[d]
}

proof fn lemma_row_major_skip(shape: Seq<usize>)
    requires
        shape.len() > 0,
    ensures
        row_major(shape).skip(1) == row_major(shape.skip(1)),
{
    assert forall|i: int| 0 <= i < shape.len() - 1 implies row_major(shape).skip(1)[i]
        == row_major(shape.skip(1))[i] by {
        assert(shape.skip(i + 2) =~= shape.skip(1).skip(i + 1));
    }
    assert(row_major(shape).skip(1) =~= row_major(shape.skip(1)));
}

proof fn lemma_strides_fit_skip(shape: Seq<usize>)
    requires
        strides_fit(shape),
        shape.len() > 0,
    ensures
        strides_fit(shape.skip(1)),
        volume(shape.skip(1)) <= usize::MAX,
{
    assert forall|i: int| 1 <= i <= shape.skip(1).len() implies #[trigger] volume(
        shape.skip(1).skip(i),
    ) <= usize::MAX by {
        assert(shape.skip(1).skip(i) =~= shape.skip(i + 1));
    }
    assert(volume(shape.skip(1)) <= usize::MAX);
}

/// The coordinates of an element lie inside the shape and lead back to it.
pub proof fn law_coordinates_lead_back(flat: nat, shape: Seq<usize>)
    requires
        flat < volume(shape),
        strides_fit(shape),
    ensures
        inside(coordinates(flat, shape), shape),
        dot(coordinates(flat, shape), row_major(shape)) == flat,
    decreases shape.len(),
{
    if shape.len() > 0 {
        let rest = shape.skip(1);
        let stride = volume(rest);
        let dim = shape[0] as nat;
        assert(stride > 0) by (nonlinear_arith)
            requires
                flat < dim * stride,
        ;
        lemma_strides_fit_skip(shape);
        lemma_row_major_skip(shape);
        vstd::arithmetic::div_mod::lemma_fundamental_div_mod(flat as int, stride as int);
        vstd::arithmetic::div_mod::lemma_mod_bound(flat as int, stride as int);
        let q = flat / stride;
        assert(q < dim) by (nonlinear_arith)
            requires
                flat < dim * stride,
                flat as int == stride * q + flat % stride,
                stride > 0,
        ;
        law_coordinates_lead_back(flat % stride, rest);
        let tail = coordinates(flat % stride, rest);
        let coords = coordinates(flat, shape);
        assert(coords.skip(1) =~= tail);
        assert(coords[0] == q);
        assert forall|d: int| 0 <= d < shape.len() implies #[trigger] coords[d] < shape[d] by {
            if d > 0 {
                assert(coords[d] == tail[d - 1]);
                assert(shape[d] == rest[d - 1]);
            }
        }
        assert(row_major(shape)[0] == stride);
        assert(q * stride == stride * q) by (nonlinear_arith);
    } else {
        assert(dot(coordinates(flat, shape), row_major(shape)) == 0);
    }
}

/// Every place inside a shape has its own element, and that element has these coordinates.
pub proof fn law_elements_lead_back(coords: Seq<usize>, shape: Seq<usize>)
    requires
        inside(coords, shape),
        strides_fit(shape),
    ensures
        dot(coords, row_major(shape)) < volume(shape),
        coordinates(dot(coords, row_major(shape)), shape) == coords,
    decreases shape.len(),
{
    if shape.len() > 0 {
        let rest = shape.skip(1);
        let stride = volume(rest);
        lemma_strides_fit_skip(shape);
        lemma_row_major_skip(shape);
        assert forall|d: int| 0 <= d < rest.len() implies #[trigger] coords.skip(1)[d] < rest[d] by {
            assert(coords[d + 1] < shape[d + 1]);
        }
        law_elements_lead_back(coords.skip(1), rest);
        let below = dot(coords.skip(1), row_major(rest));
        let c = coords[0] as nat;
        let flat = dot(coords, row_major(shape));
        assert(row_major(shape)[0] == stride);
        assert(flat == c * stride + below);
        assert(coords[0] < shape[0]);
        assert(flat < shape[0] as nat * stride) by (nonlinear_arith)
            requires
                flat == c * stride + below,
                below < stride,
                c < shape[0],
        ;
        vstd::arithmetic::div_mod::lemma_fundamental_div_mod_converse(
            flat as int,
            stride as int,
            c as int,
            below as int,
        );
        assert(coordinates(flat, shape) =~= coords);
    } else {
        assert(coordinates(dot(coords, row_major(shape)), shape) =~= coords);
    }
}

} // verus!
