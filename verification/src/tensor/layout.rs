//! Where the elements of a view lie in its storage.

use super::arith;
use super::arith::{add_up_at, Scalar};
use super::shape;
use super::shape::{compute_strides, unravel_index};
use vstd::prelude::*;
use vstd::slice::slice_to_vec;

verus! {

/// The place in storage of element `k` of a view.
pub open spec fn place(k: nat, offset: usize, dims: Seq<usize>, strides: Seq<usize>) -> nat {
    offset as nat + shape::dot(shape::coordinates(k, dims), strides)
}

/// Whether a view is its storage as it stands.
pub open spec fn is_plain(offset: usize, dims: Seq<usize>, strides: Seq<usize>) -> bool {
    offset == 0 && strides == shape::row_major(dims)
}

/// Adds up the products of coordinates and strides.
fn dot_of(coords: &Vec<usize>, strides: &[usize]) -> (sum: usize)
    requires
        coords@.len() == strides@.len(),
        shape::dot(coords@, strides@) <= usize::MAX,
    ensures
        sum == shape::dot(coords@, strides@),
{
    let n: usize = coords.len();
    let mut sum: usize = 0;
    let mut i: usize = 0;
    assert(coords@.skip(0) =~= coords@);
    assert(strides@.skip(0) =~= strides@);
    while i < n
        invariant
            i <= n == coords@.len() == strides@.len(),
            sum + shape::dot(coords@.skip(i as int), strides@.skip(i as int)) == shape::dot(
                coords@,
                strides@,
            ),
            shape::dot(coords@, strides@) <= usize::MAX,
        decreases n - i,
    {
        proof {
            assert(coords@.skip(i as int).skip(1) =~= coords@.skip(i + 1));
            assert(strides@.skip(i as int).skip(1) =~= strides@.skip(i + 1));
            assert(coords@[i as int] as nat * strides@[i as int] as nat >= 0) by (nonlinear_arith);
        }
        let part: usize = coords[i] * strides[i];
        sum = sum + part;
        i = i + 1;
    }
    sum
}

/// Whether strides are those of a shape whose last dimension varies fastest.
pub fn is_contiguous(dims: &[usize], strides: &[usize]) -> (yes: bool)
    requires
        shape::strides_fit(dims@),
    ensures
        yes == (strides@ == shape::row_major(dims@)),
{
    let expected: Vec<usize> = compute_strides(dims);
    if strides.len() != expected.len() {
        return false;
    }
    let mut i: usize = 0;
    while i < expected.len()
        invariant
            i <= expected@.len() == strides@.len(),
            expected@ == shape::row_major(dims@),
            forall|j: int| 0 <= j < i ==> strides@[j] == expected@[j],
        decreases expected@.len() - i,
    {
        if strides[i] != expected[i] {
            return false;
        }
        i = i + 1;
    }
    assert(strides@ =~= expected@);
    true
}

/// The elements of a view in order. A plain view is its storage as it stands; otherwise the
/// elements are collected one by one.
pub fn contiguous_data<T: Copy>(
    data: &[T],
    offset: usize,
    dims: &[usize],
    strides: &[usize],
) -> (out: Vec<T>)
    requires
        dims@.len() == strides@.len(),
        shape::strides_fit(dims@),
        !is_plain(offset, dims@, strides@) ==> {
            &&& shape::volume(dims@) <= usize::MAX
            &&& forall|k: nat|
                k < shape::volume(dims@) ==> #[trigger] place(k, offset, dims@, strides@)
                    < data@.len()
        },
    ensures
        is_plain(offset, dims@, strides@) ==> out@ == data@,
        !is_plain(offset, dims@, strides@) ==> out@ == Seq::new(
            shape::volume(dims@),
            |k: int| data@[place(k as nat, offset, dims@, strides@) as int],
        ),
{
    if offset == 0 && is_contiguous(dims, strides) {
        return slice_to_vec(data);
    }
    let len: usize = data.len();
    let count: usize = element_count(dims);
    let mut out: Vec<T> = Vec::new();
    let mut k: usize = 0;
    while k < count
        invariant
            k <= count == shape::volume(dims@),
            len == data@.len(),
            dims@.len() == strides@.len(),
            shape::strides_fit(dims@),
            forall|k: nat|
                k < shape::volume(dims@) ==> #[trigger] place(k, offset, dims@, strides@)
                    < data@.len(),
            out@.len() == k,
            forall|j: int|
                0 <= j < k ==> out@[j] == data@[place(j as nat, offset, dims@, strides@) as int],
        decreases count - k,
    {
        let coords: Vec<usize> = unravel_index(k, dims);
        assert(place(k as nat, offset, dims@, strides@) < data@.len());
        proof {
            lemma_coordinates_len(k as nat, dims@);
        }
        let at: usize = offset + dot_of(&coords, strides);
        out.push(data[at]);
        k = k + 1;
    }
    assert(out@ =~= Seq::new(
        shape::volume(dims@),
        |k: int| data@[place(k as nat, offset, dims@, strides@) as int],
    ));
    out
}

/// There is one coordinate for each dimension.
pub proof fn lemma_coordinates_len(k: nat, dims: Seq<usize>)
    ensures
        shape::coordinates(k, dims).len() == dims.len(),
    decreases dims.len(),
{
    if dims.len() > 0 {
        let stride = shape::volume(dims.skip(1));
        if stride == 0 {
            lemma_coordinates_len(k, dims.skip(1));
        } else {
            lemma_coordinates_len(k % stride, dims.skip(1));
        }
    }
}

/// How many elements a shape has.
pub fn element_count(dims: &[usize]) -> (count: usize)
    requires
        shape::strides_fit(dims@),
        shape::volume(dims@) <= usize::MAX,
    ensures
        count == shape::volume(dims@),
{
    let n: usize = dims.len();
    let mut i: usize = n;
    let mut count: usize = 1;
    assert(dims@.skip(n as int) =~= seq![]);
    while i > 0
        invariant
            i <= n == dims@.len(),
            shape::strides_fit(dims@),
            shape::volume(dims@) <= usize::MAX,
            count == shape::volume(dims@.skip(i as int)),
        decreases i,
    {
        proof {
            assert(dims@.skip(i - 1).skip(1) =~= dims@.skip(i as int));
            if i == 1 {
                assert(dims@.skip(0) =~= dims@);
            } else {
                assert(shape::volume(dims@.skip(i - 1)) <= usize::MAX);
            }
            assert(dims@.skip(i - 1)[0] == dims@[i - 1]);
        }
        count = dims[i - 1] * count;
        i = i - 1;
    }
    assert(dims@.skip(0) =~= dims@);
    count
}

/// Collecting the elements of a plain view one by one gives the storage as well.
pub proof fn law_plain_views_keep_order<T>(data: Seq<T>, dims: Seq<usize>)
    requires
        shape::strides_fit(dims),
        data.len() == shape::volume(dims),
    ensures
        Seq::new(
            shape::volume(dims),
            |k: int| data[place(k as nat, 0, dims, shape::row_major(dims)) as int],
        ) == data,
{
    assert forall|k: int| 0 <= k < data.len() implies #[trigger] place(
        k as nat,
        0,
        dims,
        shape::row_major(dims),
    ) == k by {
        shape::law_coordinates_lead_back(k as nat, dims);
    }
    assert(Seq::new(
        shape::volume(dims),
        |k: int| data[place(k as nat, 0, dims, shape::row_major(dims)) as int],
    ) =~= data);
}

/// Whether a shape can have been stretched to `wide`: aligned at the end, each dimension is
/// the same or was one.
pub open spec fn stretches_to(target: Seq<usize>, wide: Seq<usize>) -> bool {
    &&& target.len() <= wide.len()
    &&& forall|d: int|
        0 <= d < target.len() ==> #[trigger] target[d] == 1 || target[d] == wide[d + wide.len()
            - target.len()]
}

/// The coordinates before stretching of the element with the coordinates `coords` after it.
pub open spec fn folded_coordinates(coords: Seq<usize>, target: Seq<usize>) -> Seq<usize> {
    Seq::new(
        target.len(),
        |d: int|
            if target[d] == 1 {
                0usize
            } else {
                coords[d + coords.len() - target.len()]
            },
    )
}

/// The element of `target` that element `k` of the stretched shape stems from.
pub open spec fn source_of(k: nat, target: Seq<usize>, wide: Seq<usize>) -> nat {
    shape::dot(
        folded_coordinates(shape::coordinates(k, wide), target),
        shape::row_major(target),
    )
}

/// Every element of a stretched shape stems from an element of the shape before.
pub proof fn law_sources_exist(k: nat, target: Seq<usize>, wide: Seq<usize>)
    requires
        stretches_to(target, wide),
        shape::strides_fit(target),
        shape::strides_fit(wide),
        k < shape::volume(wide),
    ensures
        source_of(k, target, wide) < shape::volume(target),
{
    let coords = shape::coordinates(k, wide);
    shape::law_coordinates_lead_back(k, wide);
    let folded = folded_coordinates(coords, target);
    assert forall|d: int| 0 <= d < target.len() implies #[trigger] folded[d] < target[d] by {
        assert(target[d] == 1 || target[d] == wide[d + wide.len() - target.len()]);
        assert(coords[d + wide.len() - target.len()] < wide[d + wide.len() - target.len()]);
    }
    shape::law_elements_lead_back(folded, target);
}

/// For each element of a stretched shape the element that it stems from. A gradient on the
/// stretched shape is added up at these places.
pub fn unbroadcast_targets(wide: &[usize], target: &[usize]) -> (places: Vec<usize>)
    requires
        stretches_to(target@, wide@),
        shape::strides_fit(target@),
        shape::strides_fit(wide@),
        shape::volume(wide@) <= usize::MAX,
        shape::volume(target@) <= usize::MAX,
    ensures
        places@.len() == shape::volume(wide@),
        forall|k: int|
            0 <= k < places@.len() ==> #[trigger] places@[k] == source_of(
                k as nat,
                target@,
                wide@,
            ),
        forall|k: int| 0 <= k < places@.len() ==> #[trigger] places@[k] < shape::volume(target@),
{
    let count: usize = element_count(wide);
    let strides: Vec<usize> = compute_strides(target);
    let rank: usize = target.len();
    let width: usize = wide.len();
    let shift: usize = width - rank;
    let mut places: Vec<usize> = Vec::new();
    let mut k: usize = 0;
    while k < count
        invariant
            k <= count == shape::volume(wide@),
            rank == target@.len(),
            shift + rank == width == wide@.len(),
            stretches_to(target@, wide@),
            shape::strides_fit(target@),
            shape::strides_fit(wide@),
            shape::volume(target@) <= usize::MAX,
            strides@ == shape::row_major(target@),
            places@.len() == k,
            forall|j: int|
                0 <= j < k ==> #[trigger] places@[j] == source_of(j as nat, target@, wide@),
            forall|j: int| 0 <= j < k ==> #[trigger] places@[j] < shape::volume(target@),
        decreases count - k,
    {
        let coords: Vec<usize> = unravel_index(k, wide);
        let mut folded: Vec<usize> = Vec::new();
        let mut d: usize = 0;
        proof {
            lemma_coordinates_len(k as nat, wide@);
        }
        while d < rank
            invariant
                d <= rank == target@.len(),
                coords@.len() == wide@.len(),
                shift + rank == width == wide@.len(),
                folded@.len() == d,
                forall|j: int|
                    0 <= j < d ==> folded@[j] == folded_coordinates(coords@, target@)[j],
            decreases rank - d,
        {
            if target[d] == 1 {
                folded.push(0);
            } else {
                folded.push(coords[d + shift]);
            }
            d = d + 1;
        }
        assert(folded@ =~= folded_coordinates(coords@, target@));
        proof {
            law_sources_exist(k as nat, target@, wide@);
        }
        places.push(dot_of(&folded, strides.as_slice()));
        k = k + 1;
    }
    places
}

/// For each element of a stretched shape the element that it stems from.
pub open spec fn sources(target: Seq<usize>, wide: Seq<usize>) -> Seq<usize> {
    Seq::new(shape::volume(wide), |k: int| source_of(k as nat, target, wide) as usize)
}

/// Folds a gradient on a stretched shape back: each element of the shape before gets the sum
/// over the elements that stem from it.
pub fn unbroadcast_grad<T: Scalar>(grad: &[T], wide: &[usize], target: &[usize]) -> (out: Vec<T>)
    requires
        shape::strides_fit(target@),
        shape::volume(target@) <= usize::MAX,
        shape::volume(target@) > 0 ==> {
            &&& stretches_to(target@, wide@)
            &&& shape::strides_fit(wide@)
            &&& grad@.len() <= shape::volume(wide@) <= usize::MAX
        },
    ensures
        out@ == Seq::new(
            shape::volume(target@),
            |p: int| arith::landed(grad@, sources(target@, wide@), p, grad@.len()),
        ),
{
    if element_count(target) == 0 {
        let out: Vec<T> = Vec::new();
        assert(out@ =~= Seq::new(
            shape::volume(target@),
            |p: int| arith::landed(grad@, sources(target@, wide@), p, grad@.len()),
        ));
        return out;
    }
    let places: Vec<usize> = unbroadcast_targets(wide, target);
    assert(places@ =~= sources(target@, wide@));
    let out = add_up_at(grad, places.as_slice(), element_count(target));
    assert(out@ =~= Seq::new(
        shape::volume(target@),
        |p: int| arith::landed(grad@, sources(target@, wide@), p, grad@.len()),
    ));
    out
}

} // verus!
