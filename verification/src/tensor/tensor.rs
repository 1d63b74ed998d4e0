//! Tensors: elements in storage, views on them, and a place for a gradient.
//!
//! A pool owns storages and tensors; a [`Tensor`] names one of its tensors. Copies of the name
//! mean the same tensor, and different tensors may be views on the same storage.

use super::arith::Scalar;
use super::dtype::{DType, Device};
use super::grad;
use super::grad::accum_grad;
use super::half;
use super::half::store_as;
use super::layout;
use super::layout::{contiguous_data, element_count, is_contiguous};
use super::shape;
use super::shape::compute_strides;
use vstd::prelude::*;
use vstd::slice::slice_to_vec;

verus! {

/// A tensor as its pool holds it: a view on one of the storages, and a place for a gradient.
#[derive(Debug, PartialEq, Eq)]
pub struct TensorInner<T> {
    pub storage: usize,
    pub shape: Vec<usize>,
    pub strides: Vec<usize>,
    pub offset: usize,
    pub dtype: DType,
    pub device: Device,
    pub requires_grad: bool,
    pub grad: Option<Vec<T>>,
}

/// The content of a [`TensorInner`].
#[verifier::ext_equal]
pub struct InnerState<T> {
    pub storage: nat,
    pub shape: Seq<usize>,
    pub strides: Seq<usize>,
    pub offset: usize,
    pub dtype: DType,
    pub device: Device,
    pub requires_grad: bool,
    pub grad: Option<Seq<T>>,
}

impl<T> View for TensorInner<T> {
    type V = InnerState<T>;

    open spec fn view(&self) -> InnerState<T> {
        InnerState {
            storage: self.storage as nat,
            shape: self.shape@,
            strides: self.strides@,
            offset: self.offset,
            dtype: self.dtype,
            device: self.device,
            requires_grad: self.requires_grad,
            grad: grad::value(self.grad),
        }
    }
}

/// Storages, and the tensors that are views on them.
#[derive(Debug, PartialEq, Eq)]
pub struct TensorPool<T> {
    pub storages: Vec<Vec<T>>,
    pub inners: Vec<TensorInner<T>>,
}

/// The content of a [`TensorPool`].
#[verifier::ext_equal]
pub struct PoolState<T> {
    pub storages: Seq<Seq<T>>,
    pub inners: Seq<InnerState<T>>,
}

impl<T> View for TensorPool<T> {
    type V = PoolState<T>;

    open spec fn view(&self) -> PoolState<T> {
        PoolState {
            storages: self.storages@.map_values(|storage: Vec<T>| storage@),
            inners: self.inners@.map_values(|inner: TensorInner<T>| inner@),
        }
    }
}

/// The name of a tensor of a pool. Copies share the tensor: its view, its elements and its
/// gradient.
#[derive(Debug, Clone, Copy, PartialEq, Eq, Structural)]
pub struct Tensor {
    pub inner: usize,
}

/// A tensor with the elements that it is a view on.
#[verifier::ext_equal]
pub struct TensorState<T> {
    pub storage: Seq<T>,
    pub shape: Seq<usize>,
    pub strides: Seq<usize>,
    pub offset: usize,
    pub dtype: DType,
    pub device: Device,
    pub requires_grad: bool,
    pub grad: Option<Seq<T>>,
}

impl<T> TensorState<T> {
    /// Whether elements can be counted, and a view that is not plain stays within storage.
    pub open spec fn well_formed(self) -> bool {
        &&& self.shape.len() == self.strides.len()
        &&& shape::strides_fit(self.shape)
        &&& shape::volume(self.shape) <= usize::MAX
        &&& !layout::is_plain(self.offset, self.shape, self.strides) ==> forall|k: nat|
            k < shape::volume(self.shape) ==> #[trigger] layout::place(
                k,
                self.offset,
                self.shape,
                self.strides,
            ) < self.storage.len()
    }

    /// The elements in the order of the view. A plain view is its storage as it stands.
    pub open spec fn elements(self) -> Seq<T> {
        if layout::is_plain(self.offset, self.shape, self.strides) {
            self.storage
        } else {
            Seq::new(
                shape::volume(self.shape),
                |k: int|
                    self.storage[layout::place(
                        k as nat,
                        self.offset,
                        self.shape,
                        self.strides,
                    ) as int],
            )
        }
    }
}

/// A tensor over storage that holds its elements in order, without a gradient.
pub open spec fn fresh<T>(storage: Seq<T>, dims: Seq<usize>) -> TensorState<T> {
    TensorState {
        storage,
        shape: dims,
        strides: shape::row_major(dims),
        offset: 0,
        dtype: DType::F32,
        device: Device::CPU,
        requires_grad: false,
        grad: None,
    }
}

impl<T> PoolState<T> {
    /// Whether every tensor is a view on a storage of the pool.
    pub open spec fn well_formed(self) -> bool {
        forall|i: int|
            0 <= i < self.inners.len() ==> (#[trigger] self.inners[i]).storage
                < self.storages.len()
    }

    /// Whether `tensor` names a tensor of the pool.
    pub open spec fn holds(self, tensor: Tensor) -> bool {
        tensor.inner < self.inners.len()
    }

    /// A tensor without its elements.
    pub open spec fn inner(self, tensor: Tensor) -> InnerState<T> {
        self.inners[tensor.inner as int]
    }

    /// A tensor with its elements.
    pub open spec fn state(self, tensor: Tensor) -> TensorState<T> {
        let inner = self.inner(tensor);
        TensorState {
            storage: self.storages[inner.storage as int],
            shape: inner.shape,
            strides: inner.strides,
            offset: inner.offset,
            dtype: inner.dtype,
            device: inner.device,
            requires_grad: inner.requires_grad,
            grad: inner.grad,
        }
    }

    /// The pool with one more tensor, over a storage of its own.
    pub open spec fn with_tensor(self, state: TensorState<T>) -> PoolState<T> {
        PoolState {
            storages: self.storages.push(state.storage),
            inners: self.inners.push(
                InnerState {
                    storage: self.storages.len(),
                    shape: state.shape,
                    strides: state.strides,
                    offset: state.offset,
                    dtype: state.dtype,
                    device: state.device,
                    requires_grad: state.requires_grad,
                    grad: state.grad,
                },
            ),
        }
    }

    /// The pool with one more tensor: the view of `tensor` on the same storage, which wants no
    /// gradient and has none.
    pub open spec fn with_detached(self, tensor: Tensor) -> PoolState<T> {
        PoolState {
            inners: self.inners.push(
                InnerState { requires_grad: false, grad: None, ..self.inner(tensor) },
            ),
            ..self
        }
    }

    /// The pool with another gradient of `tensor`, which is wanted or is not.
    pub open spec fn with_gradient(
        self,
        tensor: Tensor,
        requires_grad: bool,
        grad: Option<Seq<T>>,
    ) -> PoolState<T> {
        PoolState {
            inners: self.inners.update(
                tensor.inner as int,
                InnerState { requires_grad, grad, ..self.inner(tensor) },
            ),
            ..self
        }
    }

    /// The pool with other elements in the storage of `tensor`.
    pub open spec fn with_storage(self, tensor: Tensor, storage: Seq<T>) -> PoolState<T> {
        PoolState {
            storages: self.storages.update(self.inner(tensor).storage as int, storage),
            ..self
        }
    }

    /// The name that the next tensor of the pool gets.
    pub open spec fn next_name(self) -> int {
        self.inners.len() as int
    }
}

/// What `tensor` is on device `target`, unless it is there already.
pub open spec fn moved<T>(state: TensorState<T>, target: Device) -> TensorState<T> {
    TensorState {
        device: target,
        requires_grad: state.requires_grad,
        ..fresh(state.elements(), state.shape)
    }
}

/// What `tensor` is in format `target`, unless it has that format already. The elements are
/// bits of single precision numbers.
pub open spec fn converted(state: TensorState<u32>, target: DType) -> TensorState<u32> {
    TensorState {
        dtype: target,
        ..fresh(
            state.elements().map_values(|bits: u32| half::stored(bits, target) as u32),
            state.shape,
        )
    }
}

impl<T> TensorPool<T> {
    /// A pool without tensors.
    pub fn new() -> (pool: Self)
        ensures
            pool@ == (PoolState::<T> { storages: seq![], inners: seq![] }),
            pool@.well_formed(),
    {
        let pool = TensorPool { storages: Vec::new(), inners: Vec::new() };
        assert(pool@ =~= (PoolState::<T> { storages: seq![], inners: seq![] }));
        pool
    }
}

impl<T> TensorPool<T> {
    /// Adds a tensor whose elements lie in order, in a storage of its own.
    fn add_tensor(
        &mut self,
        data: Vec<T>,
        dims: Vec<usize>,
        dtype: DType,
        device: Device,
        requires_grad: bool,
    ) -> (tensor: Tensor)
        requires
            old(self)@.well_formed(),
            shape::strides_fit(dims@),
            shape::volume(dims@) <= usize::MAX,
        ensures
            ({
                let state = TensorState { dtype, device, requires_grad, ..fresh(data@, dims@) };
                &&& final(self)@ == old(self)@.with_tensor(state)
                &&& final(self)@.state(tensor) == state
                &&& state.well_formed()
            }),
            tensor.inner == old(self)@.next_name(),
            final(self)@.well_formed(),
    {
        let strides = compute_strides(dims.as_slice());
        let inner = TensorInner {
            storage: self.storages.len(),
            shape: dims,
            strides,
            offset: 0,
            dtype,
            device,
            requires_grad,
            grad: None,
        };
        let tensor = Tensor { inner: self.inners.len() };
        self.storages.push(data);
        self.inners.push(inner);
        proof {
            let state = TensorState { dtype, device, requires_grad, ..fresh(data@, dims@) };
            assert(self@ =~= old(self)@.with_tensor(state));
            lemma_one_more_tensor(old(self)@, state);
        }
        tensor
    }
}

impl Tensor {
    /// A tensor of the given elements and shape, on the host, without a gradient.
    pub fn new<T>(pool: &mut TensorPool<T>, data: Vec<T>, dims: Vec<usize>) -> (tensor: Self)
        requires
            old(pool)@.well_formed(),
            shape::strides_fit(dims@),
            shape::volume(dims@) <= usize::MAX,
        ensures
            final(pool)@ == old(pool)@.with_tensor(fresh(data@, dims@)),
            tensor.inner == old(pool)@.next_name(),
            final(pool)@.well_formed(),
            final(pool)@.state(tensor) == fresh(data@, dims@),
            final(pool)@.state(tensor).well_formed(),
    {
        pool.add_tensor(data, dims, DType::F32, Device::CPU, false)
    }

    /// A tensor of the given elements and shape that wants a gradient, or does not.
    pub fn with_grad<T>(
        pool: &mut TensorPool<T>,
        data: Vec<T>,
        dims: Vec<usize>,
        requires_grad: bool,
    ) -> (tensor: Self)
        requires
            old(pool)@.well_formed(),
            shape::strides_fit(dims@),
            shape::volume(dims@) <= usize::MAX,
        ensures
            final(pool)@ == old(pool)@.with_tensor(
                TensorState { requires_grad, ..fresh(data@, dims@) },
            ),
            tensor.inner == old(pool)@.next_name(),
            final(pool)@.well_formed(),
            final(pool)@.state(tensor) == (TensorState { requires_grad, ..fresh(data@, dims@) }),
            final(pool)@.state(tensor).well_formed(),
    {
        pool.add_tensor(data, dims, DType::F32, Device::CPU, requires_grad)
    }

    /// The elements as they lie in storage.
    pub fn data<'a, T>(&self, pool: &'a TensorPool<T>) -> (data: &'a Vec<T>)
        requires
            pool@.well_formed(),
            pool@.holds(*self),
        ensures
            data@ == pool@.state(*self).storage,
    {
        assert(pool@.inners[self.inner as int].storage < pool@.storages.len());
        &pool.storages[pool.inners[self.inner].storage]
    }

    /// The storage, to be written to. Every tensor that is a view on it sees what is written.
    pub fn data_mut<'a, T>(&self, pool: &'a mut TensorPool<T>) -> (data: &'a mut Vec<T>)
        requires
            old(pool)@.well_formed(),
            old(pool)@.holds(*self),
        ensures
            data@ == old(pool)@.state(*self).storage,
            final(pool)@ == old(pool)@.with_storage(*self, final(data)@),
            final(pool)@.well_formed(),
    {
        assert(pool@.inners[self.inner as int].storage < pool@.storages.len());
        let at: usize = pool.inners[self.inner].storage;
        &mut pool.storages[at]
    }

    /// The shape.
    pub fn shape<'a, T>(&self, pool: &'a TensorPool<T>) -> (dims: &'a Vec<usize>)
        requires
            pool@.holds(*self),
        ensures
            dims@ == pool@.state(*self).shape,
    {
        &pool.inners[self.inner].shape
    }

    /// The steps in storage along each dimension.
    pub fn strides<'a, T>(&self, pool: &'a TensorPool<T>) -> (strides: &'a Vec<usize>)
        requires
            pool@.holds(*self),
        ensures
            strides@ == pool@.state(*self).strides,
    {
        &pool.inners[self.inner].strides
    }

    /// Where the view begins in storage.
    pub fn offset<T>(&self, pool: &TensorPool<T>) -> (offset: usize)
        requires
            pool@.holds(*self),
        ensures
            offset == pool@.state(*self).offset,
    {
        pool.inners[self.inner].offset
    }

    /// The number of elements.
    pub fn numel<T>(&self, pool: &TensorPool<T>) -> (n: usize)
        requires
            pool@.holds(*self),
            pool@.state(*self).well_formed(),
        ensures
            n == shape::volume(pool@.state(*self).shape),
    {
        element_count(pool.inners[self.inner].shape.as_slice())
    }

    /// The number of dimensions.
    pub fn rank<T>(&self, pool: &TensorPool<T>) -> (n: usize)
        requires
            pool@.holds(*self),
        ensures
            n == pool@.state(*self).shape.len(),
    {
        pool.inners[self.inner].shape.len()
    }

    /// Whether there is a single element.
    pub fn is_scalar<T>(&self, pool: &TensorPool<T>) -> (yes: bool)
        requires
            pool@.holds(*self),
            pool@.state(*self).well_formed(),
        ensures
            yes == (shape::volume(pool@.state(*self).shape) == 1),
    {
        self.numel(pool) == 1
    }

    /// Whether both tensors have the same shape.
    pub fn same_shape<T>(&self, pool: &TensorPool<T>, other: &Tensor) -> (yes: bool)
        requires
            pool@.holds(*self),
            pool@.holds(*other),
        ensures
            yes == (pool@.state(*self).shape == pool@.state(*other).shape),
    {
        let mine = &pool.inners[self.inner].shape;
        let theirs = &pool.inners[other.inner].shape;
        if mine.len() != theirs.len() {
            return false;
        }
        let mut i: usize = 0;
        while i < mine.len()
            invariant
                i <= mine@.len() == theirs@.len(),
                mine@ == pool@.state(*self).shape,
                theirs@ == pool@.state(*other).shape,
                forall|j: int| 0 <= j < i ==> mine@[j] == theirs@[j],
            decreases mine@.len() - i,
        {
            if mine[i] != theirs[i] {
                return false;
            }
            i = i + 1;
        }
        assert(mine@ =~= theirs@);
        true
    }

    /// The device that the tensor belongs to.
    pub fn device<T>(&self, pool: &TensorPool<T>) -> (device: Device)
        requires
            pool@.holds(*self),
        ensures
            device == pool@.state(*self).device,
    {
        pool.inners[self.inner].device
    }

    /// The format of the elements.
    pub fn dtype<T>(&self, pool: &TensorPool<T>) -> (dtype: DType)
        requires
            pool@.holds(*self),
        ensures
            dtype == pool@.state(*self).dtype,
    {
        pool.inners[self.inner].dtype
    }

    /// Whether the steps are those of a tensor whose elements lie in order.
    pub fn is_contiguous<T>(&self, pool: &TensorPool<T>) -> (yes: bool)
        requires
            pool@.holds(*self),
            pool@.state(*self).well_formed(),
        ensures
            yes == (pool@.state(*self).strides == shape::row_major(pool@.state(*self).shape)),
    {
        let inner = &pool.inners[self.inner];
        is_contiguous(inner.shape.as_slice(), inner.strides.as_slice())
    }

    /// The elements in the order of the view.
    pub fn contiguous_data<T: Copy>(&self, pool: &TensorPool<T>) -> (data: Vec<T>)
        requires
            pool@.well_formed(),
            pool@.holds(*self),
            pool@.state(*self).well_formed(),
        ensures
            data@ == pool@.state(*self).elements(),
    {
        let inner = &pool.inners[self.inner];
        let storage = self.data(pool);
        proof {
            let state = pool@.state(*self);
            assert(inner.shape@ == state.shape);
            assert(inner.strides@ == state.strides);
            assert(storage@ == state.storage);
        }
        contiguous_data(
            storage.as_slice(),
            inner.offset,
            inner.shape.as_slice(),
            inner.strides.as_slice(),
        )
    }

    /// Whether a gradient is wanted.
    pub fn requires_grad<T>(&self, pool: &TensorPool<T>) -> (yes: bool)
        requires
            pool@.holds(*self),
        ensures
            yes == pool@.state(*self).requires_grad,
    {
        pool.inners[self.inner].requires_grad
    }

    /// Sets whether a gradient is wanted. One that is no longer wanted is forgotten.
    pub fn set_requires_grad<T>(&self, pool: &mut TensorPool<T>, enabled: bool)
        requires
            old(pool)@.well_formed(),
            old(pool)@.holds(*self),
        ensures
            final(pool)@ == old(pool)@.with_gradient(
                *self,
                enabled,
                if enabled {
                    old(pool)@.state(*self).grad
                } else {
                    None
                },
            ),
            final(pool)@.well_formed(),
    {
        let inner = &mut pool.inners[self.inner];
        inner.requires_grad = enabled;
        if !enabled {
            inner.grad = None;
        }
        proof {
            let held = old(pool)@.state(*self).grad;
            let kept = if enabled {
                held
            } else {
                None
            };
            assert(pool@ =~= old(pool)@.with_gradient(*self, enabled, kept));
            lemma_another_gradient(old(pool)@, *self, enabled, kept);
        }
    }

    /// Another tensor over the same storage: the same view, which wants no gradient and has
    /// none.
    pub fn detach<T>(&self, pool: &mut TensorPool<T>) -> (tensor: Self)
        requires
            old(pool)@.well_formed(),
            old(pool)@.holds(*self),
        ensures
            final(pool)@ == old(pool)@.with_detached(*self),
            tensor.inner == old(pool)@.next_name(),
            final(pool)@.well_formed(),
            final(pool)@.state(tensor) == (TensorState {
                requires_grad: false,
                grad: None,
                ..old(pool)@.state(*self)
            }),
    {
        let inner = &pool.inners[self.inner];
        let detached = TensorInner {
            storage: inner.storage,
            shape: slice_to_vec(inner.shape.as_slice()),
            strides: slice_to_vec(inner.strides.as_slice()),
            offset: inner.offset,
            dtype: inner.dtype,
            device: inner.device,
            requires_grad: false,
            grad: None,
        };
        let tensor = Tensor { inner: pool.inners.len() };
        assert(detached@ =~= (InnerState {
            requires_grad: false,
            grad: None,
            ..pool@.inner(*self)
        }));
        pool.inners.push(detached);
        proof {
            assert(pool@ =~= old(pool)@.with_detached(*self));
            lemma_one_more_view(old(pool)@, *self);
        }
        tensor
    }

    /// Forgets the gradient.
    pub fn zero_grad<T>(&self, pool: &mut TensorPool<T>)
        requires
            old(pool)@.well_formed(),
            old(pool)@.holds(*self),
        ensures
            final(pool)@ == old(pool)@.with_gradient(
                *self,
                old(pool)@.state(*self).requires_grad,
                None,
            ),
            final(pool)@.well_formed(),
    {
        pool.inners[self.inner].grad = None;
        proof {
            let wanted = old(pool)@.state(*self).requires_grad;
            assert(pool@ =~= old(pool)@.with_gradient(*self, wanted, None));
            lemma_another_gradient(old(pool)@, *self, wanted, None);
        }
    }

    /// The gradient so far.
    pub fn grad<'a, T>(&self, pool: &'a TensorPool<T>) -> (grad: &'a Option<Vec<T>>)
        requires
            pool@.holds(*self),
        ensures
            grad::value(*grad) == pool@.state(*self).grad,
    {
        &pool.inners[self.inner].grad
    }

    /// Adds to the gradient, if one is wanted. The first one is taken as it is. Where none is
    /// wanted, it does not matter what `incoming` is.
    pub fn accum_grad<T: Scalar>(&self, pool: &mut TensorPool<T>, incoming: &Tensor)
        requires
            old(pool)@.well_formed(),
            old(pool)@.holds(*self),
            old(pool)@.state(*self).requires_grad ==> {
                &&& old(pool)@.holds(*incoming)
                &&& old(pool)@.state(*incoming).well_formed()
                &&& old(pool)@.state(*incoming).shape == old(pool)@.state(*self).shape
            },
        ensures
            final(pool)@ == if old(pool)@.state(*self).requires_grad {
                old(pool)@.with_gradient(
                    *self,
                    true,
                    Some(
                        grad::accumulated(
                            old(pool)@.state(*self).grad,
                            old(pool)@.state(*incoming).elements(),
                        ),
                    ),
                )
            } else {
                old(pool)@
            },
            final(pool)@.well_formed(),
    {
        if !pool.inners[self.inner].requires_grad {
            return;
        }
        let data = incoming.contiguous_data(pool);
        accum_grad(&mut pool.inners[self.inner].grad, data.as_slice());
        proof {
            let sum = Some(grad::accumulated(old(pool)@.state(*self).grad, data@));
            assert(pool@ =~= old(pool)@.with_gradient(*self, true, sum));
            lemma_another_gradient(old(pool)@, *self, true, sum);
        }
    }

    /// The tensor on another device: its elements in order, without the gradient, which is
    /// still wanted if it was. On its own device it is the same tensor.
    pub fn to_device<T: Copy>(&self, pool: &mut TensorPool<T>, target: Device) -> (tensor: Self)
        requires
            old(pool)@.well_formed(),
            old(pool)@.holds(*self),
            old(pool)@.state(*self).well_formed(),
        ensures
            old(pool)@.state(*self).device == target ==> tensor == *self && final(pool)@ == old(
                pool,
            )@,
            old(pool)@.state(*self).device != target ==> tensor.inner == old(pool)@.next_name()
                && final(pool)@ == old(pool)@.with_tensor(moved(old(pool)@.state(*self), target))
                && final(pool)@.state(tensor) == moved(old(pool)@.state(*self), target),
            final(pool)@.well_formed(),
            final(pool)@.state(tensor).well_formed(),
    {
        if self.device(pool) == target {
            return *self;
        }
        let data = self.contiguous_data(pool);
        let dims = slice_to_vec(self.shape(pool).as_slice());
        let requires_grad = self.requires_grad(pool);
        pool.add_tensor(data, dims, DType::F32, target, requires_grad)
    }

    /// The tensor on the first CUDA device.
    pub fn cuda<T: Copy>(&self, pool: &mut TensorPool<T>) -> (tensor: Self)
        requires
            old(pool)@.well_formed(),
            old(pool)@.holds(*self),
            old(pool)@.state(*self).well_formed(),
        ensures
            old(pool)@.state(*self).device == Device::Cuda(0) ==> tensor == *self && final(pool)@
                == old(pool)@,
            old(pool)@.state(*self).device != Device::Cuda(0) ==> tensor.inner == old(
                pool,
            )@.next_name() && final(pool)@ == old(pool)@.with_tensor(
                moved(old(pool)@.state(*self), Device::Cuda(0)),
            ) && final(pool)@.state(tensor) == moved(old(pool)@.state(*self), Device::Cuda(0)),
            final(pool)@.well_formed(),
            final(pool)@.state(tensor).well_formed(),
    {
        self.to_device(pool, Device::Cuda(0))
    }

    /// The tensor on the host.
    pub fn cpu<T: Copy>(&self, pool: &mut TensorPool<T>) -> (tensor: Self)
        requires
            old(pool)@.well_formed(),
            old(pool)@.holds(*self),
            old(pool)@.state(*self).well_formed(),
        ensures
            old(pool)@.state(*self).device == Device::CPU ==> tensor == *self && final(pool)@
                == old(pool)@,
            old(pool)@.state(*self).device != Device::CPU ==> tensor.inner == old(
                pool,
            )@.next_name() && final(pool)@ == old(pool)@.with_tensor(
                moved(old(pool)@.state(*self), Device::CPU),
            ) && final(pool)@.state(tensor) == moved(old(pool)@.state(*self), Device::CPU),
            final(pool)@.well_formed(),
            final(pool)@.state(tensor).well_formed(),
    {
        self.to_device(pool, Device::CPU)
    }

    /// The tensor in another format, which wants no gradient. The elements are bits of single
    /// precision numbers; what a shorter format cannot hold is lost. In its own format it is
    /// the same tensor.
    pub fn to_dtype(&self, pool: &mut TensorPool<u32>, target: DType) -> (tensor: Self)
        requires
            old(pool)@.well_formed(),
            old(pool)@.holds(*self),
            old(pool)@.state(*self).well_formed(),
        ensures
            old(pool)@.state(*self).dtype == target ==> tensor == *self && final(pool)@ == old(
                pool,
            )@,
            old(pool)@.state(*self).dtype != target ==> tensor.inner == old(pool)@.next_name()
                && final(pool)@ == old(pool)@.with_tensor(
                converted(old(pool)@.state(*self), target),
            ) && final(pool)@.state(tensor) == converted(old(pool)@.state(*self), target),
            final(pool)@.well_formed(),
            final(pool)@.state(tensor).well_formed(),
    {
        if self.dtype(pool) == target {
            return *self;
        }
        let data = self.contiguous_data(pool);
        let ghost whole = data@.map_values(|bits: u32| half::stored(bits, target) as u32);
        let mut stored: Vec<u32> = Vec::new();
        let mut i: usize = 0;
        while i < data.len()
            invariant
                i <= data@.len(),
                whole == data@.map_values(|bits: u32| half::stored(bits, target) as u32),
                stored@ == whole.take(i as int),
            decreases data@.len() - i,
        {
            stored.push(store_as(data[i], target));
            i = i + 1;
            assert(stored@ =~= whole.take(i as int));
        }
        assert(stored@ =~= whole);
        let dims = slice_to_vec(self.shape(pool).as_slice());
        pool.add_tensor(stored, dims, target, Device::CPU, false)
    }

    /// The tensor in half precision.
    pub fn half(&self, pool: &mut TensorPool<u32>) -> (tensor: Self)
        requires
            old(pool)@.well_formed(),
            old(pool)@.holds(*self),
            old(pool)@.state(*self).well_formed(),
        ensures
            old(pool)@.state(*self).dtype == DType::F16 ==> tensor == *self && final(pool)@
                == old(pool)@,
            old(pool)@.state(*self).dtype != DType::F16 ==> tensor.inner == old(
                pool,
            )@.next_name() && final(pool)@ == old(pool)@.with_tensor(
                converted(old(pool)@.state(*self), DType::F16),
            ) && final(pool)@.state(tensor) == converted(old(pool)@.state(*self), DType::F16),
            final(pool)@.well_formed(),
            final(pool)@.state(tensor).well_formed(),
    {
        self.to_dtype(pool, DType::F16)
    }

    /// The tensor in brain floats.
    pub fn bfloat16(&self, pool: &mut TensorPool<u32>) -> (tensor: Self)
        requires
            old(pool)@.well_formed(),
            old(pool)@.holds(*self),
            old(pool)@.state(*self).well_formed(),
        ensures
            old(pool)@.state(*self).dtype == DType::BF16 ==> tensor == *self && final(pool)@
                == old(pool)@,
            old(pool)@.state(*self).dtype != DType::BF16 ==> tensor.inner == old(
                pool,
            )@.next_name() && final(pool)@ == old(pool)@.with_tensor(
                converted(old(pool)@.state(*self), DType::BF16),
            ) && final(pool)@.state(tensor) == converted(old(pool)@.state(*self), DType::BF16),
            final(pool)@.well_formed(),
            final(pool)@.state(tensor).well_formed(),
    {
        self.to_dtype(pool, DType::BF16)
    }

    /// The tensor in single precision.
    pub fn float(&self, pool: &mut TensorPool<u32>) -> (tensor: Self)
        requires
            old(pool)@.well_formed(),
            old(pool)@.holds(*self),
            old(pool)@.state(*self).well_formed(),
        ensures
            old(pool)@.state(*self).dtype == DType::F32 ==> tensor == *self && final(pool)@
                == old(pool)@,
            old(pool)@.state(*self).dtype != DType::F32 ==> tensor.inner == old(
                pool,
            )@.next_name() && final(pool)@ == old(pool)@.with_tensor(
                converted(old(pool)@.state(*self), DType::F32),
            ) && final(pool)@.state(tensor) == converted(old(pool)@.state(*self), DType::F32),
            final(pool)@.well_formed(),
            final(pool)@.state(tensor).well_formed(),
    {
        self.to_dtype(pool, DType::F32)
    }
}

/// A pool stays well-formed with one more tensor, which is found under its name.
proof fn lemma_one_more_tensor<T>(pool: PoolState<T>, state: TensorState<T>)
    requires
        pool.well_formed(),
    ensures
        pool.with_tensor(state).well_formed(),
        forall|tensor: Tensor| tensor.inner == pool.next_name() ==> #[trigger] pool.with_tensor(
            state,
        ).state(tensor) == state,
{
    let now = pool.with_tensor(state);
    assert forall|i: int| 0 <= i < now.inners.len() implies (#[trigger] now.inners[i]).storage
        < now.storages.len() by {
        if i < pool.inners.len() {
            assert(now.inners[i] == pool.inners[i]);
        }
    }
}

/// A pool stays well-formed with one more view, which is found under its name.
proof fn lemma_one_more_view<T>(pool: PoolState<T>, of: Tensor)
    requires
        pool.well_formed(),
        pool.holds(of),
    ensures
        pool.with_detached(of).well_formed(),
        forall|tensor: Tensor|
            tensor.inner == pool.next_name() ==> #[trigger] pool.with_detached(of).state(tensor)
                == (TensorState { requires_grad: false, grad: None, ..pool.state(of) }),
{
    let now = pool.with_detached(of);
    assert forall|i: int| 0 <= i < now.inners.len() implies (#[trigger] now.inners[i]).storage
        < now.storages.len() by {
        assert(pool.inners[of.inner as int].storage < pool.storages.len());
        if i < pool.inners.len() {
            assert(now.inners[i] == pool.inners[i]);
        }
    }
}

/// A pool stays well-formed with another gradient.
proof fn lemma_another_gradient<T>(
    pool: PoolState<T>,
    tensor: Tensor,
    requires_grad: bool,
    grad: Option<Seq<T>>,
)
    requires
        pool.well_formed(),
        pool.holds(tensor),
    ensures
        pool.with_gradient(tensor, requires_grad, grad).well_formed(),
{
    let now = pool.with_gradient(tensor, requires_grad, grad);
    assert forall|i: int| 0 <= i < now.inners.len() implies (#[trigger] now.inners[i]).storage
        < now.storages.len() by {
        assert(pool.inners[i].storage < pool.storages.len());
    }
}

/// What is written through a tensor shows in one that was detached from it, and the other way
/// round.
pub proof fn law_detached_tensors_share_elements<T>(
    pool: PoolState<T>,
    tensor: Tensor,
    detached: Tensor,
    storage: Seq<T>,
)
    requires
        pool.well_formed(),
        pool.holds(tensor),
        detached.inner == pool.next_name(),
    ensures
        ({
            let both = pool.with_detached(tensor);
            &&& both.with_storage(tensor, storage).state(detached).storage == storage
            &&& both.with_storage(detached, storage).state(tensor).storage == storage
            &&& both.with_storage(tensor, storage) == both.with_storage(detached, storage)
        }),
{
    let both = pool.with_detached(tensor);
    assert(pool.inners[tensor.inner as int].storage < pool.storages.len());
    assert(both.inner(tensor) == pool.inner(tensor));
    assert(both.inner(detached).storage == pool.inner(tensor).storage);
}

/// The gradient of a tensor is its own: a detached tensor does not see it.
pub proof fn law_detached_tensors_share_no_gradient<T>(
    pool: PoolState<T>,
    tensor: Tensor,
    detached: Tensor,
    requires_grad: bool,
    grad: Option<Seq<T>>,
)
    requires
        pool.well_formed(),
        pool.holds(tensor),
        detached.inner == pool.next_name(),
    ensures
        ({
            let both = pool.with_detached(tensor);
            &&& both.with_gradient(tensor, requires_grad, grad).state(detached) == both.state(
                detached,
            )
            &&& both.with_gradient(detached, requires_grad, grad).state(tensor) == pool.state(
                tensor,
            )
        }),
{
}

/// A new tensor has its storage for itself: what is written through it shows in no other, and
/// what is written through another does not show in it.
pub proof fn law_new_tensors_share_nothing<T>(
    pool: PoolState<T>,
    state: TensorState<T>,
    tensor: Tensor,
    other: Tensor,
    storage: Seq<T>,
)
    requires
        pool.well_formed(),
        pool.holds(other),
        tensor.inner == pool.next_name(),
    ensures
        ({
            let both = pool.with_tensor(state);
            &&& both.with_storage(tensor, storage).state(other) == pool.state(other)
            &&& both.with_storage(other, storage).state(tensor) == state
        }),
{
    assert(pool.inners[other.inner as int].storage < pool.storages.len());
    let both = pool.with_tensor(state);
    assert(both.inner(other) == pool.inner(other));
}

} // verus!
