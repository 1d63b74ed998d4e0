//! Where the elements of a tensor are kept.

use super::dtype::Device;
use super::shape::TensorError;
use vstd::pervasive::unreached;
use vstd::prelude::*;
use vstd::slice::slice_to_vec;

verus! {

/// Elements that a device keeps.
pub trait DeviceBuffer<T>: Sized {
    /// The device.
    fn device(&self) -> Device;

    /// The number of elements.
    fn len(&self) -> usize;

    /// Whether there are no elements.
    fn is_empty(&self) -> (yes: bool)
        default_ensures
            exists|n: usize| #[trigger]
                Self::len.ensures((self,), n) && yes == (n == 0),
    {
        let n: usize = self.len();
        n == 0
    }

    /// The elements, copied to the host.
    fn to_host(&self) -> Vec<T>;

    /// Elements of the host, copied to a device; a text that says why where that fails.
    fn from_host(data: &[T], device: Device) -> Result<Self, String>;
}

/// The elements of a tensor: with the host, or with a device.
#[derive(Debug, Clone, PartialEq, Eq)]
pub enum Storage<T, B> {
    Cpu(Vec<T>),
    Device(B),
}

impl<T: Copy, B: DeviceBuffer<T>> Storage<T, B> {
    /// Elements with the host.
    pub fn cpu(data: Vec<T>) -> (storage: Self)
        ensures
            storage == Storage::<T, B>::Cpu(data),
    {
        Storage::Cpu(data)
    }

    /// Whether the host keeps the elements.
    pub fn is_cpu(&self) -> (yes: bool)
        ensures
            yes == (self is Cpu),
    {
        match self {
            Storage::Cpu(_) => true,
            Storage::Device(_) => false,
        }
    }

    /// The elements that the host keeps.
    pub fn as_cpu_slice(&self) -> (elements: &[T])
        requires
            self is Cpu,
        ensures
            elements@ == self->Cpu_0@,
    {
        match self {
            Storage::Cpu(v) => v.as_slice(),
            Storage::Device(_) => unreached(),
        }
    }

    /// The elements that the host keeps; an error where a device does.
    pub fn try_as_cpu_slice(&self) -> (result: Result<&[T], TensorError>)
        ensures
            result is Ok <==> self is Cpu,
            result matches Ok(elements) ==> elements@ == self->Cpu_0@,
            result matches Err(e) ==> e matches TensorError::DeviceError(reason) && reason@
                == "cannot borrow device storage as CPU slice; call to_cpu_vec() first"@,
    {
        match self {
            Storage::Cpu(v) => Ok(v.as_slice()),
            Storage::Device(_) => Err(
                TensorError::DeviceError(
                    "cannot borrow device storage as CPU slice; call to_cpu_vec() first".to_owned(),
                ),
            ),
        }
    }

    /// The elements that the host keeps, to be changed.
    pub fn as_cpu_slice_mut(&mut self) -> (elements: &mut Vec<T>)
        requires
            *old(self) is Cpu,
        ensures
            *elements == (*old(self))->Cpu_0,
            *final(self) == Storage::<T, B>::Cpu(*final(elements)),
    {
        match self {
            Storage::Cpu(v) => v,
            Storage::Device(_) => unreached(),
        }
    }

    /// The elements that the host keeps, to be changed; an error where a device keeps them.
    pub fn try_as_cpu_slice_mut(&mut self) -> (result: Result<&mut Vec<T>, TensorError>)
        ensures
            result is Ok <==> *old(self) is Cpu,
            result matches Ok(elements) ==> *elements == (*old(self))->Cpu_0 && *final(self)
                == Storage::<T, B>::Cpu(*final(elements)),
            result matches Err(e) ==> *final(self) == *old(self) && (e matches
                TensorError::DeviceError(reason) && reason@
                == "cannot mutably borrow device storage as CPU slice"@),
    {
        match self {
            Storage::Cpu(v) => Ok(v),
            Storage::Device(_) => Err(
                TensorError::DeviceError(
                    "cannot mutably borrow device storage as CPU slice".to_owned(),
                ),
            ),
        }
    }

    /// The elements, wherever they are kept.
    pub fn to_cpu_vec(&self) -> (elements: Vec<T>)
        ensures
            match *self {
                Storage::Cpu(v) => elements@ == v@,
                Storage::Device(buffer) => B::to_host.ensures((&buffer,), elements),
            },
    {
        match self {
            Storage::Cpu(v) => slice_to_vec(v.as_slice()),
            Storage::Device(buffer) => buffer.to_host(),
        }
    }

    /// The number of elements.
    pub fn len(&self) -> (n: usize)
        ensures
            match *self {
                Storage::Cpu(v) => n == v@.len(),
                Storage::Device(buffer) => B::len.ensures((&buffer,), n),
            },
    {
        match self {
            Storage::Cpu(v) => v.len(),
            Storage::Device(buffer) => buffer.len(),
        }
    }

    /// Whether there are no elements.
    pub fn is_empty(&self) -> (yes: bool)
        ensures
            match *self {
                Storage::Cpu(v) => yes == (v@.len() == 0),
                Storage::Device(buffer) => exists|n: usize| #[trigger]
                    B::len.ensures((&buffer,), n) && yes == (n == 0),
            },
    {
        let n: usize = self.len();
        n == 0
    }

    /// The device that keeps the elements.
    pub fn device(&self) -> (device: Device)
        ensures
            match *self {
                Storage::Cpu(_) => device == Device::CPU,
                Storage::Device(buffer) => B::device.ensures((&buffer,), device),
            },
    {
        match self {
            Storage::Cpu(_) => Device::CPU,
            Storage::Device(buffer) => buffer.device(),
        }
    }
}

} // verus!
