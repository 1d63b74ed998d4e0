//! Memory of devices and the backends that own it.

use super::device;
use super::device::{DeviceId, DeviceKey};
use crate::tensor::dtype;
use crate::tensor::dtype::DType;
use crate::text;
use crate::text::{push_decimal, push_text};
use vstd::prelude::*;

verus! {

/// Raw bytes that belong to a device.
#[derive(Debug)]
pub struct RawBuffer {
    pub data: Vec<u8>,
    pub device: DeviceId,
}

/// What a backend can fail with.
#[derive(Debug)]
pub enum HalError {
    DeviceNotFound(DeviceId),
    AllocationFailed { size: usize, reason: String },
    DeviceMismatch { expected: DeviceId, got: DeviceId },
    DTypeMismatch { expected: DType, got: DType },
    Unsupported(String),
}

/// The text of a failure.
pub open spec fn hal_text(e: HalError) -> Seq<char> {
    match e {
        HalError::DeviceNotFound(id) => "device not found: "@ + device::device_text(id@),
        HalError::AllocationFailed { size, reason } => "allocation of "@ + text::decimal(
            size as nat,
        ) + " bytes failed: "@ + reason@,
        HalError::DeviceMismatch { expected, got } => "device mismatch: expected "@
            + device::device_text(expected@) + ", got "@ + device::device_text(got@),
        HalError::DTypeMismatch { expected, got } => "dtype mismatch: expected "@
            + dtype::dtype_name(expected) + ", got "@ + dtype::dtype_name(got),
        HalError::Unsupported(msg) => "unsupported: "@ + msg@,
    }
}

impl HalError {
    /// The text of this failure.
    pub fn message(&self) -> (shown: String)
        ensures
            shown@ == hal_text(*self),
    {
        match self {
            HalError::DeviceNotFound(id) => {
                let mut out = "device not found: ".to_owned();
                push_text(&mut out, id.label().as_str());
                out
            },
            HalError::AllocationFailed { size, reason } => {
                let mut out = "allocation of ".to_owned();
                push_decimal(&mut out, *size as u64);
                push_text(&mut out, " bytes failed: ");
                push_text(&mut out, reason.as_str());
                out
            },
            HalError::DeviceMismatch { expected, got } => {
                let mut out = "device mismatch: expected ".to_owned();
                push_text(&mut out, expected.label().as_str());
                push_text(&mut out, ", got ");
                push_text(&mut out, got.label().as_str());
                out
            },
            HalError::DTypeMismatch { expected, got } => {
                let mut out = "dtype mismatch: expected ".to_owned();
                push_text(&mut out, expected.name());
                push_text(&mut out, ", got ");
                push_text(&mut out, got.name());
                out
            },
            HalError::Unsupported(msg) => {
                let mut out = "unsupported: ".to_owned();
                push_text(&mut out, msg.as_str());
                out
            },
        }
    }
}

/// The phase of a hardware fence, for planners and control planes.
#[derive(Debug, Clone, PartialEq, Eq)]
pub struct FenceState {
    pub phase: String,
    pub queue_depth: u32,
    pub synced: bool,
    pub message: String,
}

/// The fill of a device queue.
#[derive(Debug, Clone, Copy, PartialEq, Eq, Structural)]
pub struct QueueState {
    pub depth: u32,
    pub capacity: u32,
    pub draining: bool,
}

/// What operations on a device return.
pub type HalResult<T> = Result<T, HalError>;

/// The least that a device offers: memory, copies and a synchronisation point.
pub trait Backend: Send + Sync + 'static {
    /// The family of the device.
    fn name(&self) -> &str;

    /// The device itself.
    fn device_id(&self) -> DeviceId;

    /// Reserves `size` bytes on the device.
    fn allocate(&self, size: usize) -> HalResult<RawBuffer>;

    /// Copies a buffer into host memory of the same length.
    fn copy_to_host(&self, buf: &RawBuffer, dst: &mut [u8]) -> HalResult<()>
        requires
            old(dst)@.len() == buf.data@.len(),
    ;

    /// Copies host memory into a buffer of the same length.
    fn copy_from_host(&self, src: &[u8], buf: &mut RawBuffer) -> HalResult<()>
        requires
            src@.len() == old(buf).data@.len(),
    ;

    /// Waits until everything submitted so far is done.
    fn synchronize(&self) -> HalResult<()>;
}

/// The reference backend: host memory, and nothing to wait for.
pub struct CpuBackend;

impl Backend for CpuBackend {
    fn name(&self) -> (family: &str)
        ensures
            family@ == "cpu"@,
    {
        "cpu"
    }

    fn device_id(&self) -> (id: DeviceId)
        ensures
            id@ == (DeviceKey { backend: "cpu"@, ordinal: 0 }),
    {
        DeviceId::cpu()
    }

    fn allocate(&self, size: usize) -> (result: HalResult<RawBuffer>)
        ensures
            result matches Ok(buf) && {
                &&& buf.data@ == Seq::new(size as nat, |i: int| 0u8)
                &&& buf.device@ == (DeviceKey { backend: "cpu"@, ordinal: 0 })
            },
    {
        let data: Vec<u8> = vec![0u8; size];
        assert(data@ =~= Seq::new(size as nat, |i: int| 0u8));
        Ok(RawBuffer { data, device: DeviceId::cpu() })
    }

    fn copy_to_host(&self, buf: &RawBuffer, dst: &mut [u8]) -> (result: HalResult<()>)
        ensures
            result is Ok,
            final(dst)@ == buf.data@,
    {
        let len: usize = buf.data.len();
        let mut i: usize = 0;
        while i < len
            invariant
                i <= len == buf.data@.len() == dst@.len(),
                forall|j: int| 0 <= j < i ==> dst@[j] == buf.data@[j],
            decreases len - i,
        {
            dst[i] = buf.data[i];
            i = i + 1;
        }
        assert(dst@ =~= buf.data@);
        Ok(())
    }

    fn copy_from_host(&self, src: &[u8], buf: &mut RawBuffer) -> (result: HalResult<()>)
        ensures
            result is Ok,
            final(buf).data@ == src@,
            final(buf).device == old(buf).device,
    {
        let len: usize = src.len();
        let mut i: usize = 0;
        while i < len
            invariant
                i <= len == src@.len() == buf.data@.len(),
                buf.device == old(buf).device,
                forall|j: int| 0 <= j < i ==> buf.data@[j] == src@[j],
            decreases len - i,
        {
            buf.data.set(i, src[i]);
            i = i + 1;
        }
        assert(buf.data@ =~= src@);
        Ok(())
    }

    fn synchronize(&self) -> (result: HalResult<()>)
        ensures
            result is Ok,
    {
        Ok(())
    }
}

} // verus!
