//! Element types and logical devices of tensors.

use crate::text;
use crate::text::{push_decimal, push_text};
use vstd::prelude::*;

verus! {

/// The type of a tensor's elements.
#[derive(Debug, Clone, Copy, PartialEq, Eq, Hash, Structural)]
pub enum DType {
    F32,
    F16,
    BF16,
}

impl Default for DType {
    fn default() -> (dtype: Self)
        ensures
            dtype == DType::F32,
    {
        DType::F32
    }
}

/// The name of an element type.
pub open spec fn dtype_name(dtype: DType) -> Seq<char> {
    match dtype {
        DType::F32 => "F32"@,
        DType::F16 => "F16"@,
        DType::BF16 => "BF16"@,
    }
}

impl DType {
    /// The name of this element type.
    pub fn name(self) -> (shown: &'static str)
        ensures
            shown@ == dtype_name(self),
    {
        match self {
            DType::F32 => "F32",
            DType::F16 => "F16",
            DType::BF16 => "BF16",
        }
    }
}

/// Where a tensor lives.
#[derive(Debug, Clone, Copy, PartialEq, Eq, Hash, Structural)]
pub enum Device {
    CPU,
    Cuda(usize),
    Custom(u16),
}

/// The text of a place.
pub open spec fn place_text(device: Device) -> Seq<char> {
    match device {
        Device::CPU => "CPU"@,
        Device::Cuda(n) => "Cuda("@ + text::decimal(n as nat) + ")"@,
        Device::Custom(n) => "Custom("@ + text::decimal(n as nat) + ")"@,
    }
}

impl Device {
    /// Appends the text of this place.
    pub fn push_name(&self, out: &mut String)
        ensures
            final(out)@ == old(out)@ + place_text(*self),
    {
        match self {
            Device::CPU => push_text(out, "CPU"),
            Device::Cuda(n) => {
                push_text(out, "Cuda(");
                push_decimal(out, *n as u64);
                push_text(out, ")");
                assert(out@ =~= old(out)@ + place_text(*self));
            },
            Device::Custom(n) => {
                push_text(out, "Custom(");
                push_decimal(out, *n as u64);
                push_text(out, ")");
                assert(out@ =~= old(out)@ + place_text(*self));
            },
        }
    }
}

} // verus!
