//! Operation codes and status codes as they stand on the wire.

use super::error::SerialProtocolError;
use vstd::prelude::*;

verus! {

/// The operation that a frame asks for or answers.
#[derive(Debug, Clone, Copy, PartialEq, Eq, Structural)]
pub enum SerialOpcode {
    Ping,
    Pong,
    DeviceInfoRead,
    DeviceInfo,
    Matmul32x32,
    ScratchWrite32,
    ScratchRead32,
    ScratchValue32,
    ResultRead32,
    ResultValue32,
    ResultWindowStatusRead,
    ResultWindowStatus,
    Ack,
    Error,
}

/// The wire byte of an operation.
pub open spec fn opcode_byte(opcode: SerialOpcode) -> u8 {
    match opcode {
        SerialOpcode::Ping => 0x01,
        SerialOpcode::Pong => 0x02,
        SerialOpcode::DeviceInfoRead => 0x03,
        SerialOpcode::DeviceInfo => 0x04,
        SerialOpcode::Matmul32x32 => 0x10,
        SerialOpcode::ScratchWrite32 => 0x20,
        SerialOpcode::ScratchRead32 => 0x21,
        SerialOpcode::ScratchValue32 => 0x22,
        SerialOpcode::ResultRead32 => 0x30,
        SerialOpcode::ResultValue32 => 0x31,
        SerialOpcode::ResultWindowStatusRead => 0x32,
        SerialOpcode::ResultWindowStatus => 0x33,
        SerialOpcode::Ack => 0x7e,
        SerialOpcode::Error => 0x7f,
    }
}

/// Whether some operation has the wire byte `value`.
pub open spec fn is_opcode_byte(value: u8) -> bool {
    exists|opcode: SerialOpcode| #[trigger] opcode_byte(opcode) == value
}

/// The name of an operation as reports print it.
pub open spec fn opcode_name(opcode: SerialOpcode) -> Seq<char> {
    match opcode {
        SerialOpcode::Ping => "Ping"@,
        SerialOpcode::Pong => "Pong"@,
        SerialOpcode::DeviceInfoRead => "DeviceInfoRead"@,
        SerialOpcode::DeviceInfo => "DeviceInfo"@,
        SerialOpcode::Matmul32x32 => "Matmul32x32"@,
        SerialOpcode::ScratchWrite32 => "ScratchWrite32"@,
        SerialOpcode::ScratchRead32 => "ScratchRead32"@,
        SerialOpcode::ScratchValue32 => "ScratchValue32"@,
        SerialOpcode::ResultRead32 => "ResultRead32"@,
        SerialOpcode::ResultValue32 => "ResultValue32"@,
        SerialOpcode::ResultWindowStatusRead => "ResultWindowStatusRead"@,
        SerialOpcode::ResultWindowStatus => "ResultWindowStatus"@,
        SerialOpcode::Ack => "Ack"@,
        SerialOpcode::Error => "Error"@,
    }
}

impl SerialOpcode {
    /// Recovers the operation from its wire byte.
    pub fn from_u8(value: u8) -> (result: Result<Self, SerialProtocolError>)
        ensures
            result is Ok <==> is_opcode_byte(value),
            result matches Ok(opcode) ==> opcode_byte(opcode) == value,
            result matches Err(e) ==> e == SerialProtocolError::UnknownOpcode(value),
    {
        let opcode = match value {
            0x01 => SerialOpcode::Ping,
            0x02 => SerialOpcode::Pong,
            0x03 => SerialOpcode::DeviceInfoRead,
            0x04 => SerialOpcode::DeviceInfo,
            0x10 => SerialOpcode::Matmul32x32,
            0x20 => SerialOpcode::ScratchWrite32,
            0x21 => SerialOpcode::ScratchRead32,
            0x22 => SerialOpcode::ScratchValue32,
            0x30 => SerialOpcode::ResultRead32,
            0x31 => SerialOpcode::ResultValue32,
            0x32 => SerialOpcode::ResultWindowStatusRead,
            0x33 => SerialOpcode::ResultWindowStatus,
            0x7e => SerialOpcode::Ack,
            0x7f => SerialOpcode::Error,
            other => return Err(SerialProtocolError::UnknownOpcode(other)),
        };
        assert(opcode_byte(opcode) == value);
        Ok(opcode)
    }

    /// The wire byte of this operation.
    pub fn as_u8(self) -> (value: u8)
        ensures
            value == opcode_byte(self),
    {
        match self {
            SerialOpcode::Ping => 0x01,
            SerialOpcode::Pong => 0x02,
            SerialOpcode::DeviceInfoRead => 0x03,
            SerialOpcode::DeviceInfo => 0x04,
            SerialOpcode::Matmul32x32 => 0x10,
            SerialOpcode::ScratchWrite32 => 0x20,
            SerialOpcode::ScratchRead32 => 0x21,
            SerialOpcode::ScratchValue32 => 0x22,
            SerialOpcode::ResultRead32 => 0x30,
            SerialOpcode::ResultValue32 => 0x31,
            SerialOpcode::ResultWindowStatusRead => 0x32,
            SerialOpcode::ResultWindowStatus => 0x33,
            SerialOpcode::Ack => 0x7e,
            SerialOpcode::Error => 0x7f,
        }
    }

    /// The name of this operation.
    pub fn name(self) -> (text: &'static str)
        ensures
            text@ == opcode_name(self),
    {
        match self {
            SerialOpcode::Ping => "Ping",
            SerialOpcode::Pong => "Pong",
            SerialOpcode::DeviceInfoRead => "DeviceInfoRead",
            SerialOpcode::DeviceInfo => "DeviceInfo",
            SerialOpcode::Matmul32x32 => "Matmul32x32",
            SerialOpcode::ScratchWrite32 => "ScratchWrite32",
            SerialOpcode::ScratchRead32 => "ScratchRead32",
            SerialOpcode::ScratchValue32 => "ScratchValue32",
            SerialOpcode::ResultRead32 => "ResultRead32",
            SerialOpcode::ResultValue32 => "ResultValue32",
            SerialOpcode::ResultWindowStatusRead => "ResultWindowStatusRead",
            SerialOpcode::ResultWindowStatus => "ResultWindowStatus",
            SerialOpcode::Ack => "Ack",
            SerialOpcode::Error => "Error",
        }
    }
}

/// No two operations share a wire byte.
pub proof fn law_opcode_bytes_are_distinct(a: SerialOpcode, b: SerialOpcode)
    ensures
        opcode_byte(a) == opcode_byte(b) ==> a == b,
{
}

/// How the device judged a command.
#[derive(Debug, Clone, Copy, PartialEq, Eq, Structural)]
pub enum SerialStatusCode {
    Success,
    BadFrame,
    UnsupportedOpcode,
    InvalidPayload,
    Busy,
    HardwareFault,
}

/// The wire number of a status.
pub open spec fn status_number(code: SerialStatusCode) -> u16 {
    match code {
        SerialStatusCode::Success => 0,
        SerialStatusCode::BadFrame => 1,
        SerialStatusCode::UnsupportedOpcode => 2,
        SerialStatusCode::InvalidPayload => 3,
        SerialStatusCode::Busy => 4,
        SerialStatusCode::HardwareFault => 5,
    }
}

/// The name of a status as reports print it.
pub open spec fn status_name(code: SerialStatusCode) -> Seq<char> {
    match code {
        SerialStatusCode::Success => "Ok"@,
        SerialStatusCode::BadFrame => "BadFrame"@,
        SerialStatusCode::UnsupportedOpcode => "UnsupportedOpcode"@,
        SerialStatusCode::InvalidPayload => "InvalidPayload"@,
        SerialStatusCode::Busy => "Busy"@,
        SerialStatusCode::HardwareFault => "HardwareFault"@,
    }
}

impl SerialStatusCode {
    /// Recovers the status from its wire number.
    pub fn from_u16(value: u16) -> (result: Result<Self, SerialProtocolError>)
        ensures
            result is Ok <==> value <= 5,
            result matches Ok(code) ==> status_number(code) == value,
            result matches Err(e) ==> e == SerialProtocolError::UnknownStatusCode(value),
    {
        match value {
            0 => Ok(SerialStatusCode::Success),
            1 => Ok(SerialStatusCode::BadFrame),
            2 => Ok(SerialStatusCode::UnsupportedOpcode),
            3 => Ok(SerialStatusCode::InvalidPayload),
            4 => Ok(SerialStatusCode::Busy),
            5 => Ok(SerialStatusCode::HardwareFault),
            other => Err(SerialProtocolError::UnknownStatusCode(other)),
        }
    }

    /// The wire number of this status.
    pub fn as_u16(self) -> (value: u16)
        ensures
            value == status_number(self),
            value <= 5,
    {
        match self {
            SerialStatusCode::Success => 0,
            SerialStatusCode::BadFrame => 1,
            SerialStatusCode::UnsupportedOpcode => 2,
            SerialStatusCode::InvalidPayload => 3,
            SerialStatusCode::Busy => 4,
            SerialStatusCode::HardwareFault => 5,
        }
    }

    /// The name of this status.
    pub fn name(self) -> (text: &'static str)
        ensures
            text@ == status_name(self),
    {
        match self {
            SerialStatusCode::Success => "Ok",
            SerialStatusCode::BadFrame => "BadFrame",
            SerialStatusCode::UnsupportedOpcode => "UnsupportedOpcode",
            SerialStatusCode::InvalidPayload => "InvalidPayload",
            SerialStatusCode::Busy => "Busy",
            SerialStatusCode::HardwareFault => "HardwareFault",
        }
    }
}

} // verus!
