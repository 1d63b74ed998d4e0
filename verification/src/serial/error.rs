//! Faults of the serial protocol that the host can tell by itself.

use super::opcode;
use super::opcode::{SerialOpcode, SerialStatusCode};
use crate::text;
use crate::text::{push_decimal, push_hex, push_text};
use vstd::prelude::*;

verus! {

/// What can be wrong with bytes, frames, payloads, layouts, responses or the link.
#[derive(Debug, Clone, PartialEq, Eq)]
pub enum SerialProtocolError {
    FrameTooShort { actual: usize },
    InvalidAlignment { actual: usize, alignment: usize },
    BadMagic { found: [u8; 2] },
    UnsupportedVersion(u8),
    UnknownOpcode(u8),
    UnknownStatusCode(u16),
    PayloadTooLarge { actual: usize, max: usize },
    LengthMismatch { expected: usize, actual: usize },
    ChecksumMismatch { expected: u32, actual: u32 },
    NonZeroPadding,
    IncompleteFrame { needed: usize, actual: usize },
    InvalidMatmulPayloadLen { actual: usize },
    InvalidScratchPayloadLen { opcode: SerialOpcode, actual: usize, expected: usize },
    InvalidReadbackPayloadLen { opcode: SerialOpcode, actual: usize, expected: usize },
    InvalidStatusPayloadLen { actual: usize },
    NonZeroReservedField { field: &'static str },
    InvalidMatmulShape { m: usize, k: usize, n: usize },
    InvalidMatmulLayout { reason: String },
    MatmulAddressOverflow { base: u64, element_index: usize, elem_size_bytes: u64 },
    QueueFull { capacity: u32 },
    UnexpectedResponseOpcode { actual: SerialOpcode },
    SequenceMismatch { expected: u32, actual: u32 },
    CommandRejected {
        command_opcode: SerialOpcode,
        response_opcode: SerialOpcode,
        sequence: u32,
        status: SerialStatusCode,
        detail: u32,
    },
    ScratchValueMismatch {
        expected_offset: u32,
        expected_value: u32,
        actual_offset: u32,
        actual_value: u32,
    },
    ResultValueMismatch {
        expected_offset: u32,
        expected_value: u32,
        actual_offset: u32,
        actual_value: u32,
    },
    TransportIo { reason: String },
    ResponseTimeout { timeout_ms: u64 },
}

/// The text of a fault.
pub open spec fn fault_text(e: SerialProtocolError) -> Seq<char> {
    match e {
        SerialProtocolError::FrameTooShort { actual } =>
            "serial frame too short: "@ + text::decimal(actual as nat) + " bytes"@,
        SerialProtocolError::InvalidAlignment { actual, alignment } =>
            "serial frame length "@ + text::decimal(actual as nat) + " is not aligned to "@ + text::decimal(alignment as nat) + " bytes"@,
        SerialProtocolError::BadMagic { found } =>
            "bad serial magic: ["@ + text::hex_digits(found[0] as nat, 2) + ", "@ + text::hex_digits(found[1] as nat, 2) + "]"@,
        SerialProtocolError::UnsupportedVersion(version) =>
            "unsupported serial protocol version: "@ + text::decimal(version as nat),
        SerialProtocolError::UnknownOpcode(opcode) =>
            "unknown serial opcode: 0x"@ + text::hex_digits(opcode as nat, 2),
        SerialProtocolError::UnknownStatusCode(code) =>
            "unknown serial status code: 0x"@ + text::hex_digits(code as nat, 4),
        SerialProtocolError::PayloadTooLarge { actual, max } =>
            "serial payload too large: "@ + text::decimal(actual as nat) + " bytes, max "@ + text::decimal(max as nat),
        SerialProtocolError::LengthMismatch { expected, actual } =>
            "serial frame length mismatch: expected "@ + text::decimal(expected as nat) + ", got "@ + text::decimal(actual as nat),
        SerialProtocolError::ChecksumMismatch { expected, actual } =>
            "serial checksum mismatch: expected 0x"@ + text::hex_digits(expected as nat, 8) + ", got 0x"@ + text::hex_digits(actual as nat, 8),
        SerialProtocolError::NonZeroPadding =>
            "serial frame padding must be zero-filled"@,
        SerialProtocolError::IncompleteFrame { needed, actual } =>
            "serial stream needs "@ + text::decimal(needed as nat) + " bytes for a full frame, got "@ + text::decimal(actual as nat),
        SerialProtocolError::InvalidMatmulPayloadLen { actual } =>
            "MatMul32x32 payload must be 32 bytes, got "@ + text::decimal(actual as nat),
        SerialProtocolError::InvalidScratchPayloadLen { opcode, actual, expected } =>
            opcode::opcode_name(opcode) + " payload must be "@ + text::decimal(expected as nat) + " bytes, got "@ + text::decimal(actual as nat),
        SerialProtocolError::InvalidReadbackPayloadLen { opcode, actual, expected } =>
            opcode::opcode_name(opcode) + " readback payload must be "@ + text::decimal(expected as nat) + " bytes, got "@ + text::decimal(actual as nat),
        SerialProtocolError::InvalidStatusPayloadLen { actual } =>
            "serial status payload must be 8 bytes, got "@ + text::decimal(actual as nat),
        SerialProtocolError::NonZeroReservedField { field } =>
            "reserved serial field must be zero: "@ + field@,
        SerialProtocolError::InvalidMatmulShape { m, k, n } =>
            "MatMul32x32 shape must be non-zero and divisible by 32, got ["@ + text::decimal(m as nat) + ", "@ + text::decimal(k as nat) + ", "@ + text::decimal(n as nat) + "]"@,
        SerialProtocolError::InvalidMatmulLayout { reason } =>
            "invalid MatMul32x32 memory layout: "@ + reason@,
        SerialProtocolError::MatmulAddressOverflow { base, element_index, elem_size_bytes } =>
            "MatMul32x32 address overflow: base=0x"@ + text::hex_digits(base as nat, 16) + ", element_index="@ + text::decimal(element_index as nat) + ", elem_size_bytes="@ + text::decimal(elem_size_bytes as nat),
        SerialProtocolError::QueueFull { capacity } =>
            "serial submit queue is full, capacity="@ + text::decimal(capacity as nat),
        SerialProtocolError::UnexpectedResponseOpcode { actual } =>
            "serial response must be Ack or Error, got "@ + opcode::opcode_name(actual),
        SerialProtocolError::SequenceMismatch { expected, actual } =>
            "serial response sequence mismatch: expected "@ + text::decimal(expected as nat) + ", got "@ + text::decimal(actual as nat),
        SerialProtocolError::CommandRejected { command_opcode, response_opcode, sequence, status, detail } =>
            "serial command "@ + opcode::opcode_name(command_opcode) + " seq="@ + text::decimal(sequence as nat) + " rejected by "@ + opcode::opcode_name(response_opcode) + ": status="@ + opcode::status_name(status) + ", detail=0x"@ + text::hex_digits(detail as nat, 8),
        SerialProtocolError::ScratchValueMismatch { expected_offset, expected_value, actual_offset, actual_value } =>
            "serial scratch readback mismatch: expected offset=0x"@ + text::hex_digits(expected_offset as nat, 8) + " value=0x"@ + text::hex_digits(expected_value as nat, 8) + ", got offset=0x"@ + text::hex_digits(actual_offset as nat, 8) + " value=0x"@ + text::hex_digits(actual_value as nat, 8),
        SerialProtocolError::ResultValueMismatch { expected_offset, expected_value, actual_offset, actual_value } =>
            "serial result readback mismatch: expected offset=0x"@ + text::hex_digits(expected_offset as nat, 8) + " value=0x"@ + text::hex_digits(expected_value as nat, 8) + ", got offset=0x"@ + text::hex_digits(actual_offset as nat, 8) + " value=0x"@ + text::hex_digits(actual_value as nat, 8),
        SerialProtocolError::TransportIo { reason } =>
            "serial transport I/O failed: "@ + reason@,
        SerialProtocolError::ResponseTimeout { timeout_ms } =>
            "serial response timed out after "@ + text::decimal(timeout_ms as nat) + " ms"@,
    }
}

impl SerialProtocolError {
    /// The text of this fault, for logs and reports.
    pub fn message(&self) -> (shown: String)
        ensures
            shown@ == fault_text(*self),
    {
        match self {
            SerialProtocolError::FrameTooShort { actual } => {
                let mut out = "serial frame too short: ".to_owned();
                push_decimal(&mut out, *actual as u64);
                push_text(&mut out, " bytes");
                out
            },
            SerialProtocolError::InvalidAlignment { actual, alignment } => {
                let mut out = "serial frame length ".to_owned();
                push_decimal(&mut out, *actual as u64);
                push_text(&mut out, " is not aligned to ");
                push_decimal(&mut out, *alignment as u64);
                push_text(&mut out, " bytes");
                out
            },
            SerialProtocolError::BadMagic { found } => {
                let mut out = "bad serial magic: [".to_owned();
                push_hex(&mut out, found[0] as u64, 2);
                push_text(&mut out, ", ");
                push_hex(&mut out, found[1] as u64, 2);
                push_text(&mut out, "]");
                out
            },
            SerialProtocolError::UnsupportedVersion(version) => {
                let mut out = "unsupported serial protocol version: ".to_owned();
                push_decimal(&mut out, *version as u64);
                out
            },
            SerialProtocolError::UnknownOpcode(opcode) => {
                let mut out = "unknown serial opcode: 0x".to_owned();
                push_hex(&mut out, *opcode as u64, 2);
                out
            },
            SerialProtocolError::UnknownStatusCode(code) => {
                let mut out = "unknown serial status code: 0x".to_owned();
                push_hex(&mut out, *code as u64, 4);
                out
            },
            SerialProtocolError::PayloadTooLarge { actual, max } => {
                let mut out = "serial payload too large: ".to_owned();
                push_decimal(&mut out, *actual as u64);
                push_text(&mut out, " bytes, max ");
                push_decimal(&mut out, *max as u64);
                out
            },
            SerialProtocolError::LengthMismatch { expected, actual } => {
                let mut out = "serial frame length mismatch: expected ".to_owned();
                push_decimal(&mut out, *expected as u64);
                push_text(&mut out, ", got ");
                push_decimal(&mut out, *actual as u64);
                out
            },
            SerialProtocolError::ChecksumMismatch { expected, actual } => {
                let mut out = "serial checksum mismatch: expected 0x".to_owned();
                push_hex(&mut out, *expected as u64, 8);
                push_text(&mut out, ", got 0x");
                push_hex(&mut out, *actual as u64, 8);
                out
            },
            SerialProtocolError::NonZeroPadding => {
                let out = "serial frame padding must be zero-filled".to_owned();
                out
            },
            SerialProtocolError::IncompleteFrame { needed, actual } => {
                let mut out = "serial stream needs ".to_owned();
                push_decimal(&mut out, *needed as u64);
                push_text(&mut out, " bytes for a full frame, got ");
                push_decimal(&mut out, *actual as u64);
                out
            },
            SerialProtocolError::InvalidMatmulPayloadLen { actual } => {
                let mut out = "MatMul32x32 payload must be 32 bytes, got ".to_owned();
                push_decimal(&mut out, *actual as u64);
                out
            },
            SerialProtocolError::InvalidScratchPayloadLen { opcode, actual, expected } => {
                let mut out = opcode.name().to_owned();
                push_text(&mut out, " payload must be ");
                push_decimal(&mut out, *expected as u64);
                push_text(&mut out, " bytes, got ");
                push_decimal(&mut out, *actual as u64);
                out
            },
            SerialProtocolError::InvalidReadbackPayloadLen { opcode, actual, expected } => {
                let mut out = opcode.name().to_owned();
                push_text(&mut out, " readback payload must be ");
                push_decimal(&mut out, *expected as u64);
                push_text(&mut out, " bytes, got ");
                push_decimal(&mut out, *actual as u64);
                out
            },
            SerialProtocolError::InvalidStatusPayloadLen { actual } => {
                let mut out = "serial status payload must be 8 bytes, got ".to_owned();
                push_decimal(&mut out, *actual as u64);
                out
            },
            SerialProtocolError::NonZeroReservedField { field } => {
                let mut out = "reserved serial field must be zero: ".to_owned();
                push_text(&mut out, field);
                out
            },
            SerialProtocolError::InvalidMatmulShape { m, k, n } => {
                let mut out = "MatMul32x32 shape must be non-zero and divisible by 32, got [".to_owned();
                push_decimal(&mut out, *m as u64);
                push_text(&mut out, ", ");
                push_decimal(&mut out, *k as u64);
                push_text(&mut out, ", ");
                push_decimal(&mut out, *n as u64);
                push_text(&mut out, "]");
                out
            },
            SerialProtocolError::InvalidMatmulLayout { reason } => {
                let mut out = "invalid MatMul32x32 memory layout: ".to_owned();
                push_text(&mut out, reason.as_str());
                out
            },
            SerialProtocolError::MatmulAddressOverflow { base, element_index, elem_size_bytes } => {
                let mut out = "MatMul32x32 address overflow: base=0x".to_owned();
                push_hex(&mut out, *base as u64, 16);
                push_text(&mut out, ", element_index=");
                push_decimal(&mut out, *element_index as u64);
                push_text(&mut out, ", elem_size_bytes=");
                push_decimal(&mut out, *elem_size_bytes as u64);
                out
            },
            SerialProtocolError::QueueFull { capacity } => {
                let mut out = "serial submit queue is full, capacity=".to_owned();
                push_decimal(&mut out, *capacity as u64);
                out
            },
            SerialProtocolError::UnexpectedResponseOpcode { actual } => {
                let mut out = "serial response must be Ack or Error, got ".to_owned();
                push_text(&mut out, actual.name());
                out
            },
            SerialProtocolError::SequenceMismatch { expected, actual } => {
                let mut out = "serial response sequence mismatch: expected ".to_owned();
                push_decimal(&mut out, *expected as u64);
                push_text(&mut out, ", got ");
                push_decimal(&mut out, *actual as u64);
                out
            },
            SerialProtocolError::CommandRejected { command_opcode, response_opcode, sequence, status, detail } => {
                let mut out = "serial command ".to_owned();
                push_text(&mut out, command_opcode.name());
                push_text(&mut out, " seq=");
                push_decimal(&mut out, *sequence as u64);
                push_text(&mut out, " rejected by ");
                push_text(&mut out, response_opcode.name());
                push_text(&mut out, ": status=");
                push_text(&mut out, status.name());
                push_text(&mut out, ", detail=0x");
                push_hex(&mut out, *detail as u64, 8);
                out
            },
            SerialProtocolError::ScratchValueMismatch { expected_offset, expected_value, actual_offset, actual_value } => {
                let mut out = "serial scratch readback mismatch: expected offset=0x".to_owned();
                push_hex(&mut out, *expected_offset as u64, 8);
                push_text(&mut out, " value=0x");
                push_hex(&mut out, *expected_value as u64, 8);
                push_text(&mut out, ", got offset=0x");
                push_hex(&mut out, *actual_offset as u64, 8);
                push_text(&mut out, " value=0x");
                push_hex(&mut out, *actual_value as u64, 8);
                out
            },
            SerialProtocolError::ResultValueMismatch { expected_offset, expected_value, actual_offset, actual_value } => {
                let mut out = "serial result readback mismatch: expected offset=0x".to_owned();
                push_hex(&mut out, *expected_offset as u64, 8);
                push_text(&mut out, " value=0x");
                push_hex(&mut out, *expected_value as u64, 8);
                push_text(&mut out, ", got offset=0x");
                push_hex(&mut out, *actual_offset as u64, 8);
                push_text(&mut out, " value=0x");
                push_hex(&mut out, *actual_value as u64, 8);
                out
            },
            SerialProtocolError::TransportIo { reason } => {
                let mut out = "serial transport I/O failed: ".to_owned();
                push_text(&mut out, reason.as_str());
                out
            },
            SerialProtocolError::ResponseTimeout { timeout_ms } => {
                let mut out = "serial response timed out after ".to_owned();
                push_decimal(&mut out, *timeout_ms as u64);
                push_text(&mut out, " ms");
                out
            },
        }
    }
}

} // verus!
