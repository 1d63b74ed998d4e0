//! The payload of `Ack` and `Error` frames, and the judgement of a response.
//!
//! The payload holds eight bytes: the status (little-endian u16), a reserved u16 that is
//! zero, and a detail (little-endian u32).

use super::error::SerialProtocolError;
use super::frame;
use super::frame::{SerialFrame, WireFrame};
use super::opcode;
use super::opcode::{SerialOpcode, SerialStatusCode};
use crate::bytes;
use crate::bytes::{read_le, write_le};
use vstd::prelude::*;
use vstd::slice::slice_to_vec;

verus! {

/// How the device judged a command, with a detail whose meaning depends on the command.
#[derive(Debug, Clone, Copy, PartialEq, Eq, Structural)]
pub struct SerialStatusPayload {
    pub code: SerialStatusCode,
    pub detail: u32,
}

/// The bytes of a status payload.
pub open spec fn status_bytes(p: SerialStatusPayload) -> Seq<u8> {
    bytes::le_bytes(opcode::status_number(p.code) as nat, 2) + bytes::le_bytes(0, 2)
        + bytes::le_bytes(p.detail as nat, 4)
}

/// What is wrong with `s` as a status payload, if anything.
pub open spec fn status_fault(s: Seq<u8>) -> Option<SerialProtocolError> {
    if s.len() != 8 {
        Some(SerialProtocolError::InvalidStatusPayloadLen { actual: s.len() as usize })
    } else if frame::field(s, 2, 4) != 0 {
        Some(SerialProtocolError::NonZeroReservedField { field: "status_payload.reserved" })
    } else if frame::field(s, 0, 2) > 5 {
        Some(SerialProtocolError::UnknownStatusCode(frame::field(s, 0, 2) as u16))
    } else {
        None
    }
}

impl SerialStatusPayload {
    /// Length of the payload in bytes.
    pub const LEN: usize = 8;

    /// Success, without a detail.
    pub fn ok() -> (p: Self)
        ensures
            p == (SerialStatusPayload { code: SerialStatusCode::Success, detail: 0 }),
    {
        SerialStatusPayload { code: SerialStatusCode::Success, detail: 0 }
    }

    /// The bytes of this payload.
    pub fn encode(self) -> (payload: [u8; 8])
        ensures
            payload@ == status_bytes(self),
    {
        let mut payload: [u8; 8] = [0u8; 8];
        write_le(&mut payload, 0, self.code.as_u16() as u64, 2);
        write_le(&mut payload, 4, self.detail as u64, 4);
        proof {
            bytes::lemma_le_bytes_len(opcode::status_number(self.code) as nat, 2);
            bytes::lemma_le_bytes_len(self.detail as nat, 4);
            reveal_with_fuel(bytes::le_bytes, 3);
            assert(payload@ =~= status_bytes(self));
        }
        payload
    }

    /// Reads a status payload.
    pub fn decode(payload: &[u8]) -> (result: Result<Self, SerialProtocolError>)
        ensures
            result is Ok <==> status_fault(payload@) is None,
            result matches Ok(p) ==> payload@ == status_bytes(p),
            result matches Err(e) ==> status_fault(payload@) == Some(e),
    {
        if payload.len() != Self::LEN {
            return Err(SerialProtocolError::InvalidStatusPayloadLen { actual: payload.len() });
        }
        proof {
            bytes::lemma_byte_ranges();
        }
        if read_le(payload, 2, 2) != 0 {
            return Err(
                SerialProtocolError::NonZeroReservedField { field: "status_payload.reserved" },
            );
        }
        let number: u64 = read_le(payload, 0, 2);
        let code = SerialStatusCode::from_u16(number as u16)?;
        let detail: u64 = read_le(payload, 4, 4);
        proof {
            bytes::law_le_write_of_read(payload@.subrange(0, 2));
            bytes::law_le_write_of_read(payload@.subrange(2, 4));
            bytes::law_le_write_of_read(payload@.subrange(4, 8));
            assert(payload@ =~= payload@.subrange(0, 2) + payload@.subrange(2, 4)
                + payload@.subrange(4, 8));
        }
        Ok(SerialStatusPayload { code, detail: detail as u32 })
    }
}

/// An encoded status payload decodes without a fault, and to nothing but itself.
pub proof fn law_status_roundtrip(p: SerialStatusPayload, q: SerialStatusPayload)
    ensures
        status_fault(status_bytes(p)) is None,
        status_bytes(p) == status_bytes(q) ==> p == q,
{
    lemma_status_fields(p);
    lemma_status_fields(q);
}

proof fn lemma_status_fields(p: SerialStatusPayload)
    ensures
        status_bytes(p).len() == 8,
        frame::field(status_bytes(p), 0, 2) == opcode::status_number(p.code),
        frame::field(status_bytes(p), 2, 4) == 0,
        frame::field(status_bytes(p), 4, 8) == p.detail,
{
    let s = status_bytes(p);
    let number = opcode::status_number(p.code) as nat;
    bytes::lemma_byte_ranges();
    bytes::lemma_le_bytes_len(number, 2);
    bytes::lemma_le_bytes_len(0, 2);
    bytes::lemma_le_bytes_len(p.detail as nat, 4);
    bytes::law_le_read_of_write(number, 2);
    bytes::law_le_read_of_write(0, 2);
    bytes::law_le_read_of_write(p.detail as nat, 4);
    assert(s.subrange(0, 2) =~= bytes::le_bytes(number, 2));
    assert(s.subrange(2, 4) =~= bytes::le_bytes(0, 2));
    assert(s.subrange(4, 8) =~= bytes::le_bytes(p.detail as nat, 4));
}

impl SerialFrame {
    /// The `Ack` response to the command with the same sequence number.
    pub fn ack(sequence: u32, status: SerialStatusPayload) -> (frame: Self)
        ensures
            frame@ == (WireFrame {
                opcode: SerialOpcode::Ack,
                sequence,
                flags: 0,
                payload: status_bytes(status),
            }),
    {
        SerialFrame::new(SerialOpcode::Ack, sequence, slice_to_vec(&status.encode()))
    }

    /// The `Error` response to the command with the same sequence number.
    pub fn error(sequence: u32, status: SerialStatusPayload) -> (frame: Self)
        ensures
            frame@ == (WireFrame {
                opcode: SerialOpcode::Error,
                sequence,
                flags: 0,
                payload: status_bytes(status),
            }),
    {
        SerialFrame::new(SerialOpcode::Error, sequence, slice_to_vec(&status.encode()))
    }
}

/// The status that a payload without a fault holds.
pub open spec fn held_status(s: Seq<u8>) -> SerialStatusPayload {
    choose|p: SerialStatusPayload| s == #[trigger] status_bytes(p)
}

/// Why `response` does not accept `command`, if it does not. Acceptance is an `Ack` with the
/// command's sequence number and a successful status; a busy `Ack` is a rejection.
pub open spec fn rejection(command: WireFrame, response: WireFrame) -> Option<
    SerialProtocolError,
> {
    let status = held_status(response.payload);
    if response.sequence != command.sequence {
        Some(
            SerialProtocolError::SequenceMismatch {
                expected: command.sequence,
                actual: response.sequence,
            },
        )
    } else if response.opcode != SerialOpcode::Ack && response.opcode != SerialOpcode::Error {
        Some(SerialProtocolError::UnexpectedResponseOpcode { actual: response.opcode })
    } else if status_fault(response.payload) is Some {
        status_fault(response.payload)
    } else if response.opcode != SerialOpcode::Ack || status.code != SerialStatusCode::Success {
        Some(
            SerialProtocolError::CommandRejected {
                command_opcode: command.opcode,
                response_opcode: response.opcode,
                sequence: command.sequence,
                status: status.code,
                detail: status.detail,
            },
        )
    } else {
        None
    }
}

/// Judges the device's response to a command.
pub fn validate_status_response(command: &SerialFrame, response: &SerialFrame) -> (result: Result<
    SerialStatusPayload,
    SerialProtocolError,
>)
    ensures
        result is Ok <==> rejection(command@, response@) is None,
        result matches Ok(status) ==> {
            &&& response@.payload == status_bytes(status)
            &&& status.code == SerialStatusCode::Success
        },
        result matches Err(e) ==> rejection(command@, response@) == Some(e),
{
    if response.sequence != command.sequence {
        return Err(
            SerialProtocolError::SequenceMismatch {
                expected: command.sequence,
                actual: response.sequence,
            },
        );
    }
    match response.opcode {
        SerialOpcode::Ack | SerialOpcode::Error => {
            let status = SerialStatusPayload::decode(response.payload.as_slice())?;
            proof {
                law_status_roundtrip(status, held_status(response@.payload));
            }
            if response.opcode == SerialOpcode::Ack && status.code == SerialStatusCode::Success {
                Ok(status)
            } else {
                Err(
                    SerialProtocolError::CommandRejected {
                        command_opcode: command.opcode,
                        response_opcode: response.opcode,
                        sequence: command.sequence,
                        status: status.code,
                        detail: status.detail,
                    },
                )
            }
        },
        actual => Err(SerialProtocolError::UnexpectedResponseOpcode { actual }),
    }
}

/// The standard `Ack` answers its command: the response that a device builds from the
/// command's sequence number and success is never rejected.
pub proof fn law_ack_ok_is_accepted(command: WireFrame, response: WireFrame)
    requires
        response == (WireFrame {
            opcode: SerialOpcode::Ack,
            sequence: command.sequence,
            flags: 0,
            payload: status_bytes(
                SerialStatusPayload { code: SerialStatusCode::Success, detail: 0 },
            ),
        }),
    ensures
        rejection(command, response) is None,
{
    let ok = SerialStatusPayload { code: SerialStatusCode::Success, detail: 0 };
    law_status_roundtrip(ok, held_status(response.payload));
}

/// A status other than success is a rejection, whichever of the two response operations
/// carries it.
pub proof fn law_other_status_is_rejected(
    command: WireFrame,
    response: WireFrame,
    status: SerialStatusPayload,
)
    requires
        response.payload == status_bytes(status),
        status.code != SerialStatusCode::Success,
    ensures
        rejection(command, response) is Some,
{
    law_status_roundtrip(status, held_status(response.payload));
}

} // verus!
