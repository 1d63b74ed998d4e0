//! The payloads of commands and of the data frames that answer them.

use super::error::SerialProtocolError;
use super::frame;
use super::frame::{SerialFrame, WireFrame};
use super::opcode::SerialOpcode;
use crate::bytes;
use crate::bytes::{read_le, write_le};
use vstd::prelude::*;
use vstd::slice::slice_to_vec;

verus! {

/// The output tile is cleared before the partial sum is written.
pub const MATMUL32X32_FLAG_CLEAR_OUTPUT: u32 = 1;

/// The partial sum is added to the output tile.
pub const MATMUL32X32_FLAG_ACCUMULATE: u32 = 2;

/// The command is the last one for its output tile.
pub const MATMUL32X32_FLAG_LAST_K_TILE: u32 = 4;

/// How many words of the result window a smoke run reads.
pub const TANG9K_RESULT_WINDOW_SMOKE_WORDS: usize = 4;

/// Distance in bytes between two words of the result window.
pub const TANG9K_RESULT_WINDOW_WORD_STRIDE_BYTES: u32 = 4;

/// The device runs matrix products of 32 by 32 tiles.
pub const TANG9K_CAP_MATMUL32X32: u32 = 1;

/// The device has scratch words.
pub const TANG9K_CAP_SCRATCH32: u32 = 2;

/// The device has a result window.
pub const TANG9K_CAP_RESULT_WINDOW: u32 = 4;

/// The device reports the state of its result window.
pub const TANG9K_CAP_RESULT_WINDOW_STATUS: u32 = 8;

/// The kind of a Tang9k board that answers over its UART.
pub const TANG9K_DEVICE_KIND_UART_RESPONDER: u8 = 1;

/// Clock of the UART responder in hertz.
pub const TANG9K_UART_RESPONDER_CLK_HZ: u32 = 27_000_000;

/// Baud rate of the UART responder.
pub const TANG9K_UART_RESPONDER_BAUD: u32 = 115_200;

/// Build number of the UART responder.
pub const TANG9K_UART_RESPONDER_BUILD_ID: u32 = 1;


/// One 32 by 32 tile product, given by the device offsets of its operands and its result.
#[derive(Debug, Clone, Copy, PartialEq, Eq, Structural)]
pub struct Matmul32x32Command {
    pub tile_id: u32,
    pub a_offset: u64,
    pub b_offset: u64,
    pub out_offset: u64,
    pub flags: u32,
}

/// The bytes of a [`Matmul32x32Command`].
pub open spec fn matmul_bytes(p: Matmul32x32Command) -> Seq<u8> {
    bytes::le_bytes(p.tile_id as nat, 4) + bytes::le_bytes(p.a_offset as nat, 8) + bytes::le_bytes(p.b_offset as nat, 8) + bytes::le_bytes(p.out_offset as nat, 8) + bytes::le_bytes(p.flags as nat, 4)
}

impl Matmul32x32Command {
    /// Rows of the left operand.
    pub const M: usize = 32;

    /// Columns of the left operand.
    pub const K: usize = 32;

    /// Columns of the right operand.
    pub const N: usize = 32;

    /// Length of the payload in bytes.
    pub const PAYLOAD_LEN: usize = 32;

    /// The command from its fields, without flags.
    pub fn new(tile_id: u32, a_offset: u64, b_offset: u64, out_offset: u64) -> (p: Self)
        ensures
            p == (Matmul32x32Command { tile_id, a_offset, b_offset, out_offset, flags: 0 }),
    {
        Matmul32x32Command { tile_id, a_offset, b_offset, out_offset, flags: 0 }
    }

    /// The shape of the product: rows, inner dimension, columns.
    pub fn shape(&self) -> (dims: (usize, usize, usize))
        ensures
            dims == (32usize, 32usize, 32usize),
    {
        (Self::M, Self::K, Self::N)
    }

    /// The bytes of the payload.
    pub fn encode_payload(&self) -> (payload: [u8; 32])
        ensures
            payload@ == matmul_bytes(*self),
    {
        let mut payload: [u8; 32] = [0u8; 32];
        write_le(&mut payload, 0, self.tile_id as u64, 4);
        write_le(&mut payload, 4, self.a_offset as u64, 8);
        write_le(&mut payload, 12, self.b_offset as u64, 8);
        write_le(&mut payload, 20, self.out_offset as u64, 8);
        write_le(&mut payload, 28, self.flags as u64, 4);
        proof {
            bytes::lemma_le_bytes_len(self.tile_id as nat, 4);
            bytes::lemma_le_bytes_len(self.a_offset as nat, 8);
            bytes::lemma_le_bytes_len(self.b_offset as nat, 8);
            bytes::lemma_le_bytes_len(self.out_offset as nat, 8);
            bytes::lemma_le_bytes_len(self.flags as nat, 4);
            assert(payload@ =~= matmul_bytes(*self));
        }
        payload
    }

    /// Reads the payload.
    pub fn decode_payload(payload: &[u8]) -> (result: Result<Self, SerialProtocolError>)
        ensures
            result is Ok <==> payload@.len() == 32,
            result matches Ok(p) ==> payload@ == matmul_bytes(p),
            result matches Err(e) ==> e == (SerialProtocolError::InvalidMatmulPayloadLen { actual: payload@.len() as usize }),
    {
        if payload.len() != Self::PAYLOAD_LEN {
            return Err(SerialProtocolError::InvalidMatmulPayloadLen { actual: payload.len() });
        }
        proof {
            bytes::lemma_byte_ranges();
            bytes::law_le_write_of_read(payload@.subrange(0, 4));
            bytes::law_le_write_of_read(payload@.subrange(4, 12));
            bytes::law_le_write_of_read(payload@.subrange(12, 20));
            bytes::law_le_write_of_read(payload@.subrange(20, 28));
            bytes::law_le_write_of_read(payload@.subrange(28, 32));
            assert(payload@ =~= payload@.subrange(0, 4) + payload@.subrange(4, 12) + payload@.subrange(12, 20) + payload@.subrange(20, 28) + payload@.subrange(28, 32));
        }
        let tile_id: u64 = read_le(payload, 0, 4);
        let a_offset: u64 = read_le(payload, 4, 8);
        let b_offset: u64 = read_le(payload, 12, 8);
        let out_offset: u64 = read_le(payload, 20, 8);
        let flags: u64 = read_le(payload, 28, 4);
        Ok(Matmul32x32Command { tile_id: tile_id as u32, a_offset, b_offset, out_offset, flags: flags as u32 })
    }

    /// The frame that carries this payload.
    pub fn into_frame(self, sequence: u32) -> (frame: SerialFrame)
        ensures
            frame@ == (WireFrame {
                opcode: SerialOpcode::Matmul32x32,
                sequence,
                flags: 0,
                payload: matmul_bytes(self),
            }),
            frame@.fits(),
    {
        proof {
            bytes::lemma_le_bytes_len(self.tile_id as nat, 4);
            bytes::lemma_le_bytes_len(self.a_offset as nat, 8);
            bytes::lemma_le_bytes_len(self.b_offset as nat, 8);
            bytes::lemma_le_bytes_len(self.out_offset as nat, 8);
            bytes::lemma_le_bytes_len(self.flags as nat, 4);
        }
        SerialFrame::new(SerialOpcode::Matmul32x32, sequence, slice_to_vec(&self.encode_payload()))
    }
}

/// A [`Matmul32x32Command`] has the length that its reader asks for, and no other has the same bytes.
pub proof fn law_matmul_roundtrip(p: Matmul32x32Command, q: Matmul32x32Command)
    ensures
        matmul_bytes(p).len() == 32,
        matmul_bytes(p) == matmul_bytes(q) ==> p == q,
{
    bytes::lemma_byte_ranges();
    bytes::lemma_le_bytes_len(p.tile_id as nat, 4);
    bytes::law_le_read_of_write(p.tile_id as nat, 4);
    bytes::lemma_le_bytes_len(p.a_offset as nat, 8);
    bytes::law_le_read_of_write(p.a_offset as nat, 8);
    bytes::lemma_le_bytes_len(p.b_offset as nat, 8);
    bytes::law_le_read_of_write(p.b_offset as nat, 8);
    bytes::lemma_le_bytes_len(p.out_offset as nat, 8);
    bytes::law_le_read_of_write(p.out_offset as nat, 8);
    bytes::lemma_le_bytes_len(p.flags as nat, 4);
    bytes::law_le_read_of_write(p.flags as nat, 4);
    assert(matmul_bytes(p).subrange(0, 4) =~= bytes::le_bytes(p.tile_id as nat, 4));
    assert(matmul_bytes(p).subrange(4, 12) =~= bytes::le_bytes(p.a_offset as nat, 8));
    assert(matmul_bytes(p).subrange(12, 20) =~= bytes::le_bytes(p.b_offset as nat, 8));
    assert(matmul_bytes(p).subrange(20, 28) =~= bytes::le_bytes(p.out_offset as nat, 8));
    assert(matmul_bytes(p).subrange(28, 32) =~= bytes::le_bytes(p.flags as nat, 4));
    bytes::lemma_le_bytes_len(q.tile_id as nat, 4);
    bytes::law_le_read_of_write(q.tile_id as nat, 4);
    bytes::lemma_le_bytes_len(q.a_offset as nat, 8);
    bytes::law_le_read_of_write(q.a_offset as nat, 8);
    bytes::lemma_le_bytes_len(q.b_offset as nat, 8);
    bytes::law_le_read_of_write(q.b_offset as nat, 8);
    bytes::lemma_le_bytes_len(q.out_offset as nat, 8);
    bytes::law_le_read_of_write(q.out_offset as nat, 8);
    bytes::lemma_le_bytes_len(q.flags as nat, 4);
    bytes::law_le_read_of_write(q.flags as nat, 4);
    assert(matmul_bytes(q).subrange(0, 4) =~= bytes::le_bytes(q.tile_id as nat, 4));
    assert(matmul_bytes(q).subrange(4, 12) =~= bytes::le_bytes(q.a_offset as nat, 8));
    assert(matmul_bytes(q).subrange(12, 20) =~= bytes::le_bytes(q.b_offset as nat, 8));
    assert(matmul_bytes(q).subrange(20, 28) =~= bytes::le_bytes(q.out_offset as nat, 8));
    assert(matmul_bytes(q).subrange(28, 32) =~= bytes::le_bytes(q.flags as nat, 4));
}

/// Writes one scratch word.
#[derive(Debug, Clone, Copy, PartialEq, Eq, Structural)]
pub struct ScratchWrite32Command {
    pub offset: u32,
    pub value: u32,
}

/// The bytes of a [`ScratchWrite32Command`].
pub open spec fn scratch_write_bytes(p: ScratchWrite32Command) -> Seq<u8> {
    bytes::le_bytes(p.offset as nat, 4) + bytes::le_bytes(p.value as nat, 4)
}

impl ScratchWrite32Command {
    /// Length of the payload in bytes.
    pub const PAYLOAD_LEN: usize = 8;

    /// The command from its fields.
    pub fn new(offset: u32, value: u32) -> (p: Self)
        ensures
            p == (ScratchWrite32Command { offset, value }),
    {
        ScratchWrite32Command { offset, value }
    }

    /// The bytes of the payload.
    pub fn encode_payload(&self) -> (payload: [u8; 8])
        ensures
            payload@ == scratch_write_bytes(*self),
    {
        let mut payload: [u8; 8] = [0u8; 8];
        write_le(&mut payload, 0, self.offset as u64, 4);
        write_le(&mut payload, 4, self.value as u64, 4);
        proof {
            bytes::lemma_le_bytes_len(self.offset as nat, 4);
            bytes::lemma_le_bytes_len(self.value as nat, 4);
            assert(payload@ =~= scratch_write_bytes(*self));
        }
        payload
    }

    /// Reads the payload.
    pub fn decode_payload(payload: &[u8]) -> (result: Result<Self, SerialProtocolError>)
        ensures
            result is Ok <==> payload@.len() == 8,
            result matches Ok(p) ==> payload@ == scratch_write_bytes(p),
            result matches Err(e) ==> e == (SerialProtocolError::InvalidScratchPayloadLen { opcode: SerialOpcode::ScratchWrite32, actual: payload@.len() as usize, expected: 8 }),
    {
        if payload.len() != Self::PAYLOAD_LEN {
            return Err(SerialProtocolError::InvalidScratchPayloadLen { opcode: SerialOpcode::ScratchWrite32, actual: payload.len(), expected: 8 });
        }
        proof {
            bytes::lemma_byte_ranges();
            bytes::law_le_write_of_read(payload@.subrange(0, 4));
            bytes::law_le_write_of_read(payload@.subrange(4, 8));
            assert(payload@ =~= payload@.subrange(0, 4) + payload@.subrange(4, 8));
        }
        let offset: u64 = read_le(payload, 0, 4);
        let value: u64 = read_le(payload, 4, 4);
        Ok(ScratchWrite32Command { offset: offset as u32, value: value as u32 })
    }

    /// The frame that carries this payload.
    pub fn into_frame(self, sequence: u32) -> (frame: SerialFrame)
        ensures
            frame@ == (WireFrame {
                opcode: SerialOpcode::ScratchWrite32,
                sequence,
                flags: 0,
                payload: scratch_write_bytes(self),
            }),
            frame@.fits(),
    {
        proof {
            bytes::lemma_le_bytes_len(self.offset as nat, 4);
            bytes::lemma_le_bytes_len(self.value as nat, 4);
        }
        SerialFrame::new(SerialOpcode::ScratchWrite32, sequence, slice_to_vec(&self.encode_payload()))
    }
}

/// A [`ScratchWrite32Command`] has the length that its reader asks for, and no other has the same bytes.
pub proof fn law_scratch_write_roundtrip(p: ScratchWrite32Command, q: ScratchWrite32Command)
    ensures
        scratch_write_bytes(p).len() == 8,
        scratch_write_bytes(p) == scratch_write_bytes(q) ==> p == q,
{
    bytes::lemma_byte_ranges();
    bytes::lemma_le_bytes_len(p.offset as nat, 4);
    bytes::law_le_read_of_write(p.offset as nat, 4);
    bytes::lemma_le_bytes_len(p.value as nat, 4);
    bytes::law_le_read_of_write(p.value as nat, 4);
    assert(scratch_write_bytes(p).subrange(0, 4) =~= bytes::le_bytes(p.offset as nat, 4));
    assert(scratch_write_bytes(p).subrange(4, 8) =~= bytes::le_bytes(p.value as nat, 4));
    bytes::lemma_le_bytes_len(q.offset as nat, 4);
    bytes::law_le_read_of_write(q.offset as nat, 4);
    bytes::lemma_le_bytes_len(q.value as nat, 4);
    bytes::law_le_read_of_write(q.value as nat, 4);
    assert(scratch_write_bytes(q).subrange(0, 4) =~= bytes::le_bytes(q.offset as nat, 4));
    assert(scratch_write_bytes(q).subrange(4, 8) =~= bytes::le_bytes(q.value as nat, 4));
}

/// Reads one scratch word.
#[derive(Debug, Clone, Copy, PartialEq, Eq, Structural)]
pub struct ScratchRead32Command {
    pub offset: u32,
}

/// The bytes of a [`ScratchRead32Command`].
pub open spec fn scratch_read_bytes(p: ScratchRead32Command) -> Seq<u8> {
    bytes::le_bytes(p.offset as nat, 4)
}

impl ScratchRead32Command {
    /// Length of the payload in bytes.
    pub const PAYLOAD_LEN: usize = 4;

    /// The command from its fields.
    pub fn new(offset: u32) -> (p: Self)
        ensures
            p == (ScratchRead32Command { offset }),
    {
        ScratchRead32Command { offset }
    }

    /// The bytes of the payload.
    pub fn encode_payload(&self) -> (payload: [u8; 4])
        ensures
            payload@ == scratch_read_bytes(*self),
    {
        let mut payload: [u8; 4] = [0u8; 4];
        write_le(&mut payload, 0, self.offset as u64, 4);
        proof {
            bytes::lemma_le_bytes_len(self.offset as nat, 4);
            assert(payload@ =~= scratch_read_bytes(*self));
        }
        payload
    }

    /// Reads the payload.
    pub fn decode_payload(payload: &[u8]) -> (result: Result<Self, SerialProtocolError>)
        ensures
            result is Ok <==> payload@.len() == 4,
            result matches Ok(p) ==> payload@ == scratch_read_bytes(p),
            result matches Err(e) ==> e == (SerialProtocolError::InvalidScratchPayloadLen { opcode: SerialOpcode::ScratchRead32, actual: payload@.len() as usize, expected: 4 }),
    {
        if payload.len() != Self::PAYLOAD_LEN {
            return Err(SerialProtocolError::InvalidScratchPayloadLen { opcode: SerialOpcode::ScratchRead32, actual: payload.len(), expected: 4 });
        }
        proof {
            bytes::lemma_byte_ranges();
            bytes::law_le_write_of_read(payload@.subrange(0, 4));
            assert(payload@ =~= payload@.subrange(0, 4));
        }
        let offset: u64 = read_le(payload, 0, 4);
        Ok(ScratchRead32Command { offset: offset as u32 })
    }

    /// The frame that carries this payload.
    pub fn into_frame(self, sequence: u32) -> (frame: SerialFrame)
        ensures
            frame@ == (WireFrame {
                opcode: SerialOpcode::ScratchRead32,
                sequence,
                flags: 0,
                payload: scratch_read_bytes(self),
            }),
            frame@.fits(),
    {
        proof {
            bytes::lemma_le_bytes_len(self.offset as nat, 4);
        }
        SerialFrame::new(SerialOpcode::ScratchRead32, sequence, slice_to_vec(&self.encode_payload()))
    }
}

/// A [`ScratchRead32Command`] has the length that its reader asks for, and no other has the same bytes.
pub proof fn law_scratch_read_roundtrip(p: ScratchRead32Command, q: ScratchRead32Command)
    ensures
        scratch_read_bytes(p).len() == 4,
        scratch_read_bytes(p) == scratch_read_bytes(q) ==> p == q,
{
    bytes::lemma_byte_ranges();
    bytes::lemma_le_bytes_len(p.offset as nat, 4);
    bytes::law_le_read_of_write(p.offset as nat, 4);
    assert(scratch_read_bytes(p).subrange(0, 4) =~= bytes::le_bytes(p.offset as nat, 4));
    bytes::lemma_le_bytes_len(q.offset as nat, 4);
    bytes::law_le_read_of_write(q.offset as nat, 4);
    assert(scratch_read_bytes(q).subrange(0, 4) =~= bytes::le_bytes(q.offset as nat, 4));
}

/// The answer to a scratch read.
#[derive(Debug, Clone, Copy, PartialEq, Eq, Structural)]
pub struct ScratchValue32Payload {
    pub offset: u32,
    pub value: u32,
}

/// The bytes of a [`ScratchValue32Payload`].
pub open spec fn scratch_value_bytes(p: ScratchValue32Payload) -> Seq<u8> {
    bytes::le_bytes(p.offset as nat, 4) + bytes::le_bytes(p.value as nat, 4)
}

impl ScratchValue32Payload {
    /// Length of the payload in bytes.
    pub const PAYLOAD_LEN: usize = 8;

    /// The payload from its fields.
    pub fn new(offset: u32, value: u32) -> (p: Self)
        ensures
            p == (ScratchValue32Payload { offset, value }),
    {
        ScratchValue32Payload { offset, value }
    }

    /// The bytes of the payload.
    pub fn encode_payload(&self) -> (payload: [u8; 8])
        ensures
            payload@ == scratch_value_bytes(*self),
    {
        let mut payload: [u8; 8] = [0u8; 8];
        write_le(&mut payload, 0, self.offset as u64, 4);
        write_le(&mut payload, 4, self.value as u64, 4);
        proof {
            bytes::lemma_le_bytes_len(self.offset as nat, 4);
            bytes::lemma_le_bytes_len(self.value as nat, 4);
            assert(payload@ =~= scratch_value_bytes(*self));
        }
        payload
    }

    /// Reads the payload.
    pub fn decode_payload(payload: &[u8]) -> (result: Result<Self, SerialProtocolError>)
        ensures
            result is Ok <==> payload@.len() == 8,
            result matches Ok(p) ==> payload@ == scratch_value_bytes(p),
            result matches Err(e) ==> e == (SerialProtocolError::InvalidScratchPayloadLen { opcode: SerialOpcode::ScratchValue32, actual: payload@.len() as usize, expected: 8 }),
    {
        if payload.len() != Self::PAYLOAD_LEN {
            return Err(SerialProtocolError::InvalidScratchPayloadLen { opcode: SerialOpcode::ScratchValue32, actual: payload.len(), expected: 8 });
        }
        proof {
            bytes::lemma_byte_ranges();
            bytes::law_le_write_of_read(payload@.subrange(0, 4));
            bytes::law_le_write_of_read(payload@.subrange(4, 8));
            assert(payload@ =~= payload@.subrange(0, 4) + payload@.subrange(4, 8));
        }
        let offset: u64 = read_le(payload, 0, 4);
        let value: u64 = read_le(payload, 4, 4);
        Ok(ScratchValue32Payload { offset: offset as u32, value: value as u32 })
    }

    /// The frame that carries this payload.
    pub fn into_frame(self, sequence: u32) -> (frame: SerialFrame)
        ensures
            frame@ == (WireFrame {
                opcode: SerialOpcode::ScratchValue32,
                sequence,
                flags: 0,
                payload: scratch_value_bytes(self),
            }),
            frame@.fits(),
    {
        proof {
            bytes::lemma_le_bytes_len(self.offset as nat, 4);
            bytes::lemma_le_bytes_len(self.value as nat, 4);
        }
        SerialFrame::new(SerialOpcode::ScratchValue32, sequence, slice_to_vec(&self.encode_payload()))
    }
}

/// A [`ScratchValue32Payload`] has the length that its reader asks for, and no other has the same bytes.
pub proof fn law_scratch_value_roundtrip(p: ScratchValue32Payload, q: ScratchValue32Payload)
    ensures
        scratch_value_bytes(p).len() == 8,
        scratch_value_bytes(p) == scratch_value_bytes(q) ==> p == q,
{
    bytes::lemma_byte_ranges();
    bytes::lemma_le_bytes_len(p.offset as nat, 4);
    bytes::law_le_read_of_write(p.offset as nat, 4);
    bytes::lemma_le_bytes_len(p.value as nat, 4);
    bytes::law_le_read_of_write(p.value as nat, 4);
    assert(scratch_value_bytes(p).subrange(0, 4) =~= bytes::le_bytes(p.offset as nat, 4));
    assert(scratch_value_bytes(p).subrange(4, 8) =~= bytes::le_bytes(p.value as nat, 4));
    bytes::lemma_le_bytes_len(q.offset as nat, 4);
    bytes::law_le_read_of_write(q.offset as nat, 4);
    bytes::lemma_le_bytes_len(q.value as nat, 4);
    bytes::law_le_read_of_write(q.value as nat, 4);
    assert(scratch_value_bytes(q).subrange(0, 4) =~= bytes::le_bytes(q.offset as nat, 4));
    assert(scratch_value_bytes(q).subrange(4, 8) =~= bytes::le_bytes(q.value as nat, 4));
}

/// Reads one word of the result window.
#[derive(Debug, Clone, Copy, PartialEq, Eq, Structural)]
pub struct ResultRead32Command {
    pub offset: u32,
}

/// The bytes of a [`ResultRead32Command`].
pub open spec fn result_read_bytes(p: ResultRead32Command) -> Seq<u8> {
    bytes::le_bytes(p.offset as nat, 4)
}

impl ResultRead32Command {
    /// Length of the payload in bytes.
    pub const PAYLOAD_LEN: usize = 4;

    /// The command from its fields.
    pub fn new(offset: u32) -> (p: Self)
        ensures
            p == (ResultRead32Command { offset }),
    {
        ResultRead32Command { offset }
    }

    /// The bytes of the payload.
    pub fn encode_payload(&self) -> (payload: [u8; 4])
        ensures
            payload@ == result_read_bytes(*self),
    {
        let mut payload: [u8; 4] = [0u8; 4];
        write_le(&mut payload, 0, self.offset as u64, 4);
        proof {
            bytes::lemma_le_bytes_len(self.offset as nat, 4);
            assert(payload@ =~= result_read_bytes(*self));
        }
        payload
    }

    /// Reads the payload.
    pub fn decode_payload(payload: &[u8]) -> (result: Result<Self, SerialProtocolError>)
        ensures
            result is Ok <==> payload@.len() == 4,
            result matches Ok(p) ==> payload@ == result_read_bytes(p),
            result matches Err(e) ==> e == (SerialProtocolError::InvalidReadbackPayloadLen { opcode: SerialOpcode::ResultRead32, actual: payload@.len() as usize, expected: 4 }),
    {
        if payload.len() != Self::PAYLOAD_LEN {
            return Err(SerialProtocolError::InvalidReadbackPayloadLen { opcode: SerialOpcode::ResultRead32, actual: payload.len(), expected: 4 });
        }
        proof {
            bytes::lemma_byte_ranges();
            bytes::law_le_write_of_read(payload@.subrange(0, 4));
            assert(payload@ =~= payload@.subrange(0, 4));
        }
        let offset: u64 = read_le(payload, 0, 4);
        Ok(ResultRead32Command { offset: offset as u32 })
    }

    /// The frame that carries this payload.
    pub fn into_frame(self, sequence: u32) -> (frame: SerialFrame)
        ensures
            frame@ == (WireFrame {
                opcode: SerialOpcode::ResultRead32,
                sequence,
                flags: 0,
                payload: result_read_bytes(self),
            }),
            frame@.fits(),
    {
        proof {
            bytes::lemma_le_bytes_len(self.offset as nat, 4);
        }
        SerialFrame::new(SerialOpcode::ResultRead32, sequence, slice_to_vec(&self.encode_payload()))
    }
}

/// A [`ResultRead32Command`] has the length that its reader asks for, and no other has the same bytes.
pub proof fn law_result_read_roundtrip(p: ResultRead32Command, q: ResultRead32Command)
    ensures
        result_read_bytes(p).len() == 4,
        result_read_bytes(p) == result_read_bytes(q) ==> p == q,
{
    bytes::lemma_byte_ranges();
    bytes::lemma_le_bytes_len(p.offset as nat, 4);
    bytes::law_le_read_of_write(p.offset as nat, 4);
    assert(result_read_bytes(p).subrange(0, 4) =~= bytes::le_bytes(p.offset as nat, 4));
    bytes::lemma_le_bytes_len(q.offset as nat, 4);
    bytes::law_le_read_of_write(q.offset as nat, 4);
    assert(result_read_bytes(q).subrange(0, 4) =~= bytes::le_bytes(q.offset as nat, 4));
}

/// The answer to a result read.
#[derive(Debug, Clone, Copy, PartialEq, Eq, Structural)]
pub struct ResultValue32Payload {
    pub offset: u32,
    pub value: u32,
}

/// The bytes of a [`ResultValue32Payload`].
pub open spec fn result_value_bytes(p: ResultValue32Payload) -> Seq<u8> {
    bytes::le_bytes(p.offset as nat, 4) + bytes::le_bytes(p.value as nat, 4)
}

impl ResultValue32Payload {
    /// Length of the payload in bytes.
    pub const PAYLOAD_LEN: usize = 8;

    /// The payload from its fields.
    pub fn new(offset: u32, value: u32) -> (p: Self)
        ensures
            p == (ResultValue32Payload { offset, value }),
    {
        ResultValue32Payload { offset, value }
    }

    /// The bytes of the payload.
    pub fn encode_payload(&self) -> (payload: [u8; 8])
        ensures
            payload@ == result_value_bytes(*self),
    {
        let mut payload: [u8; 8] = [0u8; 8];
        write_le(&mut payload, 0, self.offset as u64, 4);
        write_le(&mut payload, 4, self.value as u64, 4);
        proof {
            bytes::lemma_le_bytes_len(self.offset as nat, 4);
            bytes::lemma_le_bytes_len(self.value as nat, 4);
            assert(payload@ =~= result_value_bytes(*self));
        }
        payload
    }

    /// Reads the payload.
    pub fn decode_payload(payload: &[u8]) -> (result: Result<Self, SerialProtocolError>)
        ensures
            result is Ok <==> payload@.len() == 8,
            result matches Ok(p) ==> payload@ == result_value_bytes(p),
            result matches Err(e) ==> e == (SerialProtocolError::InvalidReadbackPayloadLen { opcode: SerialOpcode::ResultValue32, actual: payload@.len() as usize, expected: 8 }),
    {
        if payload.len() != Self::PAYLOAD_LEN {
            return Err(SerialProtocolError::InvalidReadbackPayloadLen { opcode: SerialOpcode::ResultValue32, actual: payload.len(), expected: 8 });
        }
        proof {
            bytes::lemma_byte_ranges();
            bytes::law_le_write_of_read(payload@.subrange(0, 4));
            bytes::law_le_write_of_read(payload@.subrange(4, 8));
            assert(payload@ =~= payload@.subrange(0, 4) + payload@.subrange(4, 8));
        }
        let offset: u64 = read_le(payload, 0, 4);
        let value: u64 = read_le(payload, 4, 4);
        Ok(ResultValue32Payload { offset: offset as u32, value: value as u32 })
    }

    /// The frame that carries this payload.
    pub fn into_frame(self, sequence: u32) -> (frame: SerialFrame)
        ensures
            frame@ == (WireFrame {
                opcode: SerialOpcode::ResultValue32,
                sequence,
                flags: 0,
                payload: result_value_bytes(self),
            }),
            frame@.fits(),
    {
        proof {
            bytes::lemma_le_bytes_len(self.offset as nat, 4);
            bytes::lemma_le_bytes_len(self.value as nat, 4);
        }
        SerialFrame::new(SerialOpcode::ResultValue32, sequence, slice_to_vec(&self.encode_payload()))
    }
}

/// A [`ResultValue32Payload`] has the length that its reader asks for, and no other has the same bytes.
pub proof fn law_result_value_roundtrip(p: ResultValue32Payload, q: ResultValue32Payload)
    ensures
        result_value_bytes(p).len() == 8,
        result_value_bytes(p) == result_value_bytes(q) ==> p == q,
{
    bytes::lemma_byte_ranges();
    bytes::lemma_le_bytes_len(p.offset as nat, 4);
    bytes::law_le_read_of_write(p.offset as nat, 4);
    bytes::lemma_le_bytes_len(p.value as nat, 4);
    bytes::law_le_read_of_write(p.value as nat, 4);
    assert(result_value_bytes(p).subrange(0, 4) =~= bytes::le_bytes(p.offset as nat, 4));
    assert(result_value_bytes(p).subrange(4, 8) =~= bytes::le_bytes(p.value as nat, 4));
    bytes::lemma_le_bytes_len(q.offset as nat, 4);
    bytes::law_le_read_of_write(q.offset as nat, 4);
    bytes::lemma_le_bytes_len(q.value as nat, 4);
    bytes::law_le_read_of_write(q.value as nat, 4);
    assert(result_value_bytes(q).subrange(0, 4) =~= bytes::le_bytes(q.offset as nat, 4));
    assert(result_value_bytes(q).subrange(4, 8) =~= bytes::le_bytes(q.value as nat, 4));
}

/// The low and the high half of `x`, xored.
pub open spec fn folded(x: u64) -> u32 {
    (x as u32) ^ ((x >> 32) as u32)
}

/// The word that a smoke run expects in the result window: all fields of the command,
/// xored as 32-bit words.
pub open spec fn smoke_value(c: Matmul32x32Command) -> u32 {
    c.tile_id ^ c.flags ^ folded(c.a_offset) ^ folded(c.b_offset) ^ folded(c.out_offset)
}

/// Word `i` of the result window that a smoke run expects after the command.
pub open spec fn smoke_word(c: Matmul32x32Command, i: u32) -> ResultValue32Payload {
    ResultValue32Payload {
        offset: (c.out_offset as u32).wrapping_add(
            i.wrapping_mul(TANG9K_RESULT_WINDOW_WORD_STRIDE_BYTES),
        ),
        value: smoke_value(c) ^ i.wrapping_mul(0x9e37_79b9),
    }
}

/// Folds a device offset into one word.
fn fold(x: u64) -> (word: u32)
    ensures
        word == folded(x),
{
    (x as u32) ^ ((x >> 32) as u32)
}

impl Matmul32x32Command {
    /// The offset and the value of the result word that this command leaves behind in a
    /// smoke run.
    pub fn smoke_result_summary(&self) -> (p: ResultValue32Payload)
        ensures
            p == (ResultValue32Payload {
                offset: self.out_offset as u32,
                value: smoke_value(*self),
            }),
    {
        let value: u32 = self.tile_id ^ self.flags ^ fold(self.a_offset) ^ fold(self.b_offset)
            ^ fold(self.out_offset);
        ResultValue32Payload::new(self.out_offset as u32, value)
    }

    /// Word `i` of the window that this command leaves behind in a smoke run.
    pub fn smoke_result_word(&self, i: u32) -> (p: ResultValue32Payload)
        ensures
            p == smoke_word(*self, i),
    {
        let summary = self.smoke_result_summary();
        ResultValue32Payload::new(
            summary.offset.wrapping_add(i.wrapping_mul(TANG9K_RESULT_WINDOW_WORD_STRIDE_BYTES)),
            summary.value ^ i.wrapping_mul(0x9e37_79b9),
        )
    }

    /// All words of the window that this command leaves behind in a smoke run.
    pub fn smoke_result_window(&self) -> (words: [ResultValue32Payload; 4])
        ensures
            forall|i: int|
                0 <= i < TANG9K_RESULT_WINDOW_SMOKE_WORDS ==> #[trigger] words@[i] == smoke_word(
                    *self,
                    i as u32,
                ),
    {
        [
            self.smoke_result_word(0),
            self.smoke_result_word(1),
            self.smoke_result_word(2),
            self.smoke_result_word(3),
        ]
    }
}

/// The first word of the window is the summary of the command.
pub proof fn law_window_starts_with_summary(c: Matmul32x32Command)
    ensures
        smoke_word(c, 0).offset == c.out_offset as u32,
        smoke_word(c, 0).value == smoke_value(c),
{
    let v = smoke_value(c);
    let o = c.out_offset as u32;
    assert(v ^ 0u32 == v) by (bit_vector);
}

/// Why `response` is not the answer with the operation `expected` to `command`, leaving its
/// payload aside.
pub open spec fn answer_fault(
    command: WireFrame,
    response: WireFrame,
    expected: SerialOpcode,
) -> Option<SerialProtocolError> {
    if response.sequence != command.sequence {
        Some(
            SerialProtocolError::SequenceMismatch {
                expected: command.sequence,
                actual: response.sequence,
            },
        )
    } else if response.opcode != expected {
        Some(SerialProtocolError::UnexpectedResponseOpcode { actual: response.opcode })
    } else {
        None
    }
}

/// Checks that `response` answers `command` with the operation `expected`.
pub fn validate_answer(
    command: &SerialFrame,
    response: &SerialFrame,
    expected: SerialOpcode,
) -> (result: Result<(), SerialProtocolError>)
    ensures
        result is Ok <==> answer_fault(command@, response@, expected) is None,
        result matches Err(e) ==> answer_fault(command@, response@, expected) == Some(e),
{
    if response.sequence != command.sequence {
        return Err(
            SerialProtocolError::SequenceMismatch {
                expected: command.sequence,
                actual: response.sequence,
            },
        );
    }
    if response.opcode != expected {
        return Err(SerialProtocolError::UnexpectedResponseOpcode { actual: response.opcode });
    }
    Ok(())
}

/// Checks that `response` is a well-formed answer to the scratch read `command`. Which value
/// was due is the caller's concern.
pub fn validate_scratch_value_response(
    command: &SerialFrame,
    response: &SerialFrame,
) -> (result: Result<ScratchValue32Payload, SerialProtocolError>)
    ensures
        result is Ok <==> {
            &&& answer_fault(command@, response@, SerialOpcode::ScratchValue32) is None
            &&& response@.payload.len() == 8
        },
        result matches Ok(p) ==> response@.payload == scratch_value_bytes(p),
        result matches Err(e) ==> e == match answer_fault(
            command@,
            response@,
            SerialOpcode::ScratchValue32,
        ) {
            Some(fault) => fault,
            None => SerialProtocolError::InvalidScratchPayloadLen {
                opcode: SerialOpcode::ScratchValue32,
                actual: response@.payload.len() as usize,
                expected: 8,
            },
        },
{
    validate_answer(command, response, SerialOpcode::ScratchValue32)?;
    ScratchValue32Payload::decode_payload(response.payload.as_slice())
}

/// Checks that `response` is a well-formed answer to the result read `command`.
pub fn validate_result_value_response(
    command: &SerialFrame,
    response: &SerialFrame,
) -> (result: Result<ResultValue32Payload, SerialProtocolError>)
    ensures
        result is Ok <==> {
            &&& answer_fault(command@, response@, SerialOpcode::ResultValue32) is None
            &&& response@.payload.len() == 8
        },
        result matches Ok(p) ==> response@.payload == result_value_bytes(p),
        result matches Err(e) ==> e == match answer_fault(
            command@,
            response@,
            SerialOpcode::ResultValue32,
        ) {
            Some(fault) => fault,
            None => SerialProtocolError::InvalidReadbackPayloadLen {
                opcode: SerialOpcode::ResultValue32,
                actual: response@.payload.len() as usize,
                expected: 8,
            },
        },
{
    validate_answer(command, response, SerialOpcode::ResultValue32)?;
    ResultValue32Payload::decode_payload(response.payload.as_slice())
}

/// Asks for the state of the result window. The payload is empty.
#[derive(Debug, Clone, Copy, PartialEq, Eq, Structural)]
pub struct ResultWindowStatusReadCommand;

impl ResultWindowStatusReadCommand {
    /// Length of the payload in bytes.
    pub const PAYLOAD_LEN: usize = 0;

    /// Reads the payload.
    pub fn decode_payload(payload: &[u8]) -> (result: Result<Self, SerialProtocolError>)
        ensures
            result is Ok <==> payload@.len() == 0,
            result matches Err(e) ==> e == (SerialProtocolError::InvalidReadbackPayloadLen {
                opcode: SerialOpcode::ResultWindowStatusRead,
                actual: payload@.len() as usize,
                expected: 0,
            }),
    {
        if payload.len() != Self::PAYLOAD_LEN {
            return Err(
                SerialProtocolError::InvalidReadbackPayloadLen {
                    opcode: SerialOpcode::ResultWindowStatusRead,
                    actual: payload.len(),
                    expected: Self::PAYLOAD_LEN,
                },
            );
        }
        Ok(ResultWindowStatusReadCommand)
    }

    /// The frame that carries this command.
    pub fn into_frame(self, sequence: u32) -> (frame: SerialFrame)
        ensures
            frame@ == (WireFrame {
                opcode: SerialOpcode::ResultWindowStatusRead,
                sequence,
                flags: 0,
                payload: seq![],
            }),
            frame@.fits(),
    {
        SerialFrame::new(SerialOpcode::ResultWindowStatusRead, sequence, Vec::new())
    }
}

/// The state of the result window.
///
/// Sixteen bytes: flags, of which bit 0 says that the window is valid; the number of words;
/// the distance of two words in bytes (u16); the offset of the first word (u32); the
/// sequence number of the command that filled the window (u32); four zero bytes.
#[derive(Debug, Clone, Copy, PartialEq, Eq, Structural)]
pub struct ResultWindowStatusPayload {
    pub flags: u8,
    pub word_count: u8,
    pub stride_bytes: u16,
    pub base_offset: u32,
    pub last_sequence: u32,
}

/// The bytes of a [`ResultWindowStatusPayload`].
pub open spec fn window_status_bytes(p: ResultWindowStatusPayload) -> Seq<u8> {
    bytes::le_bytes(p.flags as nat, 1) + bytes::le_bytes(p.word_count as nat, 1)
        + bytes::le_bytes(p.stride_bytes as nat, 2) + bytes::le_bytes(p.base_offset as nat, 4)
        + bytes::le_bytes(p.last_sequence as nat, 4) + bytes::le_bytes(0, 4)
}

/// What is wrong with `s` as the payload of a window status, if anything.
pub open spec fn window_status_fault(s: Seq<u8>) -> Option<SerialProtocolError> {
    if s.len() != 16 {
        Some(
            SerialProtocolError::InvalidReadbackPayloadLen {
                opcode: SerialOpcode::ResultWindowStatus,
                actual: s.len() as usize,
                expected: 16,
            },
        )
    } else if frame::field(s, 12, 16) != 0 {
        Some(SerialProtocolError::NonZeroReservedField { field: "result_window_status.reserved" })
    } else {
        None
    }
}

impl ResultWindowStatusPayload {
    /// Length of the payload in bytes.
    pub const PAYLOAD_LEN: usize = 16;

    /// The payload from its fields.
    pub fn new(
        valid: bool,
        word_count: u8,
        stride_bytes: u16,
        base_offset: u32,
        last_sequence: u32,
    ) -> (p: Self)
        ensures
            p == (ResultWindowStatusPayload {
                flags: if valid { 1 } else { 0 },
                word_count,
                stride_bytes,
                base_offset,
                last_sequence,
            }),
    {
        let flags: u8 = if valid { 1 } else { 0 };
        ResultWindowStatusPayload { flags, word_count, stride_bytes, base_offset, last_sequence }
    }

    /// Whether the window holds results.
    pub fn valid(&self) -> (yes: bool)
        ensures
            yes == (self.flags % 2 == 1),
    {
        self.flags % 2 == 1
    }

    /// The bytes of the payload.
    pub fn encode_payload(&self) -> (payload: [u8; 16])
        ensures
            payload@ == window_status_bytes(*self),
    {
        let mut payload: [u8; 16] = [0u8; 16];
        write_le(&mut payload, 0, self.flags as u64, 1);
        write_le(&mut payload, 1, self.word_count as u64, 1);
        write_le(&mut payload, 2, self.stride_bytes as u64, 2);
        write_le(&mut payload, 4, self.base_offset as u64, 4);
        write_le(&mut payload, 8, self.last_sequence as u64, 4);
        write_le(&mut payload, 12, 0, 4);
        proof {
            bytes::lemma_le_bytes_len(self.flags as nat, 1);
            bytes::lemma_le_bytes_len(self.word_count as nat, 1);
            bytes::lemma_le_bytes_len(self.stride_bytes as nat, 2);
            bytes::lemma_le_bytes_len(self.base_offset as nat, 4);
            bytes::lemma_le_bytes_len(self.last_sequence as nat, 4);
            bytes::lemma_le_bytes_len(0, 4);
            assert(payload@ =~= window_status_bytes(*self));
        }
        payload
    }

    /// Reads the payload.
    pub fn decode_payload(payload: &[u8]) -> (result: Result<Self, SerialProtocolError>)
        ensures
            result is Ok <==> window_status_fault(payload@) is None,
            result matches Ok(p) ==> payload@ == window_status_bytes(p),
            result matches Err(e) ==> window_status_fault(payload@) == Some(e),
    {
        if payload.len() != Self::PAYLOAD_LEN {
            return Err(
                SerialProtocolError::InvalidReadbackPayloadLen {
                    opcode: SerialOpcode::ResultWindowStatus,
                    actual: payload.len(),
                    expected: Self::PAYLOAD_LEN,
                },
            );
        }
        proof {
            bytes::lemma_byte_ranges();
            bytes::law_le_write_of_read(payload@.subrange(0, 1));
            bytes::law_le_write_of_read(payload@.subrange(1, 2));
            bytes::law_le_write_of_read(payload@.subrange(2, 4));
            bytes::law_le_write_of_read(payload@.subrange(4, 8));
            bytes::law_le_write_of_read(payload@.subrange(8, 12));
            bytes::law_le_write_of_read(payload@.subrange(12, 16));
            assert(payload@ =~= payload@.subrange(0, 1) + payload@.subrange(1, 2)
                + payload@.subrange(2, 4) + payload@.subrange(4, 8) + payload@.subrange(8, 12)
                + payload@.subrange(12, 16));
        }
        if read_le(payload, 12, 4) != 0 {
            return Err(
                SerialProtocolError::NonZeroReservedField { field: "result_window_status.reserved" },
            );
        }
        let flags: u64 = read_le(payload, 0, 1);
        let word_count: u64 = read_le(payload, 1, 1);
        let stride_bytes: u64 = read_le(payload, 2, 2);
        let base_offset: u64 = read_le(payload, 4, 4);
        let last_sequence: u64 = read_le(payload, 8, 4);
        Ok(
            ResultWindowStatusPayload {
                flags: flags as u8,
                word_count: word_count as u8,
                stride_bytes: stride_bytes as u16,
                base_offset: base_offset as u32,
                last_sequence: last_sequence as u32,
            },
        )
    }

    /// The frame that carries this payload.
    pub fn into_frame(self, sequence: u32) -> (frame: SerialFrame)
        ensures
            frame@ == (WireFrame {
                opcode: SerialOpcode::ResultWindowStatus,
                sequence,
                flags: 0,
                payload: window_status_bytes(self),
            }),
            frame@.fits(),
    {
        proof {
            law_window_status_roundtrip(self, self);
        }
        SerialFrame::new(
            SerialOpcode::ResultWindowStatus,
            sequence,
            slice_to_vec(&self.encode_payload()),
        )
    }
}

/// A [`ResultWindowStatusPayload`] is read without a fault, and no other has the same bytes.
pub proof fn law_window_status_roundtrip(
    p: ResultWindowStatusPayload,
    q: ResultWindowStatusPayload,
)
    ensures
        window_status_bytes(p).len() == 16,
        window_status_fault(window_status_bytes(p)) is None,
        window_status_bytes(p) == window_status_bytes(q) ==> p == q,
{
    lemma_window_status_fields(p);
    lemma_window_status_fields(q);
}

proof fn lemma_window_status_fields(p: ResultWindowStatusPayload)
    ensures
        window_status_bytes(p).len() == 16,
        frame::field(window_status_bytes(p), 0, 1) == p.flags,
        frame::field(window_status_bytes(p), 1, 2) == p.word_count,
        frame::field(window_status_bytes(p), 2, 4) == p.stride_bytes,
        frame::field(window_status_bytes(p), 4, 8) == p.base_offset,
        frame::field(window_status_bytes(p), 8, 12) == p.last_sequence,
        frame::field(window_status_bytes(p), 12, 16) == 0,
{
    let s = window_status_bytes(p);
    bytes::lemma_byte_ranges();
    bytes::lemma_le_bytes_len(p.flags as nat, 1);
    bytes::lemma_le_bytes_len(p.word_count as nat, 1);
    bytes::lemma_le_bytes_len(p.stride_bytes as nat, 2);
    bytes::lemma_le_bytes_len(p.base_offset as nat, 4);
    bytes::lemma_le_bytes_len(p.last_sequence as nat, 4);
    bytes::lemma_le_bytes_len(0, 4);
    bytes::law_le_read_of_write(p.flags as nat, 1);
    bytes::law_le_read_of_write(p.word_count as nat, 1);
    bytes::law_le_read_of_write(p.stride_bytes as nat, 2);
    bytes::law_le_read_of_write(p.base_offset as nat, 4);
    bytes::law_le_read_of_write(p.last_sequence as nat, 4);
    bytes::law_le_read_of_write(0, 4);
    assert(s.subrange(0, 1) =~= bytes::le_bytes(p.flags as nat, 1));
    assert(s.subrange(1, 2) =~= bytes::le_bytes(p.word_count as nat, 1));
    assert(s.subrange(2, 4) =~= bytes::le_bytes(p.stride_bytes as nat, 2));
    assert(s.subrange(4, 8) =~= bytes::le_bytes(p.base_offset as nat, 4));
    assert(s.subrange(8, 12) =~= bytes::le_bytes(p.last_sequence as nat, 4));
    assert(s.subrange(12, 16) =~= bytes::le_bytes(0, 4));
}

/// Asks the device who it is. The payload is empty.
#[derive(Debug, Clone, Copy, PartialEq, Eq, Structural)]
pub struct DeviceInfoReadCommand;

impl DeviceInfoReadCommand {
    /// Length of the payload in bytes.
    pub const PAYLOAD_LEN: usize = 0;

    /// Reads the payload.
    pub fn decode_payload(payload: &[u8]) -> (result: Result<Self, SerialProtocolError>)
        ensures
            result is Ok <==> payload@.len() == 0,
            result matches Err(e) ==> e == (SerialProtocolError::InvalidReadbackPayloadLen {
                opcode: SerialOpcode::DeviceInfoRead,
                actual: payload@.len() as usize,
                expected: 0,
            }),
    {
        if payload.len() != Self::PAYLOAD_LEN {
            return Err(
                SerialProtocolError::InvalidReadbackPayloadLen {
                    opcode: SerialOpcode::DeviceInfoRead,
                    actual: payload.len(),
                    expected: Self::PAYLOAD_LEN,
                },
            );
        }
        Ok(DeviceInfoReadCommand)
    }

    /// The frame that carries this command.
    pub fn into_frame(self, sequence: u32) -> (frame: SerialFrame)
        ensures
            frame@ == (WireFrame {
                opcode: SerialOpcode::DeviceInfoRead,
                sequence,
                flags: 0,
                payload: seq![],
            }),
            frame@.fits(),
    {
        SerialFrame::new(SerialOpcode::DeviceInfoRead, sequence, Vec::new())
    }
}

/// Who the device is and what it can do.
///
/// Twenty-four bytes: the fields in the order of their declaration, little-endian, with two
/// zero bytes before the build number.
#[derive(Debug, Clone, Copy, PartialEq, Eq, Structural)]
pub struct DeviceInfoPayload {
    pub protocol_version: u8,
    pub device_kind: u8,
    pub responder_version: u16,
    pub capabilities: u32,
    pub clk_hz: u32,
    pub baud: u32,
    pub result_window_words: u8,
    pub result_window_stride_bytes: u8,
    pub build_id: u32,
}

/// The bytes of a [`DeviceInfoPayload`].
pub open spec fn device_info_bytes(p: DeviceInfoPayload) -> Seq<u8> {
    bytes::le_bytes(p.protocol_version as nat, 1) + bytes::le_bytes(p.device_kind as nat, 1)
        + bytes::le_bytes(p.responder_version as nat, 2) + bytes::le_bytes(
        p.capabilities as nat,
        4,
    ) + bytes::le_bytes(p.clk_hz as nat, 4) + bytes::le_bytes(p.baud as nat, 4)
        + bytes::le_bytes(p.result_window_words as nat, 1) + bytes::le_bytes(
        p.result_window_stride_bytes as nat,
        1,
    ) + bytes::le_bytes(0, 2) + bytes::le_bytes(p.build_id as nat, 4)
}

/// What is wrong with `s` as the payload of a device info frame, if anything.
pub open spec fn device_info_fault(s: Seq<u8>) -> Option<SerialProtocolError> {
    if s.len() != 24 {
        Some(
            SerialProtocolError::InvalidReadbackPayloadLen {
                opcode: SerialOpcode::DeviceInfo,
                actual: s.len() as usize,
                expected: 24,
            },
        )
    } else if frame::field(s, 18, 20) != 0 {
        Some(SerialProtocolError::NonZeroReservedField { field: "device_info.reserved" })
    } else {
        None
    }
}

impl DeviceInfoPayload {
    /// Length of the payload in bytes.
    pub const PAYLOAD_LEN: usize = 24;

    /// What the Tang9k UART responder reports of itself.
    pub fn tang9k_uart_responder() -> (p: Self)
        ensures
            p == (DeviceInfoPayload {
                protocol_version: frame::SERIAL_VERSION,
                device_kind: TANG9K_DEVICE_KIND_UART_RESPONDER,
                responder_version: 1,
                capabilities: 15,
                clk_hz: TANG9K_UART_RESPONDER_CLK_HZ,
                baud: TANG9K_UART_RESPONDER_BAUD,
                result_window_words: 4,
                result_window_stride_bytes: 4,
                build_id: TANG9K_UART_RESPONDER_BUILD_ID,
            }),
    {
        DeviceInfoPayload {
            protocol_version: frame::SERIAL_VERSION,
            device_kind: TANG9K_DEVICE_KIND_UART_RESPONDER,
            responder_version: 1,
            capabilities: 15,
            clk_hz: TANG9K_UART_RESPONDER_CLK_HZ,
            baud: TANG9K_UART_RESPONDER_BAUD,
            result_window_words: 4,
            result_window_stride_bytes: 4,
            build_id: TANG9K_UART_RESPONDER_BUILD_ID,
        }
    }

    /// The bytes of the payload.
    pub fn encode_payload(&self) -> (payload: [u8; 24])
        ensures
            payload@ == device_info_bytes(*self),
    {
        let mut payload: [u8; 24] = [0u8; 24];
        write_le(&mut payload, 0, self.protocol_version as u64, 1);
        write_le(&mut payload, 1, self.device_kind as u64, 1);
        write_le(&mut payload, 2, self.responder_version as u64, 2);
        write_le(&mut payload, 4, self.capabilities as u64, 4);
        write_le(&mut payload, 8, self.clk_hz as u64, 4);
        write_le(&mut payload, 12, self.baud as u64, 4);
        write_le(&mut payload, 16, self.result_window_words as u64, 1);
        write_le(&mut payload, 17, self.result_window_stride_bytes as u64, 1);
        write_le(&mut payload, 18, 0, 2);
        write_le(&mut payload, 20, self.build_id as u64, 4);
        proof {
            lemma_device_info_lens(*self);
            assert(payload@ =~= device_info_bytes(*self));
        }
        payload
    }

    /// Reads the payload.
    pub fn decode_payload(payload: &[u8]) -> (result: Result<Self, SerialProtocolError>)
        ensures
            result is Ok <==> device_info_fault(payload@) is None,
            result matches Ok(p) ==> payload@ == device_info_bytes(p),
            result matches Err(e) ==> device_info_fault(payload@) == Some(e),
    {
        if payload.len() != Self::PAYLOAD_LEN {
            return Err(
                SerialProtocolError::InvalidReadbackPayloadLen {
                    opcode: SerialOpcode::DeviceInfo,
                    actual: payload.len(),
                    expected: Self::PAYLOAD_LEN,
                },
            );
        }
        proof {
            bytes::lemma_byte_ranges();
            bytes::law_le_write_of_read(payload@.subrange(0, 1));
            bytes::law_le_write_of_read(payload@.subrange(1, 2));
            bytes::law_le_write_of_read(payload@.subrange(2, 4));
            bytes::law_le_write_of_read(payload@.subrange(4, 8));
            bytes::law_le_write_of_read(payload@.subrange(8, 12));
            bytes::law_le_write_of_read(payload@.subrange(12, 16));
            bytes::law_le_write_of_read(payload@.subrange(16, 17));
            bytes::law_le_write_of_read(payload@.subrange(17, 18));
            bytes::law_le_write_of_read(payload@.subrange(18, 20));
            bytes::law_le_write_of_read(payload@.subrange(20, 24));
            assert(payload@ =~= payload@.subrange(0, 1) + payload@.subrange(1, 2)
                + payload@.subrange(2, 4) + payload@.subrange(4, 8) + payload@.subrange(8, 12)
                + payload@.subrange(12, 16) + payload@.subrange(16, 17) + payload@.subrange(17, 18)
                + payload@.subrange(18, 20) + payload@.subrange(20, 24));
        }
        if read_le(payload, 18, 2) != 0 {
            return Err(SerialProtocolError::NonZeroReservedField { field: "device_info.reserved" });
        }
        let protocol_version: u64 = read_le(payload, 0, 1);
        let device_kind: u64 = read_le(payload, 1, 1);
        let responder_version: u64 = read_le(payload, 2, 2);
        let capabilities: u64 = read_le(payload, 4, 4);
        let clk_hz: u64 = read_le(payload, 8, 4);
        let baud: u64 = read_le(payload, 12, 4);
        let result_window_words: u64 = read_le(payload, 16, 1);
        let result_window_stride_bytes: u64 = read_le(payload, 17, 1);
        let build_id: u64 = read_le(payload, 20, 4);
        Ok(
            DeviceInfoPayload {
                protocol_version: protocol_version as u8,
                device_kind: device_kind as u8,
                responder_version: responder_version as u16,
                capabilities: capabilities as u32,
                clk_hz: clk_hz as u32,
                baud: baud as u32,
                result_window_words: result_window_words as u8,
                result_window_stride_bytes: result_window_stride_bytes as u8,
                build_id: build_id as u32,
            },
        )
    }

    /// The frame that carries this payload.
    pub fn into_frame(self, sequence: u32) -> (frame: SerialFrame)
        ensures
            frame@ == (WireFrame {
                opcode: SerialOpcode::DeviceInfo,
                sequence,
                flags: 0,
                payload: device_info_bytes(self),
            }),
            frame@.fits(),
    {
        proof {
            lemma_device_info_lens(self);
        }
        SerialFrame::new(SerialOpcode::DeviceInfo, sequence, slice_to_vec(&self.encode_payload()))
    }
}

proof fn lemma_device_info_lens(p: DeviceInfoPayload)
    ensures
        bytes::le_bytes(p.protocol_version as nat, 1).len() == 1,
        bytes::le_bytes(p.device_kind as nat, 1).len() == 1,
        bytes::le_bytes(p.responder_version as nat, 2).len() == 2,
        bytes::le_bytes(p.capabilities as nat, 4).len() == 4,
        bytes::le_bytes(p.clk_hz as nat, 4).len() == 4,
        bytes::le_bytes(p.baud as nat, 4).len() == 4,
        bytes::le_bytes(p.result_window_words as nat, 1).len() == 1,
        bytes::le_bytes(p.result_window_stride_bytes as nat, 1).len() == 1,
        bytes::le_bytes(0, 2).len() == 2,
        bytes::le_bytes(p.build_id as nat, 4).len() == 4,
        device_info_bytes(p).len() == 24,
{
    bytes::lemma_le_bytes_len(p.protocol_version as nat, 1);
    bytes::lemma_le_bytes_len(p.device_kind as nat, 1);
    bytes::lemma_le_bytes_len(p.responder_version as nat, 2);
    bytes::lemma_le_bytes_len(p.capabilities as nat, 4);
    bytes::lemma_le_bytes_len(p.clk_hz as nat, 4);
    bytes::lemma_le_bytes_len(p.baud as nat, 4);
    bytes::lemma_le_bytes_len(p.result_window_words as nat, 1);
    bytes::lemma_le_bytes_len(p.result_window_stride_bytes as nat, 1);
    bytes::lemma_le_bytes_len(0, 2);
    bytes::lemma_le_bytes_len(p.build_id as nat, 4);
}

proof fn lemma_device_info_fields(p: DeviceInfoPayload)
    ensures
        device_info_bytes(p).len() == 24,
        frame::field(device_info_bytes(p), 0, 1) == p.protocol_version,
        frame::field(device_info_bytes(p), 1, 2) == p.device_kind,
        frame::field(device_info_bytes(p), 2, 4) == p.responder_version,
        frame::field(device_info_bytes(p), 4, 8) == p.capabilities,
        frame::field(device_info_bytes(p), 8, 12) == p.clk_hz,
        frame::field(device_info_bytes(p), 12, 16) == p.baud,
        frame::field(device_info_bytes(p), 16, 17) == p.result_window_words,
        frame::field(device_info_bytes(p), 17, 18) == p.result_window_stride_bytes,
        frame::field(device_info_bytes(p), 18, 20) == 0,
        frame::field(device_info_bytes(p), 20, 24) == p.build_id,
{
    let s = device_info_bytes(p);
    lemma_device_info_lens(p);
    bytes::lemma_byte_ranges();
    bytes::law_le_read_of_write(p.protocol_version as nat, 1);
    bytes::law_le_read_of_write(p.device_kind as nat, 1);
    bytes::law_le_read_of_write(p.responder_version as nat, 2);
    bytes::law_le_read_of_write(p.capabilities as nat, 4);
    bytes::law_le_read_of_write(p.clk_hz as nat, 4);
    bytes::law_le_read_of_write(p.baud as nat, 4);
    bytes::law_le_read_of_write(p.result_window_words as nat, 1);
    bytes::law_le_read_of_write(p.result_window_stride_bytes as nat, 1);
    bytes::law_le_read_of_write(0, 2);
    bytes::law_le_read_of_write(p.build_id as nat, 4);
    assert(s.subrange(0, 1) =~= bytes::le_bytes(p.protocol_version as nat, 1));
    assert(s.subrange(1, 2) =~= bytes::le_bytes(p.device_kind as nat, 1));
    assert(s.subrange(2, 4) =~= bytes::le_bytes(p.responder_version as nat, 2));
    assert(s.subrange(4, 8) =~= bytes::le_bytes(p.capabilities as nat, 4));
    assert(s.subrange(8, 12) =~= bytes::le_bytes(p.clk_hz as nat, 4));
    assert(s.subrange(12, 16) =~= bytes::le_bytes(p.baud as nat, 4));
    assert(s.subrange(16, 17) =~= bytes::le_bytes(p.result_window_words as nat, 1));
    assert(s.subrange(17, 18) =~= bytes::le_bytes(p.result_window_stride_bytes as nat, 1));
    assert(s.subrange(18, 20) =~= bytes::le_bytes(0, 2));
    assert(s.subrange(20, 24) =~= bytes::le_bytes(p.build_id as nat, 4));
}

/// A [`DeviceInfoPayload`] is read without a fault, and no other has the same bytes.
pub proof fn law_device_info_roundtrip(p: DeviceInfoPayload, q: DeviceInfoPayload)
    ensures
        device_info_fault(device_info_bytes(p)) is None,
        device_info_bytes(p) == device_info_bytes(q) ==> p == q,
{
    lemma_device_info_fields(p);
    lemma_device_info_fields(q);
}

} // verus!
