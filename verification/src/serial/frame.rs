//! Frames and their bytes.
//!
//! ```text
//! 0..2    magic = "SP"
//! 2       version = 1
//! 3       opcode
//! 4..8    sequence (little-endian u32)
//! 8..12   payload length (little-endian u32)
//! 12..14  flags (little-endian u16)
//! 14..16  reserved = 0
//! 16..N   payload
//! N..N+4  checksum of header and payload (little-endian u32)
//! ...     zero padding up to a multiple of eight bytes
//! ```

use super::error::SerialProtocolError;
use super::opcode;
use super::opcode::SerialOpcode;
use crate::bytes;
use crate::bytes::{push_le, read_le};
use vstd::prelude::*;
use vstd::slice::{slice_subrange, slice_to_vec};

verus! {

/// The two bytes that open every frame.
pub const SERIAL_MAGIC: [u8; 2] = [0x53, 0x50];

/// The protocol version in the header.
pub const SERIAL_VERSION: u8 = 1;

/// Length of the header in bytes.
pub const SERIAL_HEADER_LEN: usize = 16;

/// Length of the checksum in bytes.
pub const SERIAL_CHECKSUM_LEN: usize = 4;

/// Every frame's length is a multiple of this.
pub const SERIAL_ALIGNMENT: usize = 8;

/// The longest payload that a frame may carry.
pub const SERIAL_MAX_PAYLOAD_LEN: usize = 65536;

/// What a frame says, apart from how it is stored.
#[verifier::ext_equal]
pub struct WireFrame {
    pub opcode: SerialOpcode,
    pub sequence: u32,
    pub flags: u16,
    pub payload: Seq<u8>,
}

impl WireFrame {
    /// Whether the frame can go on the wire.
    pub open spec fn fits(self) -> bool {
        self.payload.len() <= SERIAL_MAX_PAYLOAD_LEN
    }
}

/// The FNV-1a hash of `s` with 32 bits.
pub open spec fn fnv1a(s: Seq<u8>) -> u32
    decreases s.len(),
{
    if s.len() == 0 {
        0x811c_9dc5
    } else {
        (fnv1a(s.drop_last()) ^ (s.last() as u32)).wrapping_mul(0x0100_0193)
    }
}

/// The length of the frame around a payload of `payload_len` bytes: header, payload and
/// checksum, rounded up to the alignment.
pub open spec fn frame_len(payload_len: nat) -> nat {
    (payload_len + 27) / 8 * 8
}

/// The sixteen header bytes of a frame.
pub open spec fn header_bytes(f: WireFrame) -> Seq<u8> {
    seq![0x53u8, 0x50u8, SERIAL_VERSION, opcode::opcode_byte(f.opcode)] + bytes::le_bytes(
        f.sequence as nat,
        4,
    ) + bytes::le_bytes(f.payload.len(), 4) + bytes::le_bytes(f.flags as nat, 2)
        + bytes::le_bytes(0, 2)
}

/// `n` zero bytes.
pub open spec fn zeros(n: nat) -> Seq<u8> {
    Seq::new(n, |i: int| 0u8)
}

/// All bytes of a frame as they go on the wire.
pub open spec fn frame_bytes(f: WireFrame) -> Seq<u8> {
    let body = header_bytes(f) + f.payload;
    body + bytes::le_bytes(fnv1a(body) as nat, 4) + zeros(
        (frame_len(f.payload.len()) - f.payload.len() - 20) as nat,
    )
}

/// The number in the bytes `from..to` of `s`.
pub open spec fn field(s: Seq<u8>, from: int, to: int) -> nat {
    bytes::le_value(s.subrange(from, to))
}

/// The first thing wrong with `s` as the bytes of one whole frame, in the order in which
/// a receiver looks.
#[verifier::opaque]
pub open spec fn first_fault(s: Seq<u8>) -> Option<SerialProtocolError> {
    let payload_len = field(s, 8, 12);
    let checksum_at = 16 + payload_len as int;
    if s.len() < 20 {
        Some(SerialProtocolError::FrameTooShort { actual: s.len() as usize })
    } else if s.len() % 8 != 0 {
        Some(SerialProtocolError::InvalidAlignment { actual: s.len() as usize, alignment: 8 })
    } else if s[0] != 0x53 || s[1] != 0x50 {
        Some(SerialProtocolError::BadMagic { found: [s[0], s[1]] })
    } else if s[2] != SERIAL_VERSION {
        Some(SerialProtocolError::UnsupportedVersion(s[2]))
    } else if !opcode::is_opcode_byte(s[3]) {
        Some(SerialProtocolError::UnknownOpcode(s[3]))
    } else if payload_len > SERIAL_MAX_PAYLOAD_LEN {
        Some(
            SerialProtocolError::PayloadTooLarge {
                actual: payload_len as usize,
                max: SERIAL_MAX_PAYLOAD_LEN,
            },
        )
    } else if field(s, 14, 16) != 0 {
        Some(SerialProtocolError::NonZeroReservedField { field: "frame_header.reserved" })
    } else if s.len() != frame_len(payload_len) {
        Some(
            SerialProtocolError::LengthMismatch {
                expected: frame_len(payload_len) as usize,
                actual: s.len() as usize,
            },
        )
    } else if field(s, checksum_at, checksum_at + 4) != fnv1a(s.take(checksum_at)) {
        Some(
            SerialProtocolError::ChecksumMismatch {
                expected: fnv1a(s.take(checksum_at)),
                actual: field(s, checksum_at, checksum_at + 4) as u32,
            },
        )
    } else if s.skip(checksum_at + 4) != zeros((s.len() - checksum_at - 4) as nat) {
        Some(SerialProtocolError::NonZeroPadding)
    } else {
        None
    }
}

/// One message of the serial link.
#[derive(Debug, PartialEq, Eq)]
pub struct SerialFrame {
    pub opcode: SerialOpcode,
    pub sequence: u32,
    pub flags: u16,
    pub payload: Vec<u8>,
}

impl View for SerialFrame {
    type V = WireFrame;

    open spec fn view(&self) -> WireFrame {
        WireFrame {
            opcode: self.opcode,
            sequence: self.sequence,
            flags: self.flags,
            payload: self.payload@,
        }
    }
}

impl Clone for SerialFrame {
    fn clone(&self) -> (copy: Self)
        ensures
            copy@ == self@,
    {
        SerialFrame {
            opcode: self.opcode,
            sequence: self.sequence,
            flags: self.flags,
            payload: slice_to_vec(self.payload.as_slice()),
        }
    }
}

impl SerialFrame {
    /// A frame without flags.
    pub fn new(opcode: SerialOpcode, sequence: u32, payload: Vec<u8>) -> (frame: Self)
        ensures
            frame@ == (WireFrame { opcode, sequence, flags: 0, payload: payload@ }),
    {
        SerialFrame { opcode, sequence, flags: 0, payload }
    }

    /// A frame with flags.
    pub fn with_flags(
        opcode: SerialOpcode,
        sequence: u32,
        flags: u16,
        payload: Vec<u8>,
    ) -> (frame: Self)
        ensures
            frame@ == (WireFrame { opcode, sequence, flags, payload: payload@ }),
    {
        SerialFrame { opcode, sequence, flags, payload }
    }

    /// The bytes to send for this frame.
    pub fn encode(&self) -> (result: Result<Vec<u8>, SerialProtocolError>)
        ensures
            result is Ok <==> self@.fits(),
            result matches Ok(encoded) ==> encoded@ == frame_bytes(self@),
            result matches Err(e) ==> e == (SerialProtocolError::PayloadTooLarge {
                actual: self.payload@.len() as usize,
                max: SERIAL_MAX_PAYLOAD_LEN,
            }),
    {
        let payload_len: usize = self.payload.len();
        if payload_len > SERIAL_MAX_PAYLOAD_LEN {
            return Err(
                SerialProtocolError::PayloadTooLarge {
                    actual: payload_len,
                    max: SERIAL_MAX_PAYLOAD_LEN,
                },
            );
        }
        let padded_len: usize = encoded_frame_len(payload_len);
        let mut encoded: Vec<u8> = Vec::with_capacity(padded_len);
        encoded.push(SERIAL_MAGIC[0]);
        encoded.push(SERIAL_MAGIC[1]);
        encoded.push(SERIAL_VERSION);
        encoded.push(self.opcode.as_u8());
        push_le(&mut encoded, self.sequence as u64, 4);
        push_le(&mut encoded, payload_len as u64, 4);
        push_le(&mut encoded, self.flags as u64, 2);
        push_le(&mut encoded, 0, 2);
        assert(encoded@ =~= header_bytes(self@));
        encoded.extend_from_slice(self.payload.as_slice());
        let ghost body = header_bytes(self@) + self.payload@;
        proof {
            lemma_header_len(self@);
            assert(encoded@ =~= body);
        }
        let checksum: u32 = checksum32(encoded.as_slice());
        push_le(&mut encoded, checksum as u64, 4);
        proof {
            bytes::lemma_le_bytes_len(checksum as nat, 4);
        }
        let ghost unpadded = encoded@;
        while encoded.len() < padded_len
            invariant
                unpadded.len() <= encoded@.len() <= padded_len,
                encoded@ == unpadded + zeros((encoded@.len() - unpadded.len()) as nat),
            decreases padded_len - encoded@.len(),
        {
            let ghost before = encoded@;
            encoded.push(0);
            assert(encoded@ =~= unpadded + zeros((encoded@.len() - unpadded.len()) as nat));
        }
        Ok(encoded)
    }

    /// Reads one whole frame, and nothing else, out of `bytes`.
    pub fn decode(bytes: &[u8]) -> (result: Result<Self, SerialProtocolError>)
        ensures
            result is Ok <==> first_fault(bytes@) is None,
            result matches Ok(frame) ==> frame@.fits() && bytes@ == frame_bytes(frame@),
            result matches Err(e) ==> first_fault(bytes@) == Some(e),
    {
        reveal(first_fault);
        let len: usize = bytes.len();
        if len < SERIAL_HEADER_LEN + SERIAL_CHECKSUM_LEN {
            return Err(SerialProtocolError::FrameTooShort { actual: len });
        }
        if len % SERIAL_ALIGNMENT != 0 {
            return Err(
                SerialProtocolError::InvalidAlignment { actual: len, alignment: SERIAL_ALIGNMENT },
            );
        }
        let found: [u8; 2] = [bytes[0], bytes[1]];
        if found[0] != SERIAL_MAGIC[0] || found[1] != SERIAL_MAGIC[1] {
            return Err(SerialProtocolError::BadMagic { found });
        }
        if bytes[2] != SERIAL_VERSION {
            return Err(SerialProtocolError::UnsupportedVersion(bytes[2]));
        }
        let opcode = SerialOpcode::from_u8(bytes[3])?;
        let sequence: u64 = read_le(bytes, 4, 4);
        let payload_len: u64 = read_le(bytes, 8, 4);
        let flags: u64 = read_le(bytes, 12, 2);
        proof {
            crate::bytes::lemma_byte_ranges();
        }
        let payload_len: usize = payload_len as usize;
        validate_payload_len(payload_len)?;
        if read_le(bytes, 14, 2) != 0 {
            return Err(SerialProtocolError::NonZeroReservedField { field: "frame_header.reserved" });
        }
        let padded_len: usize = encoded_frame_len(payload_len);
        if len != padded_len {
            return Err(SerialProtocolError::LengthMismatch { expected: padded_len, actual: len });
        }
        let checksum_at: usize = SERIAL_HEADER_LEN + payload_len;
        let actual: u64 = read_le(bytes, checksum_at, SERIAL_CHECKSUM_LEN);
        let covered: &[u8] = slice_subrange(bytes, 0, checksum_at);
        let expected: u32 = checksum32(covered);
        assert(covered@ =~= bytes@.take(checksum_at as int));
        if actual as u32 != expected {
            return Err(SerialProtocolError::ChecksumMismatch { expected, actual: actual as u32 });
        }
        let padding_at: usize = checksum_at + SERIAL_CHECKSUM_LEN;
        let mut i: usize = padding_at;
        while i < len
            invariant
                padding_at <= i <= len == bytes@.len(),
                forall|j: int| padding_at <= j < i ==> bytes@[j] == 0,
                first_fault(bytes@) == (if bytes@.skip(padding_at as int) != zeros(
                    (len - padding_at) as nat,
                ) {
                    Some(SerialProtocolError::NonZeroPadding)
                } else {
                    None
                }),
            decreases len - i,
        {
            if bytes[i] != 0 {
                assert(bytes@.skip(padding_at as int)[i - padding_at] != zeros(
                    (len - padding_at) as nat,
                )[i - padding_at]);
                return Err(SerialProtocolError::NonZeroPadding);
            }
            i = i + 1;
        }
        let frame = SerialFrame {
            opcode,
            sequence: sequence as u32,
            flags: flags as u16,
            payload: slice_to_vec(slice_subrange(bytes, SERIAL_HEADER_LEN, checksum_at)),
        };
        proof {
            assert(bytes@.skip(padding_at as int) =~= zeros((len - padding_at) as nat));
            lemma_read_frame(bytes@, frame@);
        }
        Ok(frame)
    }
}

/// Refuses a payload that no frame may carry.
pub fn validate_payload_len(len: usize) -> (result: Result<(), SerialProtocolError>)
    ensures
        result is Ok <==> len <= SERIAL_MAX_PAYLOAD_LEN,
        result matches Err(e) ==> e == (SerialProtocolError::PayloadTooLarge {
            actual: len,
            max: SERIAL_MAX_PAYLOAD_LEN,
        }),
{
    if len > SERIAL_MAX_PAYLOAD_LEN {
        return Err(SerialProtocolError::PayloadTooLarge { actual: len, max: SERIAL_MAX_PAYLOAD_LEN });
    }
    Ok(())
}

/// The length of the frame around a payload of `payload_len` bytes.
pub fn encoded_frame_len(payload_len: usize) -> (len: usize)
    requires
        payload_len <= SERIAL_MAX_PAYLOAD_LEN,
    ensures
        len == frame_len(payload_len as nat),
        len >= payload_len + 20,
{
    (SERIAL_HEADER_LEN + payload_len + SERIAL_CHECKSUM_LEN + (SERIAL_ALIGNMENT - 1))
        / SERIAL_ALIGNMENT * SERIAL_ALIGNMENT
}

/// The FNV-1a hash of `bytes`.
fn checksum32(bytes: &[u8]) -> (hash: u32)
    ensures
        hash == fnv1a(bytes@),
{
    let mut hash: u32 = 0x811c_9dc5;
    let mut i: usize = 0;
    while i < bytes.len()
        invariant
            i <= bytes@.len(),
            hash == fnv1a(bytes@.take(i as int)),
        decreases bytes@.len() - i,
    {
        assert(bytes@.take(i + 1).drop_last() =~= bytes@.take(i as int));
        hash = (hash ^ (bytes[i] as u32)).wrapping_mul(0x0100_0193);
        i = i + 1;
    }
    assert(bytes@.take(i as int) =~= bytes@);
    hash
}

/// The factor of the hash has an inverse: different numbers stay different.
proof fn lemma_factor_keeps_apart(x: u32, y: u32)
    requires
        x.wrapping_mul(0x0100_0193) == y.wrapping_mul(0x0100_0193),
    ensures
        x == y,
{
    let (a, b) = (x as int, y as int);
    let d = a - b;
    let m = (a * 0x0100_0193) / 0x1_0000_0000 - (b * 0x0100_0193) / 0x1_0000_0000;
    assert(d * 0x0100_0193 == m * 0x1_0000_0000);
    assert(d == 0x1_0000_0000 * (m * 0x359c449b - d * 0x359c99));
}

/// Different numbers stay different under a common byte, and a number does under different bytes.
proof fn lemma_bytes_keep_apart(x: u32, y: u32, a: u8, b: u8)
    ensures
        x ^ (a as u32) == y ^ (a as u32) ==> x == y,
        x ^ (a as u32) == x ^ (b as u32) ==> a == b,
{
    assert(x ^ (a as u32) == y ^ (a as u32) ==> x == y) by (bit_vector);
    assert(x ^ (a as u32) == x ^ (b as u32) ==> a == b) by (bit_vector);
}

/// One changed byte always changes the hash.
pub proof fn law_one_changed_byte_changes_the_hash(s: Seq<u8>, i: int, b: u8)
    requires
        0 <= i < s.len(),
        b != s[i],
    ensures
        fnv1a(s.update(i, b)) != fnv1a(s),
    decreases s.len(),
{
    let t = s.update(i, b);
    let (x, y) = (fnv1a(s.drop_last()), fnv1a(t.drop_last()));
    lemma_bytes_keep_apart(x, y, s.last(), t.last());
    if i == s.len() - 1 {
        assert(t.drop_last() =~= s.drop_last());
    } else {
        assert(t.drop_last() =~= s.drop_last().update(i, b));
        law_one_changed_byte_changes_the_hash(s.drop_last(), i, b);
    }
    if fnv1a(t) == fnv1a(s) {
        lemma_factor_keeps_apart(x ^ (s.last() as u32), y ^ (t.last() as u32));
    }
}

proof fn lemma_header_len(f: WireFrame)
    ensures
        header_bytes(f).len() == 16,
{
    bytes::lemma_le_bytes_len(f.sequence as nat, 4);
    bytes::lemma_le_bytes_len(f.payload.len(), 4);
    bytes::lemma_le_bytes_len(f.flags as nat, 2);
    bytes::lemma_le_bytes_len(0, 2);
}

/// Bytes without a fault are the bytes of the frame whose fields they hold.
proof fn lemma_read_frame(s: Seq<u8>, f: WireFrame)
    requires
        first_fault(s) is None,
        opcode::opcode_byte(f.opcode) == s[3],
        f.sequence as nat == field(s, 4, 8),
        f.flags as nat == field(s, 12, 14),
        f.payload == s.subrange(16, 16 + field(s, 8, 12) as int),
    ensures
        s == frame_bytes(f),
{
    reveal(first_fault);
    let at = 16 + field(s, 8, 12) as int;
    bytes::law_le_write_of_read(s.subrange(4, 8));
    bytes::law_le_write_of_read(s.subrange(8, 12));
    bytes::law_le_write_of_read(s.subrange(12, 14));
    bytes::law_le_write_of_read(s.subrange(14, 16));
    bytes::law_le_write_of_read(s.subrange(at, at + 4));
    assert(header_bytes(f) =~= s.take(16));
    assert(header_bytes(f) + f.payload =~= s.take(at));
    assert(s =~= s.take(at) + s.subrange(at, at + 4) + s.skip(at + 4));
}

/// The fields of a frame's bytes.
pub proof fn lemma_frame_fields(f: WireFrame)
    requires
        f.fits(),
    ensures
        ({
            let s = frame_bytes(f);
            let at = 16 + f.payload.len() as int;
            &&& s.len() == frame_len(f.payload.len()) >= at + 4
            &&& s[0] == 0x53 && s[1] == 0x50 && s[2] == SERIAL_VERSION
            &&& s[3] == opcode::opcode_byte(f.opcode)
            &&& field(s, 4, 8) == f.sequence
            &&& field(s, 8, 12) == f.payload.len()
            &&& field(s, 12, 14) == f.flags
            &&& field(s, 14, 16) == 0
            &&& s.subrange(16, at) == f.payload
            &&& field(s, at, at + 4) == fnv1a(s.take(at))
            &&& s.skip(at + 4) == zeros((s.len() - at - 4) as nat)
        }),
{
    let s = frame_bytes(f);
    let at = 16 + f.payload.len() as int;
    let body = header_bytes(f) + f.payload;
    bytes::lemma_byte_ranges();
    lemma_header_len(f);
    bytes::lemma_le_bytes_len(f.sequence as nat, 4);
    bytes::lemma_le_bytes_len(f.payload.len(), 4);
    bytes::lemma_le_bytes_len(f.flags as nat, 2);
    bytes::lemma_le_bytes_len(0, 2);
    bytes::lemma_le_bytes_len(fnv1a(body) as nat, 4);
    bytes::law_le_read_of_write(f.sequence as nat, 4);
    bytes::law_le_read_of_write(f.payload.len(), 4);
    bytes::law_le_read_of_write(f.flags as nat, 2);
    bytes::law_le_read_of_write(0, 2);
    bytes::law_le_read_of_write(fnv1a(body) as nat, 4);
    assert(s.subrange(4, 8) =~= bytes::le_bytes(f.sequence as nat, 4));
    assert(s.subrange(8, 12) =~= bytes::le_bytes(f.payload.len(), 4));
    assert(s.subrange(12, 14) =~= bytes::le_bytes(f.flags as nat, 2));
    assert(s.subrange(14, 16) =~= bytes::le_bytes(0, 2));
    assert(s.subrange(16, at) =~= f.payload);
    assert(s.take(at) =~= body);
    assert(s.subrange(at, at + 4) =~= bytes::le_bytes(fnv1a(body) as nat, 4));
    assert(s.skip(at + 4) =~= zeros((s.len() - at - 4) as nat));
}

/// A receiver finds no fault in the bytes of a frame: what is encoded can be decoded.
pub proof fn law_encoded_frames_have_no_fault(f: WireFrame)
    requires
        f.fits(),
    ensures
        first_fault(frame_bytes(f)) is None,
{
    lemma_frame_fields(f);
    assert(opcode::opcode_byte(f.opcode) == frame_bytes(f)[3]);
    lemma_no_fault(frame_bytes(f), f.payload.len());
}

/// Bytes whose fields are all in order have no fault.
proof fn lemma_no_fault(s: Seq<u8>, payload_len: nat)
    requires
        payload_len <= SERIAL_MAX_PAYLOAD_LEN,
        s.len() == frame_len(payload_len),
        s[0] == 0x53 && s[1] == 0x50 && s[2] == SERIAL_VERSION,
        opcode::is_opcode_byte(s[3]),
        field(s, 8, 12) == payload_len,
        field(s, 14, 16) == 0,
        field(s, 16int + payload_len, 20int + payload_len) == fnv1a(s.take(16int + payload_len)),
        s.skip(20int + payload_len) == zeros((s.len() - payload_len - 20) as nat),
    ensures
        first_fault(s) is None,
{
    reveal(first_fault);
}

/// Two frames with the same bytes are the same frame: decoding gives back the metadata and
/// the payload that were encoded.
pub proof fn law_frame_bytes_are_injective(f: WireFrame, g: WireFrame)
    requires
        f.fits(),
        g.fits(),
        frame_bytes(f) == frame_bytes(g),
    ensures
        f == g,
{
    lemma_frame_fields(f);
    lemma_frame_fields(g);
    opcode::law_opcode_bytes_are_distinct(f.opcode, g.opcode);
}

proof fn lemma_frame_bytes_len(f: WireFrame)
    requires
        f.fits(),
    ensures
        frame_bytes(f).len() == frame_len(f.payload.len()),
{
    lemma_frame_fields(f);
}

/// Every frame's length is a multiple of the alignment, and the shortest such length that
/// holds header, payload and checksum.
pub proof fn law_frames_are_aligned(f: WireFrame)
    requires
        f.fits(),
    ensures
        frame_bytes(f).len() % SERIAL_ALIGNMENT as nat == 0,
        frame_bytes(f).len() >= SERIAL_HEADER_LEN + f.payload.len() + SERIAL_CHECKSUM_LEN,
        frame_bytes(f).len() < SERIAL_HEADER_LEN + f.payload.len() + SERIAL_CHECKSUM_LEN
            + SERIAL_ALIGNMENT,
{
    lemma_frame_bytes_len(f);
    let n = f.payload.len();
    assert(frame_len(n) % 8 == 0 && n + 20 <= frame_len(n) < n + 28);
}

/// A frame with one changed byte in its payload or its checksum fails the checksum, and nothing
/// before it.
pub proof fn law_damaged_frames_fail_the_checksum(f: WireFrame, i: int, b: u8)
    requires
        f.fits(),
        16 <= i < 20 + f.payload.len(),
        b != frame_bytes(f)[i],
    ensures
        ({
            let s = frame_bytes(f).update(i, b);
            let at = 16 + f.payload.len() as int;
            first_fault(s) == Some(
                SerialProtocolError::ChecksumMismatch {
                    expected: fnv1a(s.take(at)),
                    actual: field(s, at, at + 4) as u32,
                },
            )
        }),
        field(frame_bytes(f).update(i, b), 8, 12) == f.payload.len(),
{
    let whole = frame_bytes(f);
    let s = whole.update(i, b);
    let at = 16 + f.payload.len() as int;
    lemma_frame_fields(f);
    assert(s.subrange(8, 12) =~= whole.subrange(8, 12));
    assert(s.subrange(14, 16) =~= whole.subrange(14, 16));
    assert(opcode::opcode_byte(f.opcode) == s[3]);
    if i < at {
        assert(s.take(at) =~= whole.take(at).update(i, b));
        assert(s.subrange(at, at + 4) =~= whole.subrange(at, at + 4));
        law_one_changed_byte_changes_the_hash(whole.take(at), i, b);
    } else {
        assert(s.take(at) =~= whole.take(at));
        let (old_sum, new_sum) = (whole.subrange(at, at + 4), s.subrange(at, at + 4));
        assert(new_sum[i - at] != old_sum[i - at]);
        bytes::law_le_write_of_read(old_sum);
        bytes::law_le_write_of_read(new_sum);
    }
    lemma_wrong_checksum(s, f.payload.len());
}

/// Bytes whose fields are all in order but for the checksum fail it.
proof fn lemma_wrong_checksum(s: Seq<u8>, payload_len: nat)
    requires
        payload_len <= SERIAL_MAX_PAYLOAD_LEN,
        s.len() == frame_len(payload_len),
        s[0] == 0x53 && s[1] == 0x50 && s[2] == SERIAL_VERSION,
        opcode::is_opcode_byte(s[3]),
        field(s, 8, 12) == payload_len,
        field(s, 14, 16) == 0,
        field(s, 16int + payload_len, 20int + payload_len) != fnv1a(s.take(16int + payload_len)),
    ensures
        first_fault(s) == Some(
            SerialProtocolError::ChecksumMismatch {
                expected: fnv1a(s.take(16int + payload_len)),
                actual: field(s, 16int + payload_len, 20int + payload_len) as u32,
            },
        ),
{
    reveal(first_fault);
}

} // verus!
