//! Records of probes, and what a record must show to be accepted.

use super::exchange::{UartTang9kExchangeError, UartTang9kExchangeTrace};
use super::run;
use super::run::{window_step_label, Tang9kBringupSuiteTrace};
use super::steps;
use crate::serial::command;
use crate::serial::command::{
    DeviceInfoPayload, ResultValue32Payload, ResultWindowStatusPayload, ScratchValue32Payload,
};
use crate::serial::error;
use crate::serial::frame::{SerialFrame, WireFrame};
use crate::serial::opcode;
use crate::serial::opcode::SerialOpcode;
use crate::serial::status;
use crate::serial::status::SerialStatusPayload;
use crate::text;
use crate::text::{push_hex, push_text};
use vstd::prelude::*;

verus! {

/// Names the layout of a record. It changes with the meaning of a field.
pub const TANG9K_PROBE_RECORD_SCHEMA: &'static str = "sptorch.tang9k.probe.v1";

/// What a probe was run with.
#[derive(Debug, Clone, PartialEq, Eq)]
pub struct ProbeRecordMetadata {
    pub command: String,
    pub port: String,
    pub baud: u32,
    pub timeout_ms: u64,
}

impl ProbeRecordMetadata {
    /// The metadata from its fields.
    pub fn new(command: &str, port: &str, baud: u32, timeout_ms: u64) -> (metadata: Self)
        ensures
            metadata.command@ == command@,
            metadata.port@ == port@,
            metadata.baud == baud,
            metadata.timeout_ms == timeout_ms,
    {
        ProbeRecordMetadata {
            command: command.to_owned(),
            port: port.to_owned(),
            baud,
            timeout_ms,
        }
    }
}

/// The bytes as pairs of hexadecimal digits with blanks between them.
pub open spec fn spaced_hex(s: Seq<u8>) -> Seq<char>
    decreases s.len(),
{
    if s.len() == 0 {
        seq![]
    } else if s.len() == 1 {
        text::hex_digits(s[0] as nat, 2)
    } else {
        spaced_hex(s.drop_last()) + " "@ + text::hex_digits(s.last() as nat, 2)
    }
}

/// The bytes as a reader sees them; no bytes are written out.
pub open spec fn shown_bytes(s: Seq<u8>) -> Seq<char> {
    if s.len() == 0 {
        "<empty>"@
    } else {
        spaced_hex(s)
    }
}

/// The bytes as pairs of hexadecimal digits, or `<empty>`.
pub fn format_probe_bytes_hex(bytes: &[u8]) -> (shown: String)
    ensures
        shown@ == shown_bytes(bytes@),
{
    if bytes.len() == 0 {
        return "<empty>".to_owned();
    }
    let mut out = String::new();
    let mut i: usize = 0;
    while i < bytes.len()
        invariant
            i <= bytes@.len(),
            out@ == spaced_hex(bytes@.take(i as int)),
        decreases bytes@.len() - i,
    {
        if i > 0 {
            push_text(&mut out, " ");
        }
        push_hex(&mut out, bytes[i] as u64, 2);
        proof {
            let front = bytes@.take(i + 1);
            assert(front.drop_last() =~= bytes@.take(i as int));
            assert(front.last() == bytes@[i as int]);
            if i == 0 {
                assert(bytes@.take(0) =~= Seq::<u8>::empty());
                assert(out@ =~= spaced_hex(front));
            }
        }
        i = i + 1;
    }
    proof {
        assert(bytes@.take(bytes@.len() as int) =~= bytes@);
    }
    out
}

/// The payload of a response in parts, where the operation has parts; else in hexadecimal.
#[derive(Debug, Clone, PartialEq, Eq)]
pub enum TraceDecodedRecord {
    Generic { payload_hex: String },
    Status { status: String, detail: u32 },
    ScratchValue32 { offset: u32, value: u32 },
    ResultValue32 { offset: u32, value: u32 },
    ResultWindowStatus { valid: bool, words: u8, stride: u16, base: u32, last_sequence: u32 },
    DeviceInfo {
        protocol: u8,
        kind: u8,
        responder_version: u16,
        capabilities: u32,
        clk_hz: u32,
        baud: u32,
        result_words: u8,
        result_stride: u8,
        build_id: u32,
    },
}

/// The content of a [`TraceDecodedRecord`].
pub enum Decoded {
    Generic { payload_hex: Seq<char> },
    Status { status: Seq<char>, detail: u32 },
    ScratchValue32(ScratchValue32Payload),
    ResultValue32(ResultValue32Payload),
    ResultWindowStatus { valid: bool, words: u8, stride: u16, base: u32, last_sequence: u32 },
    DeviceInfo(DeviceInfoPayload),
}

impl View for TraceDecodedRecord {
    type V = Decoded;

    open spec fn view(&self) -> Decoded {
        match *self {
            TraceDecodedRecord::Generic { payload_hex } => Decoded::Generic {
                payload_hex: payload_hex@,
            },
            TraceDecodedRecord::Status { status, detail } => Decoded::Status {
                status: status@,
                detail,
            },
            TraceDecodedRecord::ScratchValue32 { offset, value } => Decoded::ScratchValue32(
                ScratchValue32Payload { offset, value },
            ),
            TraceDecodedRecord::ResultValue32 { offset, value } => Decoded::ResultValue32(
                ResultValue32Payload { offset, value },
            ),
            TraceDecodedRecord::ResultWindowStatus {
                valid,
                words,
                stride,
                base,
                last_sequence,
            } => Decoded::ResultWindowStatus { valid, words, stride, base, last_sequence },
            TraceDecodedRecord::DeviceInfo {
                protocol,
                kind,
                responder_version,
                capabilities,
                clk_hz,
                baud,
                result_words,
                result_stride,
                build_id,
            } => Decoded::DeviceInfo(
                DeviceInfoPayload {
                    protocol_version: protocol,
                    device_kind: kind,
                    responder_version,
                    capabilities,
                    clk_hz,
                    baud,
                    result_window_words: result_words,
                    result_window_stride_bytes: result_stride,
                    build_id,
                },
            ),
        }
    }
}

/// The window status that a payload without a fault holds.
pub open spec fn held_window_status(s: Seq<u8>) -> ResultWindowStatusPayload {
    choose|p: ResultWindowStatusPayload| s == #[trigger] command::window_status_bytes(p)
}

/// The device info that a payload without a fault holds.
pub open spec fn held_device_info(s: Seq<u8>) -> DeviceInfoPayload {
    choose|p: DeviceInfoPayload| s == #[trigger] command::device_info_bytes(p)
}

/// The parts of a response's payload. A payload that its operation does not allow is shown
/// in hexadecimal, as is one of an operation without parts.
pub open spec fn decoded_of(response: WireFrame) -> Decoded {
    let s = response.payload;
    let raw = Decoded::Generic { payload_hex: shown_bytes(s) };
    match response.opcode {
        SerialOpcode::ScratchValue32 => if s.len() == 8 {
            Decoded::ScratchValue32(steps::held_scratch_value(s))
        } else {
            raw
        },
        SerialOpcode::ResultValue32 => if s.len() == 8 {
            Decoded::ResultValue32(steps::held_result_value(s))
        } else {
            raw
        },
        SerialOpcode::ResultWindowStatus => if command::window_status_fault(s) is None {
            let p = held_window_status(s);
            Decoded::ResultWindowStatus {
                valid: p.flags % 2 == 1,
                words: p.word_count,
                stride: p.stride_bytes,
                base: p.base_offset,
                last_sequence: p.last_sequence,
            }
        } else {
            raw
        },
        SerialOpcode::DeviceInfo => if command::device_info_fault(s) is None {
            Decoded::DeviceInfo(held_device_info(s))
        } else {
            raw
        },
        SerialOpcode::Ack | SerialOpcode::Error => if status::status_fault(s) is None {
            let p = status::held_status(s);
            Decoded::Status { status: opcode::status_name(p.code), detail: p.detail }
        } else {
            raw
        },
        _ => raw,
    }
}

/// Takes the payload of a response apart.
pub fn decode_trace_payload(response: &SerialFrame) -> (decoded: TraceDecodedRecord)
    ensures
        decoded@ == decoded_of(response@),
{
    let payload: &[u8] = response.payload.as_slice();
    match response.opcode {
        SerialOpcode::ScratchValue32 => match ScratchValue32Payload::decode_payload(payload) {
            Ok(p) => {
                proof {
                    command::law_scratch_value_roundtrip(p, steps::held_scratch_value(payload@));
                }
                TraceDecodedRecord::ScratchValue32 { offset: p.offset, value: p.value }
            },
            Err(_) => generic_decoded_payload(payload),
        },
        SerialOpcode::ResultValue32 => match ResultValue32Payload::decode_payload(payload) {
            Ok(p) => {
                proof {
                    command::law_result_value_roundtrip(p, steps::held_result_value(payload@));
                }
                TraceDecodedRecord::ResultValue32 { offset: p.offset, value: p.value }
            },
            Err(_) => generic_decoded_payload(payload),
        },
        SerialOpcode::ResultWindowStatus => match ResultWindowStatusPayload::decode_payload(
            payload,
        ) {
            Ok(p) => {
                proof {
                    command::law_window_status_roundtrip(p, held_window_status(payload@));
                }
                TraceDecodedRecord::ResultWindowStatus {
                    valid: p.valid(),
                    words: p.word_count,
                    stride: p.stride_bytes,
                    base: p.base_offset,
                    last_sequence: p.last_sequence,
                }
            },
            Err(_) => generic_decoded_payload(payload),
        },
        SerialOpcode::DeviceInfo => match DeviceInfoPayload::decode_payload(payload) {
            Ok(p) => {
                proof {
                    command::law_device_info_roundtrip(p, held_device_info(payload@));
                }
                TraceDecodedRecord::DeviceInfo {
                    protocol: p.protocol_version,
                    kind: p.device_kind,
                    responder_version: p.responder_version,
                    capabilities: p.capabilities,
                    clk_hz: p.clk_hz,
                    baud: p.baud,
                    result_words: p.result_window_words,
                    result_stride: p.result_window_stride_bytes,
                    build_id: p.build_id,
                }
            },
            Err(_) => generic_decoded_payload(payload),
        },
        SerialOpcode::Ack | SerialOpcode::Error => match SerialStatusPayload::decode(payload) {
            Ok(p) => {
                proof {
                    status::law_status_roundtrip(p, status::held_status(payload@));
                }
                TraceDecodedRecord::Status { status: p.code.name().to_owned(), detail: p.detail }
            },
            Err(_) => generic_decoded_payload(payload),
        },
        _ => generic_decoded_payload(payload),
    }
}

/// A payload in hexadecimal.
fn generic_decoded_payload(payload: &[u8]) -> (decoded: TraceDecodedRecord)
    ensures
        decoded@ == (Decoded::Generic { payload_hex: shown_bytes(payload@) }),
{
    TraceDecodedRecord::Generic { payload_hex: format_probe_bytes_hex(payload) }
}

/// The evidence of one exchange.
#[derive(Debug, Clone, PartialEq, Eq)]
pub struct TraceRecord {
    pub label: String,
    pub opcode: String,
    pub sequence: u32,
    pub payload_len: usize,
    pub request_raw_len: usize,
    pub request_raw_hex: String,
    pub response_raw_len: usize,
    pub response_raw_hex: String,
    pub decoded: TraceDecodedRecord,
}

impl TraceRecord {
    /// Whether this is the record of `trace` under `label`.
    pub open spec fn records(&self, label: Seq<char>, trace: UartTang9kExchangeTrace) -> bool {
        &&& self.label@ == label
        &&& self.opcode@ == opcode::opcode_name(trace.response.opcode)
        &&& self.sequence == trace.response.sequence
        &&& self.payload_len == trace.response.payload@.len()
        &&& self.request_raw_len == trace.request_bytes@.len()
        &&& self.request_raw_hex@ == shown_bytes(trace.request_bytes@)
        &&& self.response_raw_len == trace.raw_response_bytes@.len()
        &&& self.response_raw_hex@ == shown_bytes(trace.raw_response_bytes@)
        &&& self.decoded@ == decoded_of(trace.response@)
    }

    /// The record of an exchange.
    pub fn from_trace(label: &str, trace: &UartTang9kExchangeTrace) -> (record: Self)
        ensures
            record.records(label@, *trace),
    {
        TraceRecord {
            label: label.to_owned(),
            opcode: trace.response.opcode.name().to_owned(),
            sequence: trace.response.sequence,
            payload_len: trace.response.payload.len(),
            request_raw_len: trace.request_bytes.len(),
            request_raw_hex: format_probe_bytes_hex(trace.request_bytes.as_slice()),
            response_raw_len: trace.raw_response_bytes.len(),
            response_raw_hex: format_probe_bytes_hex(trace.raw_response_bytes.as_slice()),
            decoded: decode_trace_payload(&trace.response),
        }
    }
}

/// The evidence of a failed exchange.
#[derive(Debug, Clone, PartialEq, Eq)]
pub struct ErrorRecord {
    pub message: String,
    pub request_raw_len: usize,
    pub request_raw_hex: String,
    pub response_raw_len: usize,
    pub response_raw_hex: String,
}

/// The record of a probe.
#[derive(Debug, Clone, PartialEq, Eq)]
pub struct ProbeRecord {
    pub schema: String,
    pub timestamp_unix_ms: u128,
    pub command: String,
    pub port: String,
    pub baud: u32,
    pub timeout_ms: u64,
    pub status: String,
    pub traces: Vec<TraceRecord>,
    pub error: Option<ErrorRecord>,
}

impl ProbeRecord {
    /// Whether the record carries the schema, the time and the metadata.
    pub open spec fn is_of(&self, metadata: ProbeRecordMetadata, timestamp_unix_ms: u128) -> bool {
        &&& self.schema@ == TANG9K_PROBE_RECORD_SCHEMA@
        &&& self.timestamp_unix_ms == timestamp_unix_ms
        &&& self.command@ == metadata.command@
        &&& self.port@ == metadata.port@
        &&& self.baud == metadata.baud
        &&& self.timeout_ms == metadata.timeout_ms
    }

    /// The record of a probe that went through.
    pub fn ok(
        metadata: &ProbeRecordMetadata,
        traces: Vec<TraceRecord>,
        timestamp_unix_ms: u128,
    ) -> (record: Self)
        ensures
            record.is_of(*metadata, timestamp_unix_ms),
            record.status@ == "ok"@,
            record.traces == traces,
            record.error is None,
    {
        ProbeRecord {
            schema: TANG9K_PROBE_RECORD_SCHEMA.to_owned(),
            timestamp_unix_ms,
            command: metadata.command.clone(),
            port: metadata.port.clone(),
            baud: metadata.baud,
            timeout_ms: metadata.timeout_ms,
            status: "ok".to_owned(),
            traces,
            error: None,
        }
    }

    /// The record of a probe that failed, with the bytes of the failed exchange.
    pub fn error(
        metadata: &ProbeRecordMetadata,
        err: &UartTang9kExchangeError,
        timestamp_unix_ms: u128,
    ) -> (record: Self)
        ensures
            record.is_of(*metadata, timestamp_unix_ms),
            record.status@ == "error"@,
            record.traces@.len() == 0,
            record.error matches Some(shown) && {
                &&& shown.message@ == error::fault_text(err.error)
                &&& shown.request_raw_len == err.request_bytes@.len()
                &&& shown.request_raw_hex@ == shown_bytes(err.request_bytes@)
                &&& shown.response_raw_len == err.raw_response_bytes@.len()
                &&& shown.response_raw_hex@ == shown_bytes(err.raw_response_bytes@)
            },
    {
        ProbeRecord {
            schema: TANG9K_PROBE_RECORD_SCHEMA.to_owned(),
            timestamp_unix_ms,
            command: metadata.command.clone(),
            port: metadata.port.clone(),
            baud: metadata.baud,
            timeout_ms: metadata.timeout_ms,
            status: "error".to_owned(),
            traces: Vec::new(),
            error: Some(
                ErrorRecord {
                    message: err.message(),
                    request_raw_len: err.request_bytes.len(),
                    request_raw_hex: format_probe_bytes_hex(err.request_bytes.as_slice()),
                    response_raw_len: err.raw_response_bytes.len(),
                    response_raw_hex: format_probe_bytes_hex(err.raw_response_bytes.as_slice()),
                },
            ),
        }
    }
}

/// The label of exchange `i` of a suite with `window` exchanges of the result window and
/// `setup` exchanges before the read past its end.
pub open spec fn record_label(window: nat, setup: nat, i: int) -> Seq<char> {
    if i < 7 {
        run::suite_label(i)
    } else if i < 7 + window {
        run::window_label("suite result window matmul"@, "suite result window read "@, i - 7)
    } else if i < 7 + window + setup {
        run::window_label("suite oob matmul"@, "suite oob setup read "@, i - 7 - window)
    } else {
        "suite oob rejected read"@
    }
}

/// The records of the suite's exchanges, in the order in which they took place.
pub fn suite_trace_records(suite: &Tang9kBringupSuiteTrace) -> (records: Vec<TraceRecord>)
    ensures
        records@.len() == suite.all().len(),
        forall|i: int|
            0 <= i < records@.len() ==> (#[trigger] records@[i]).records(
                record_label(suite.result_window@.len(), suite.result_oob_setup@.len(), i),
                suite.all()[i],
            ),
{
    let mut records: Vec<TraceRecord> = Vec::new();
    records.push(TraceRecord::from_trace("suite device info", &suite.device_info));
    records.push(TraceRecord::from_trace("suite ping", &suite.ping));
    records.push(TraceRecord::from_trace("suite matmul", &suite.matmul));
    records.push(TraceRecord::from_trace("suite scratch write", &suite.scratch_write));
    records.push(TraceRecord::from_trace("suite scratch read", &suite.scratch_read));
    records.push(
        TraceRecord::from_trace("suite status matmul", &suite.result_window_status_matmul),
    );
    records.push(TraceRecord::from_trace("suite status", &suite.result_window_status));
    let ghost window = suite.result_window@.len();
    let ghost setup = suite.result_oob_setup@.len();
    let ghost all = suite.all();
    let mut i: usize = 0;
    while i < suite.result_window.len()
        invariant
            window == suite.result_window@.len(),
            setup == suite.result_oob_setup@.len(),
            all == suite.all(),
            i <= window,
            records@.len() == 7 + i,
            forall|j: int|
                0 <= j < records@.len() ==> (#[trigger] records@[j]).records(
                    record_label(window, setup, j),
                    all[j],
                ),
        decreases window - i,
    {
        let label = window_step_label(
            "suite result window matmul",
            "suite result window read ",
            i,
        );
        records.push(TraceRecord::from_trace(label.as_str(), &suite.result_window[i]));
        i = i + 1;
    }
    let mut k: usize = 0;
    while k < suite.result_oob_setup.len()
        invariant
            window == suite.result_window@.len(),
            setup == suite.result_oob_setup@.len(),
            all == suite.all(),
            k <= setup,
            records@.len() == 7 + window + k,
            forall|j: int|
                0 <= j < records@.len() ==> (#[trigger] records@[j]).records(
                    record_label(window, setup, j),
                    all[j],
                ),
        decreases setup - k,
    {
        let label = window_step_label("suite oob matmul", "suite oob setup read ", k);
        records.push(TraceRecord::from_trace(label.as_str(), &suite.result_oob_setup[k]));
        k = k + 1;
    }
    records.push(
        TraceRecord::from_trace("suite oob rejected read", &suite.result_oob_rejected_read),
    );
    records
}

} // verus!
