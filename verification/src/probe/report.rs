//! What the probe tool prints.

use super::exchange::UartTang9kExchangeTrace;
use super::record;
use super::record::{decode_trace_payload, format_probe_bytes_hex, Decoded, TraceDecodedRecord};
use crate::serial::frame::WireFrame;
use crate::serial::opcode;
use crate::text;
use crate::text::{push_bool, push_decimal, push_hex, push_text};
use vstd::prelude::*;

verus! {

/// The parts of a payload of `len` bytes, as they follow the sequence number in a summary.
pub open spec fn parts_text(decoded: Decoded, len: nat) -> Seq<char> {
    match decoded {
        Decoded::Generic { .. } => ", payload_len="@ + text::decimal(len),
        Decoded::Status { status, detail } => ", status="@ + status + ", detail=0x"@
            + text::hex_digits(detail as nat, 8),
        Decoded::ScratchValue32(p) => ", offset=0x"@ + text::hex_digits(p.offset as nat, 8)
            + ", value=0x"@ + text::hex_digits(p.value as nat, 8),
        Decoded::ResultValue32(p) => ", offset=0x"@ + text::hex_digits(p.offset as nat, 8)
            + ", value=0x"@ + text::hex_digits(p.value as nat, 8),
        Decoded::ResultWindowStatus { valid, words, stride, base, last_sequence } => ", valid="@
            + text::bool_text(valid) + ", words="@ + text::decimal(words as nat) + ", stride="@
            + text::decimal(stride as nat) + ", base=0x"@ + text::hex_digits(base as nat, 8)
            + ", last_sequence="@ + text::decimal(last_sequence as nat),
        Decoded::DeviceInfo(p) => ", protocol="@ + text::decimal(p.protocol_version as nat)
            + ", kind="@ + text::decimal(p.device_kind as nat) + ", responder_version="@
            + text::decimal(p.responder_version as nat) + ", capabilities=0x"@ + text::hex_digits(
            p.capabilities as nat,
            8,
        ) + ", clk_hz="@ + text::decimal(p.clk_hz as nat) + ", baud="@ + text::decimal(
            p.baud as nat,
        ) + ", result_words="@ + text::decimal(p.result_window_words as nat)
            + ", result_stride="@ + text::decimal(p.result_window_stride_bytes as nat)
            + ", build_id=0x"@ + text::hex_digits(p.build_id as nat, 8),
    }
}

/// The line that sums up a response.
pub open spec fn summary_text(label: Seq<char>, response: WireFrame) -> Seq<char> {
    "OK: "@ + label + " opcode="@ + opcode::opcode_name(response.opcode) + ", sequence="@
        + text::decimal(response.sequence as nat) + parts_text(
        record::decoded_of(response),
        response.payload.len(),
    )
}

/// The parts of a payload of `len` bytes, as they follow the sequence number in a summary.
fn parts(decoded: &TraceDecodedRecord, len: usize) -> (out: String)
    ensures
        out@ == parts_text(decoded@, len as nat),
{
    match decoded {
        TraceDecodedRecord::Generic { .. } => {
            let mut out = ", payload_len=".to_owned();
            push_decimal(&mut out, len as u64);
            out
        },
        TraceDecodedRecord::Status { status, detail } => {
            let mut out = ", status=".to_owned();
            push_text(&mut out, status.as_str());
            push_text(&mut out, ", detail=0x");
            push_hex(&mut out, *detail as u64, 8);
            out
        },
        TraceDecodedRecord::ScratchValue32 { offset, value } => offset_and_value(*offset, *value),
        TraceDecodedRecord::ResultValue32 { offset, value } => offset_and_value(*offset, *value),
        TraceDecodedRecord::ResultWindowStatus { valid, words, stride, base, last_sequence } => {
            let mut out = ", valid=".to_owned();
            push_bool(&mut out, *valid);
            push_text(&mut out, ", words=");
            push_decimal(&mut out, *words as u64);
            push_text(&mut out, ", stride=");
            push_decimal(&mut out, *stride as u64);
            push_text(&mut out, ", base=0x");
            push_hex(&mut out, *base as u64, 8);
            push_text(&mut out, ", last_sequence=");
            push_decimal(&mut out, *last_sequence as u64);
            out
        },
        TraceDecodedRecord::DeviceInfo {
            protocol,
            kind,
            responder_version,
            capabilities,
            clk_hz,
            baud,
            result_words,
            result_stride,
            build_id,
        } => {
            let mut out = ", protocol=".to_owned();
            push_decimal(&mut out, *protocol as u64);
            push_text(&mut out, ", kind=");
            push_decimal(&mut out, *kind as u64);
            push_text(&mut out, ", responder_version=");
            push_decimal(&mut out, *responder_version as u64);
            push_text(&mut out, ", capabilities=0x");
            push_hex(&mut out, *capabilities as u64, 8);
            push_text(&mut out, ", clk_hz=");
            push_decimal(&mut out, *clk_hz as u64);
            push_text(&mut out, ", baud=");
            push_decimal(&mut out, *baud as u64);
            push_text(&mut out, ", result_words=");
            push_decimal(&mut out, *result_words as u64);
            push_text(&mut out, ", result_stride=");
            push_decimal(&mut out, *result_stride as u64);
            push_text(&mut out, ", build_id=0x");
            push_hex(&mut out, *build_id as u64, 8);
            out
        },
    }
}

/// An offset and a value, as they follow the sequence number in a summary.
fn offset_and_value(offset: u32, value: u32) -> (out: String)
    ensures
        out@ == ", offset=0x"@ + text::hex_digits(offset as nat, 8) + ", value=0x"@
            + text::hex_digits(value as nat, 8),
{
    let mut out = ", offset=0x".to_owned();
    push_hex(&mut out, offset as u64, 8);
    push_text(&mut out, ", value=0x");
    push_hex(&mut out, value as u64, 8);
    out
}

/// The line that sums up an exchange.
pub fn trace_summary(label: &str, trace: &UartTang9kExchangeTrace) -> (line: String)
    ensures
        line@ == summary_text(label@, trace.response@),
{
    let decoded = decode_trace_payload(&trace.response);
    let tail = parts(&decoded, trace.response.payload.len());
    let mut line = "OK: ".to_owned();
    push_text(&mut line, label);
    push_text(&mut line, " opcode=");
    push_text(&mut line, trace.response.opcode.name());
    push_text(&mut line, ", sequence=");
    push_decimal(&mut line, trace.response.sequence as u64);
    push_text(&mut line, tail.as_str());
    line
}

/// The lines that show the bytes of an exchange.
pub fn raw_exchange(label: &str, request: &[u8], response: &[u8]) -> (lines: Vec<String>)
    ensures
        lines@.len() == 4,
        lines@[0]@ == label@ + "_request_raw_len="@ + text::decimal(request@.len()),
        lines@[1]@ == label@ + "_request_raw="@ + record::shown_bytes(request@),
        lines@[2]@ == label@ + "_response_raw_len="@ + text::decimal(response@.len()),
        lines@[3]@ == label@ + "_response_raw="@ + record::shown_bytes(response@),
{
    let mut lines: Vec<String> = Vec::new();
    let mut line = label.to_owned();
    push_text(&mut line, "_request_raw_len=");
    push_decimal(&mut line, request.len() as u64);
    lines.push(line);
    let mut line = label.to_owned();
    push_text(&mut line, "_request_raw=");
    push_text(&mut line, format_probe_bytes_hex(request).as_str());
    lines.push(line);
    let mut line = label.to_owned();
    push_text(&mut line, "_response_raw_len=");
    push_decimal(&mut line, response.len() as u64);
    lines.push(line);
    let mut line = label.to_owned();
    push_text(&mut line, "_response_raw=");
    push_text(&mut line, format_probe_bytes_hex(response).as_str());
    lines.push(line);
    lines
}

} // verus!
