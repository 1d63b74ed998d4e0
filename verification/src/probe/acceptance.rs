//! What a record must show for the board to be accepted.

use super::exchange::UartTang9kExchangeTrace;
use super::record;
use super::record::{
    Decoded, ProbeRecord, TraceDecodedRecord, TraceRecord, TANG9K_PROBE_RECORD_SCHEMA,
};
use super::run;
use super::run::Tang9kBringupSuiteTrace;
use super::steps;
use super::steps::{expected_oob_offset, smoke_matmul, ProbeCommand, ProbeStep};
use crate::serial::command;
use crate::serial::command::{
    DeviceInfoPayload, ResultWindowStatusPayload, TANG9K_CAP_MATMUL32X32, TANG9K_CAP_RESULT_WINDOW,
    TANG9K_CAP_RESULT_WINDOW_STATUS, TANG9K_CAP_SCRATCH32, TANG9K_DEVICE_KIND_UART_RESPONDER,
    TANG9K_RESULT_WINDOW_SMOKE_WORDS, TANG9K_RESULT_WINDOW_WORD_STRIDE_BYTES,
    TANG9K_UART_RESPONDER_BAUD, TANG9K_UART_RESPONDER_BUILD_ID, TANG9K_UART_RESPONDER_CLK_HZ,
};
use crate::serial::frame;
use crate::serial::status;
use crate::text;
use crate::text::{contains_text, push_decimal, push_hex, push_text, same_text};
use vstd::prelude::*;

verus! {

/// Why a record is not accepted.
#[derive(Debug, Clone, PartialEq, Eq)]
pub enum ProbeRecordValidationError {
    SchemaMismatch { expected: &'static str, actual: String },
    StatusNotOk { status: String },
    MissingTrace { label_hint: &'static str },
    DeviceInfoMismatch { reason: String },
    ResultWindowStatusMismatch { reason: String },
    ResultWindowWordCountMismatch { expected: usize, actual: usize },
    OobRejectionMissing,
}

/// The content of a [`ProbeRecordValidationError`].
pub enum RecordFault {
    SchemaMismatch { expected: Seq<char>, actual: Seq<char> },
    StatusNotOk { status: Seq<char> },
    MissingTrace { label_hint: Seq<char> },
    DeviceInfoMismatch { reason: Seq<char> },
    ResultWindowStatusMismatch { reason: Seq<char> },
    ResultWindowWordCountMismatch { expected: usize, actual: usize },
    OobRejectionMissing,
}

impl View for ProbeRecordValidationError {
    type V = RecordFault;

    open spec fn view(&self) -> RecordFault {
        match *self {
            ProbeRecordValidationError::SchemaMismatch {
                expected,
                actual,
            } => RecordFault::SchemaMismatch { expected: expected@, actual: actual@ },
            ProbeRecordValidationError::StatusNotOk { status } => RecordFault::StatusNotOk {
                status: status@,
            },
            ProbeRecordValidationError::MissingTrace { label_hint } => RecordFault::MissingTrace {
                label_hint: label_hint@,
            },
            ProbeRecordValidationError::DeviceInfoMismatch {
                reason,
            } => RecordFault::DeviceInfoMismatch { reason: reason@ },
            ProbeRecordValidationError::ResultWindowStatusMismatch {
                reason,
            } => RecordFault::ResultWindowStatusMismatch { reason: reason@ },
            ProbeRecordValidationError::ResultWindowWordCountMismatch {
                expected,
                actual,
            } => RecordFault::ResultWindowWordCountMismatch { expected, actual },
            ProbeRecordValidationError::OobRejectionMissing => RecordFault::OobRejectionMissing,
        }
    }
}

/// The text of a fault.
pub open spec fn record_fault_text(fault: RecordFault) -> Seq<char> {
    match fault {
        RecordFault::SchemaMismatch { expected, actual } =>
            "probe record schema mismatch: expected "@ + expected + ", got "@ + actual,
        RecordFault::StatusNotOk { status } => "probe record status must be ok, got "@ + status,
        RecordFault::MissingTrace { label_hint } => "probe record is missing trace: "@
            + label_hint,
        RecordFault::DeviceInfoMismatch { reason } => "probe record device-info mismatch: "@
            + reason,
        RecordFault::ResultWindowStatusMismatch { reason } =>
            "probe record result-window status mismatch: "@ + reason,
        RecordFault::ResultWindowWordCountMismatch { expected, actual } =>
            "probe record result-window word count mismatch: expected "@ + text::decimal(
            expected as nat,
        ) + ", got "@ + text::decimal(actual as nat),
        RecordFault::OobRejectionMissing => "probe record is missing OOB HardwareFault rejection"@,
    }
}

impl ProbeRecordValidationError {
    /// The text of this fault.
    pub fn message(&self) -> (shown: String)
        ensures
            shown@ == record_fault_text(self@),
    {
        match self {
            ProbeRecordValidationError::SchemaMismatch { expected, actual } => {
                let mut out = "probe record schema mismatch: expected ".to_owned();
                push_text(&mut out, expected);
                push_text(&mut out, ", got ");
                push_text(&mut out, actual.as_str());
                out
            },
            ProbeRecordValidationError::StatusNotOk { status } => {
                let mut out = "probe record status must be ok, got ".to_owned();
                push_text(&mut out, status.as_str());
                out
            },
            ProbeRecordValidationError::MissingTrace { label_hint } => {
                let mut out = "probe record is missing trace: ".to_owned();
                push_text(&mut out, label_hint);
                out
            },
            ProbeRecordValidationError::DeviceInfoMismatch { reason } => {
                let mut out = "probe record device-info mismatch: ".to_owned();
                push_text(&mut out, reason.as_str());
                out
            },
            ProbeRecordValidationError::ResultWindowStatusMismatch { reason } => {
                let mut out = "probe record result-window status mismatch: ".to_owned();
                push_text(&mut out, reason.as_str());
                out
            },
            ProbeRecordValidationError::ResultWindowWordCountMismatch { expected, actual } => {
                let mut out =
                    "probe record result-window word count mismatch: expected ".to_owned();
                push_decimal(&mut out, *expected as u64);
                push_text(&mut out, ", got ");
                push_decimal(&mut out, *actual as u64);
                out
            },
            ProbeRecordValidationError::OobRejectionMissing => {
                "probe record is missing OOB HardwareFault rejection".to_owned()
            },
        }
    }
}

/// `what` with the expected and the found decimal.
pub open spec fn expected_got(what: Seq<char>, expected: nat, got: nat) -> Seq<char> {
    what + " expected "@ + text::decimal(expected) + ", got "@ + text::decimal(got)
}

/// `what` with the expected and the found word in hexadecimal.
pub open spec fn expected_got_hex(what: Seq<char>, expected: u32, got: u32) -> Seq<char> {
    what + " expected 0x"@ + text::hex_digits(expected as nat, 8) + ", got 0x"@
        + text::hex_digits(got as nat, 8)
}

/// `what` with the expected and the found decimal.
fn mismatch(what: &str, expected: u64, got: u64) -> (reason: String)
    ensures
        reason@ == expected_got(what@, expected as nat, got as nat),
{
    let mut out = what.to_owned();
    push_text(&mut out, " expected ");
    push_decimal(&mut out, expected);
    push_text(&mut out, ", got ");
    push_decimal(&mut out, got);
    out
}

/// `what` with the expected and the found word in hexadecimal.
fn mismatch_hex(what: &str, expected: u32, got: u32) -> (reason: String)
    ensures
        reason@ == expected_got_hex(what@, expected, got),
{
    let mut out = what.to_owned();
    push_text(&mut out, " expected 0x");
    push_hex(&mut out, expected as u64, 8);
    push_text(&mut out, ", got 0x");
    push_hex(&mut out, got as u64, 8);
    out
}

/// The first capability of the responder that `capabilities` lacks, if any.
pub open spec fn missing_capability(capabilities: u32) -> Option<u32> {
    if capabilities & TANG9K_CAP_MATMUL32X32 == 0 {
        Some(TANG9K_CAP_MATMUL32X32)
    } else if capabilities & TANG9K_CAP_SCRATCH32 == 0 {
        Some(TANG9K_CAP_SCRATCH32)
    } else if capabilities & TANG9K_CAP_RESULT_WINDOW == 0 {
        Some(TANG9K_CAP_RESULT_WINDOW)
    } else if capabilities & TANG9K_CAP_RESULT_WINDOW_STATUS == 0 {
        Some(TANG9K_CAP_RESULT_WINDOW_STATUS)
    } else {
        None
    }
}

/// Why a device info is not that of the Tang9k UART responder, if it is not.
pub open spec fn info_mismatch(p: DeviceInfoPayload) -> Option<Seq<char>> {
    if p.protocol_version != frame::SERIAL_VERSION {
        Some(
            expected_got("protocol"@, frame::SERIAL_VERSION as nat, p.protocol_version as nat),
        )
    } else if p.device_kind != TANG9K_DEVICE_KIND_UART_RESPONDER {
        Some(
            expected_got(
                "kind"@,
                TANG9K_DEVICE_KIND_UART_RESPONDER as nat,
                p.device_kind as nat,
            ),
        )
    } else if missing_capability(p.capabilities) is Some {
        Some(
            "missing capability 0x"@ + text::hex_digits(
                missing_capability(p.capabilities)->0 as nat,
                8,
            ),
        )
    } else if p.clk_hz != TANG9K_UART_RESPONDER_CLK_HZ {
        Some(expected_got("clk_hz"@, TANG9K_UART_RESPONDER_CLK_HZ as nat, p.clk_hz as nat))
    } else if p.baud != TANG9K_UART_RESPONDER_BAUD {
        Some(expected_got("baud"@, TANG9K_UART_RESPONDER_BAUD as nat, p.baud as nat))
    } else if p.result_window_words != TANG9K_RESULT_WINDOW_SMOKE_WORDS {
        Some(
            expected_got(
                "result_words"@,
                TANG9K_RESULT_WINDOW_SMOKE_WORDS as nat,
                p.result_window_words as nat,
            ),
        )
    } else if p.result_window_stride_bytes != TANG9K_RESULT_WINDOW_WORD_STRIDE_BYTES {
        Some(
            expected_got(
                "result_stride"@,
                TANG9K_RESULT_WINDOW_WORD_STRIDE_BYTES as nat,
                p.result_window_stride_bytes as nat,
            ),
        )
    } else if p.build_id != TANG9K_UART_RESPONDER_BUILD_ID {
        Some(expected_got_hex("build_id"@, TANG9K_UART_RESPONDER_BUILD_ID, p.build_id))
    } else {
        None
    }
}

/// Why a trace does not show the Tang9k UART responder, if it does not.
pub open spec fn device_info_fault(decoded: Decoded) -> Option<RecordFault> {
    match decoded {
        Decoded::DeviceInfo(p) => match info_mismatch(p) {
            Some(reason) => Some(RecordFault::DeviceInfoMismatch { reason }),
            None => None,
        },
        _ => Some(RecordFault::MissingTrace { label_hint: "DeviceInfo"@ }),
    }
}

/// Finds the first capability of the responder that `capabilities` lacks.
fn find_missing_capability(capabilities: u32) -> (missing: Option<u32>)
    ensures
        missing == missing_capability(capabilities),
{
    if capabilities & TANG9K_CAP_MATMUL32X32 == 0 {
        Some(TANG9K_CAP_MATMUL32X32)
    } else if capabilities & TANG9K_CAP_SCRATCH32 == 0 {
        Some(TANG9K_CAP_SCRATCH32)
    } else if capabilities & TANG9K_CAP_RESULT_WINDOW == 0 {
        Some(TANG9K_CAP_RESULT_WINDOW)
    } else if capabilities & TANG9K_CAP_RESULT_WINDOW_STATUS == 0 {
        Some(TANG9K_CAP_RESULT_WINDOW_STATUS)
    } else {
        None
    }
}

/// A fault of a device info.
fn info_fault(reason: String) -> (result: Result<(), ProbeRecordValidationError>)
    ensures
        result matches Err(e) && e@ == (RecordFault::DeviceInfoMismatch { reason: reason@ }),
{
    Err(ProbeRecordValidationError::DeviceInfoMismatch { reason })
}

/// Checks that a trace shows the Tang9k UART responder.
pub fn validate_device_info_trace(trace: &TraceRecord) -> (result: Result<
    (),
    ProbeRecordValidationError,
>)
    ensures
        result is Ok <==> device_info_fault(trace.decoded@) is None,
        result matches Err(e) ==> device_info_fault(trace.decoded@) == Some(e@),
{
    match &trace.decoded {
        TraceDecodedRecord::DeviceInfo {
            protocol,
            kind,
            capabilities,
            clk_hz,
            baud,
            result_words,
            result_stride,
            build_id,
            ..
        } => {
            if *protocol != frame::SERIAL_VERSION {
                return info_fault(
                    mismatch("protocol", frame::SERIAL_VERSION as u64, *protocol as u64),
                );
            }
            if *kind != TANG9K_DEVICE_KIND_UART_RESPONDER {
                return info_fault(
                    mismatch("kind", TANG9K_DEVICE_KIND_UART_RESPONDER as u64, *kind as u64),
                );
            }
            if let Some(capability) = find_missing_capability(*capabilities) {
                let mut reason = "missing capability 0x".to_owned();
                push_hex(&mut reason, capability as u64, 8);
                return info_fault(reason);
            }
            if *clk_hz != TANG9K_UART_RESPONDER_CLK_HZ {
                return info_fault(
                    mismatch("clk_hz", TANG9K_UART_RESPONDER_CLK_HZ as u64, *clk_hz as u64),
                );
            }
            if *baud != TANG9K_UART_RESPONDER_BAUD {
                return info_fault(
                    mismatch("baud", TANG9K_UART_RESPONDER_BAUD as u64, *baud as u64),
                );
            }
            if *result_words as usize != TANG9K_RESULT_WINDOW_SMOKE_WORDS {
                return info_fault(
                    mismatch(
                        "result_words",
                        TANG9K_RESULT_WINDOW_SMOKE_WORDS as u64,
                        *result_words as u64,
                    ),
                );
            }
            if *result_stride as u32 != TANG9K_RESULT_WINDOW_WORD_STRIDE_BYTES {
                return info_fault(
                    mismatch(
                        "result_stride",
                        TANG9K_RESULT_WINDOW_WORD_STRIDE_BYTES as u64,
                        *result_stride as u64,
                    ),
                );
            }
            if *build_id != TANG9K_UART_RESPONDER_BUILD_ID {
                return info_fault(
                    mismatch_hex("build_id", TANG9K_UART_RESPONDER_BUILD_ID, *build_id),
                );
            }
            Ok(())
        },
        _ => Err(ProbeRecordValidationError::MissingTrace { label_hint: "DeviceInfo" }),
    }
}

/// The offset of the first word of the result window.
pub open spec fn window_base() -> u32 {
    command::smoke_word(steps::smoke_command(), 0).offset
}

/// Why a trace does not show a filled result window, if it does not.
pub open spec fn window_status_fault(decoded: Decoded) -> Option<RecordFault> {
    match decoded {
        Decoded::ResultWindowStatus { valid, words, stride, base, .. } => {
            if !valid {
                Some(RecordFault::ResultWindowStatusMismatch { reason: "valid flag is false"@ })
            } else if words != TANG9K_RESULT_WINDOW_SMOKE_WORDS {
                Some(
                    RecordFault::ResultWindowStatusMismatch {
                        reason: expected_got(
                            "words"@,
                            TANG9K_RESULT_WINDOW_SMOKE_WORDS as nat,
                            words as nat,
                        ),
                    },
                )
            } else if stride != TANG9K_RESULT_WINDOW_WORD_STRIDE_BYTES {
                Some(
                    RecordFault::ResultWindowStatusMismatch {
                        reason: expected_got(
                            "stride"@,
                            TANG9K_RESULT_WINDOW_WORD_STRIDE_BYTES as nat,
                            stride as nat,
                        ),
                    },
                )
            } else if base != window_base() {
                Some(
                    RecordFault::ResultWindowStatusMismatch {
                        reason: expected_got_hex("base"@, window_base(), base),
                    },
                )
            } else {
                None
            }
        },
        _ => Some(RecordFault::MissingTrace { label_hint: "ResultWindowStatus"@ }),
    }
}

/// A fault of a window status.
fn window_fault(reason: String) -> (result: Result<(), ProbeRecordValidationError>)
    ensures
        result matches Err(e) && e@ == (RecordFault::ResultWindowStatusMismatch {
            reason: reason@,
        }),
{
    Err(ProbeRecordValidationError::ResultWindowStatusMismatch { reason })
}

/// The offset of the first word of the result window.
pub fn expected_result_window_base() -> (offset: u32)
    ensures
        offset == window_base(),
{
    smoke_matmul().smoke_result_word(0).offset
}

/// Checks that a trace shows a filled result window.
pub fn validate_result_window_status_trace(trace: &TraceRecord) -> (result: Result<
    (),
    ProbeRecordValidationError,
>)
    ensures
        result is Ok <==> window_status_fault(trace.decoded@) is None,
        result matches Err(e) ==> window_status_fault(trace.decoded@) == Some(e@),
{
    match &trace.decoded {
        TraceDecodedRecord::ResultWindowStatus { valid, words, stride, base, .. } => {
            if !*valid {
                return window_fault("valid flag is false".to_owned());
            }
            if *words as usize != TANG9K_RESULT_WINDOW_SMOKE_WORDS {
                return window_fault(
                    mismatch("words", TANG9K_RESULT_WINDOW_SMOKE_WORDS as u64, *words as u64),
                );
            }
            if *stride as u32 != TANG9K_RESULT_WINDOW_WORD_STRIDE_BYTES {
                return window_fault(
                    mismatch(
                        "stride",
                        TANG9K_RESULT_WINDOW_WORD_STRIDE_BYTES as u64,
                        *stride as u64,
                    ),
                );
            }
            if *base != expected_result_window_base() {
                return window_fault(mismatch_hex("base", expected_result_window_base(), *base));
            }
            Ok(())
        },
        _ => Err(ProbeRecordValidationError::MissingTrace { label_hint: "ResultWindowStatus" }),
    }
}

/// Something that a record can show.
#[derive(Debug, Clone, Copy, PartialEq, Eq, Structural)]
pub enum Evidence {
    /// The board is the Tang9k UART responder.
    DeviceInfo,
    /// The board answered a ping.
    Ping,
    /// The board acknowledged a matrix command.
    MatmulAck,
    /// The board handed out a scratch word.
    Scratch,
    /// The result window is filled.
    WindowStatus,
    /// The board handed out the expected word of the result window.
    WindowWord(u32),
    /// The board refused a read past the end of the result window.
    OobRejection,
}

/// Whether a trace shows the evidence.
#[verifier::opaque]
pub open spec fn shows(trace: TraceRecord, evidence: Evidence) -> bool {
    match evidence {
        Evidence::DeviceInfo => device_info_fault(trace.decoded@) is None,
        Evidence::Ping => trace.opcode@ == "Pong"@ || text::occurs_in("ping"@, trace.label@),
        Evidence::MatmulAck => text::occurs_in("matmul"@, trace.label@) && trace.decoded@
            == (Decoded::Status { status: "Ok"@, detail: 0 }),
        Evidence::Scratch => trace.decoded@ is ScratchValue32,
        Evidence::WindowStatus => window_status_fault(trace.decoded@) is None,
        Evidence::WindowWord(i) => trace.decoded@ == Decoded::ResultValue32(
            command::smoke_word(steps::smoke_command(), i),
        ),
        Evidence::OobRejection => text::occurs_in("oob"@, trace.label@) && trace.opcode@
            == "Error"@ && trace.decoded@ == (Decoded::Status {
            status: "HardwareFault"@,
            detail: steps::oob_offset(),
        }),
    }
}

/// Whether some trace shows the evidence.
pub open spec fn seen(traces: Seq<TraceRecord>, evidence: Evidence) -> bool {
    exists|i: int| 0 <= i < traces.len() && shows(#[trigger] traces[i], evidence)
}

/// One if the expected word `i` of the result window was seen, else zero.
pub open spec fn word_seen(traces: Seq<TraceRecord>, i: u32) -> nat {
    if seen(traces, Evidence::WindowWord(i)) {
        1
    } else {
        0
    }
}

/// How many of the expected words of the result window were seen.
pub open spec fn words_seen(traces: Seq<TraceRecord>) -> nat {
    word_seen(traces, 0) + word_seen(traces, 1) + word_seen(traces, 2) + word_seen(traces, 3)
}

impl TraceRecord {
    /// Whether this trace shows the evidence.
    pub fn shows(&self, evidence: Evidence) -> (yes: bool)
        ensures
            yes == shows(*self, evidence),
    {
        proof {
            reveal(shows);
        }
        match evidence {
            Evidence::DeviceInfo => validate_device_info_trace(self).is_ok(),
            Evidence::Ping => same_text(&self.opcode, "Pong") || contains_text(
                self.label.as_str(),
                "ping",
            ),
            Evidence::MatmulAck => contains_text(self.label.as_str(), "matmul") && match &self.decoded {
                TraceDecodedRecord::Status { status, detail } => *detail == 0 && same_text(
                    status,
                    "Ok",
                ),
                _ => false,
            },
            Evidence::Scratch => match &self.decoded {
                TraceDecodedRecord::ScratchValue32 { .. } => true,
                _ => false,
            },
            Evidence::WindowStatus => validate_result_window_status_trace(self).is_ok(),
            Evidence::WindowWord(i) => {
                let expected = smoke_matmul().smoke_result_word(i);
                match &self.decoded {
                    TraceDecodedRecord::ResultValue32 { offset, value } => *offset
                        == expected.offset && *value == expected.value,
                    _ => false,
                }
            },
            Evidence::OobRejection => contains_text(self.label.as_str(), "oob") && same_text(
                &self.opcode,
                "Error",
            ) && match &self.decoded {
                TraceDecodedRecord::Status { status, detail } => *detail == expected_oob_offset()
                    && same_text(status, "HardwareFault"),
                _ => false,
            },
        }
    }
}

/// Whether some trace shows the evidence.
fn any_shows(traces: &Vec<TraceRecord>, evidence: Evidence) -> (yes: bool)
    ensures
        yes == seen(traces@, evidence),
{
    let mut i: usize = 0;
    while i < traces.len()
        invariant
            i <= traces@.len(),
            forall|j: int| 0 <= j < i ==> !shows(#[trigger] traces@[j], evidence),
        decreases traces@.len() - i,
    {
        if traces[i].shows(evidence) {
            return true;
        }
        i = i + 1;
    }
    false
}

/// How many of the expected words of the result window the traces show.
pub fn count_expected_result_window_words(traces: &Vec<TraceRecord>) -> (n: usize)
    ensures
        n == words_seen(traces@),
{
    let mut n: usize = 0;
    if any_shows(traces, Evidence::WindowWord(0)) {
        n = n + 1;
    }
    if any_shows(traces, Evidence::WindowWord(1)) {
        n = n + 1;
    }
    if any_shows(traces, Evidence::WindowWord(2)) {
        n = n + 1;
    }
    if any_shows(traces, Evidence::WindowWord(3)) {
        n = n + 1;
    }
    n
}

/// What an accepted record shows. It says nothing of where the record came from.
#[derive(Debug, Clone, PartialEq, Eq)]
pub struct Tang9kAcceptanceSummary {
    pub schema: String,
    pub command: String,
    pub port: String,
    pub trace_count: usize,
    pub device_info_seen: bool,
    pub ping_seen: bool,
    pub matmul_ack_seen: bool,
    pub scratch_seen: bool,
    pub result_window_status_seen: bool,
    pub result_window_words_seen: usize,
    pub oob_rejection_seen: bool,
}

/// What the traces of a whole suite do not show, if anything, beside who the board is.
pub open spec fn suite_fault(traces: Seq<TraceRecord>) -> Option<RecordFault> {
    if !seen(traces, Evidence::Ping) {
        Some(RecordFault::MissingTrace { label_hint: "Ping/Pong"@ })
    } else if !seen(traces, Evidence::MatmulAck) {
        Some(RecordFault::MissingTrace { label_hint: "Matmul32x32 Ack/Ok"@ })
    } else if !seen(traces, Evidence::Scratch) {
        Some(RecordFault::MissingTrace { label_hint: "ScratchValue32"@ })
    } else if !seen(traces, Evidence::WindowStatus) {
        Some(RecordFault::MissingTrace { label_hint: "ResultWindowStatus"@ })
    } else if words_seen(traces) != TANG9K_RESULT_WINDOW_SMOKE_WORDS {
        Some(
            RecordFault::ResultWindowWordCountMismatch {
                expected: TANG9K_RESULT_WINDOW_SMOKE_WORDS,
                actual: words_seen(traces) as usize,
            },
        )
    } else if !seen(traces, Evidence::OobRejection) {
        Some(RecordFault::OobRejectionMissing)
    } else {
        None
    }
}

/// Why a record is not accepted, if it is not. Every record must show who the board is; that
/// of a whole suite must show every part of it.
pub open spec fn acceptance_fault(record: ProbeRecord) -> Option<RecordFault> {
    if record.schema@ != TANG9K_PROBE_RECORD_SCHEMA@ {
        Some(
            RecordFault::SchemaMismatch {
                expected: TANG9K_PROBE_RECORD_SCHEMA@,
                actual: record.schema@,
            },
        )
    } else if record.status@ != "ok"@ {
        Some(RecordFault::StatusNotOk { status: record.status@ })
    } else if !seen(record.traces@, Evidence::DeviceInfo) {
        Some(RecordFault::MissingTrace { label_hint: "DeviceInfo"@ })
    } else if record.command@ == "BringupSuite"@ {
        suite_fault(record.traces@)
    } else {
        None
    }
}

/// Whether the summary says what the record shows.
pub open spec fn summarises(summary: Tang9kAcceptanceSummary, record: ProbeRecord) -> bool {
    let traces = record.traces@;
    &&& summary.schema@ == record.schema@
    &&& summary.command@ == record.command@
    &&& summary.port@ == record.port@
    &&& summary.trace_count == traces.len()
    &&& summary.device_info_seen == seen(traces, Evidence::DeviceInfo)
    &&& summary.ping_seen == seen(traces, Evidence::Ping)
    &&& summary.matmul_ack_seen == seen(traces, Evidence::MatmulAck)
    &&& summary.scratch_seen == seen(traces, Evidence::Scratch)
    &&& summary.result_window_status_seen == seen(traces, Evidence::WindowStatus)
    &&& summary.result_window_words_seen == words_seen(traces)
    &&& summary.oob_rejection_seen == seen(traces, Evidence::OobRejection)
}

/// Decides whether a record is accepted, and sums up what it shows.
pub fn validate_tang9k_acceptance(record: &ProbeRecord) -> (result: Result<
    Tang9kAcceptanceSummary,
    ProbeRecordValidationError,
>)
    ensures
        result is Ok <==> acceptance_fault(*record) is None,
        result matches Ok(summary) ==> summarises(summary, *record),
        result matches Err(e) ==> acceptance_fault(*record) == Some(e@),
{
    if !same_text(&record.schema, TANG9K_PROBE_RECORD_SCHEMA) {
        return Err(
            ProbeRecordValidationError::SchemaMismatch {
                expected: TANG9K_PROBE_RECORD_SCHEMA,
                actual: record.schema.clone(),
            },
        );
    }
    if !same_text(&record.status, "ok") {
        return Err(ProbeRecordValidationError::StatusNotOk { status: record.status.clone() });
    }
    let device_info_seen: bool = any_shows(&record.traces, Evidence::DeviceInfo);
    let ping_seen: bool = any_shows(&record.traces, Evidence::Ping);
    let matmul_ack_seen: bool = any_shows(&record.traces, Evidence::MatmulAck);
    let scratch_seen: bool = any_shows(&record.traces, Evidence::Scratch);
    let result_window_status_seen: bool = any_shows(&record.traces, Evidence::WindowStatus);
    let result_window_words_seen: usize = count_expected_result_window_words(&record.traces);
    let oob_rejection_seen: bool = any_shows(&record.traces, Evidence::OobRejection);

    if !device_info_seen {
        return Err(ProbeRecordValidationError::MissingTrace { label_hint: "DeviceInfo" });
    }
    if same_text(&record.command, "BringupSuite") {
        if !ping_seen {
            return Err(ProbeRecordValidationError::MissingTrace { label_hint: "Ping/Pong" });
        }
        if !matmul_ack_seen {
            return Err(
                ProbeRecordValidationError::MissingTrace { label_hint: "Matmul32x32 Ack/Ok" },
            );
        }
        if !scratch_seen {
            return Err(ProbeRecordValidationError::MissingTrace { label_hint: "ScratchValue32" });
        }
        if !result_window_status_seen {
            return Err(
                ProbeRecordValidationError::MissingTrace { label_hint: "ResultWindowStatus" },
            );
        }
        if result_window_words_seen != TANG9K_RESULT_WINDOW_SMOKE_WORDS {
            return Err(
                ProbeRecordValidationError::ResultWindowWordCountMismatch {
                    expected: TANG9K_RESULT_WINDOW_SMOKE_WORDS,
                    actual: result_window_words_seen,
                },
            );
        }
        if !oob_rejection_seen {
            return Err(ProbeRecordValidationError::OobRejectionMissing);
        }
    }
    Ok(
        Tang9kAcceptanceSummary {
            schema: record.schema.clone(),
            command: record.command.clone(),
            port: record.port.clone(),
            trace_count: record.traces.len(),
            device_info_seen,
            ping_seen,
            matmul_ack_seen,
            scratch_seen,
            result_window_status_seen,
            result_window_words_seen,
            oob_rejection_seen,
        },
    )
}

impl ProbeRecord {
    /// Decides whether this record is accepted, and sums up what it shows.
    pub fn validate_tang9k_acceptance(&self) -> (result: Result<
        Tang9kAcceptanceSummary,
        ProbeRecordValidationError,
    >)
        ensures
            result is Ok <==> acceptance_fault(*self) is None,
            result matches Ok(summary) ==> summarises(summary, *self),
            result matches Err(e) ==> acceptance_fault(*self) == Some(e@),
    {
        validate_tang9k_acceptance(self)
    }
}

/// The numbers by which the Tang9k UART responder is known are those that it reports of
/// itself.
pub proof fn law_responder_is_known(p: DeviceInfoPayload)
    requires
        p.protocol_version == frame::SERIAL_VERSION,
        p.device_kind == TANG9K_DEVICE_KIND_UART_RESPONDER,
        p.capabilities == 15,
        p.clk_hz == TANG9K_UART_RESPONDER_CLK_HZ,
        p.baud == TANG9K_UART_RESPONDER_BAUD,
        p.result_window_words == 4,
        p.result_window_stride_bytes == 4,
        p.build_id == TANG9K_UART_RESPONDER_BUILD_ID,
    ensures
        device_info_fault(Decoded::DeviceInfo(p)) is None,
{
    assert(15u32 & 1 != 0 && 15u32 & 2 != 0 && 15u32 & 4 != 0 && 15u32 & 8 != 0)
        by (bit_vector);
}

/// The label of the ping says so.
proof fn lemma_ping_shown(record: TraceRecord)
    requires
        record.label@ == "suite ping"@,
    ensures
        shows(record, Evidence::Ping),
{
    reveal(shows);
    reveal_strlit("ping");
    reveal_strlit("suite ping");
    assert("suite ping"@.subrange(6, 10) =~= "ping"@);
    assert(text::stands_at("suite ping"@, "ping"@, 6));
}

/// The record of an acknowledged matrix command shows it.
proof fn lemma_matmul_shown(record: TraceRecord, trace: UartTang9kExchangeTrace)
    requires
        record.records("suite matmul"@, trace),
        steps::step_fault(ProbeStep::Matmul { sequence: 1 }, trace.response@) is None,
        status::held_status(trace.response@.payload).detail == 0,
    ensures
        shows(record, Evidence::MatmulAck),
{
    reveal(shows);
    reveal(steps::step_fault);
    reveal_strlit("matmul");
    reveal_strlit("suite matmul");
    assert("suite matmul"@.subrange(6, 12) =~= "matmul"@);
    assert(text::stands_at("suite matmul"@, "matmul"@, 6));
}

/// The record of a scratch word shows it.
proof fn lemma_scratch_shown(
    record: TraceRecord,
    label: Seq<char>,
    trace: UartTang9kExchangeTrace,
)
    requires
        record.records(label, trace),
        steps::step_fault(ProbeStep::ScratchRead, trace.response@) is None,
    ensures
        shows(record, Evidence::Scratch),
{
    reveal(shows);
    reveal(steps::step_fault);
}

/// The record of a result word shows it.
proof fn lemma_word_shown(
    record: TraceRecord,
    label: Seq<char>,
    trace: UartTang9kExchangeTrace,
    sequence: u32,
    word: u32,
)
    requires
        record.records(label, trace),
        steps::step_fault(ProbeStep::ResultRead { sequence, word }, trace.response@) is None,
    ensures
        shows(record, Evidence::WindowWord(word)),
{
    reveal(shows);
    reveal(steps::step_fault);
}

/// The record of a refused read past the window shows it.
proof fn lemma_refusal_shown(record: TraceRecord, trace: UartTang9kExchangeTrace)
    requires
        record.records("suite oob rejected read"@, trace),
        steps::step_fault(ProbeStep::OobRead, trace.response@) is None,
    ensures
        shows(record, Evidence::OobRejection),
{
    reveal(shows);
    reveal(steps::step_fault);
    reveal_strlit("oob");
    reveal_strlit("suite oob rejected read");
    assert("suite oob rejected read"@.subrange(6, 9) =~= "oob"@);
    assert(text::stands_at("suite oob rejected read"@, "oob"@, 6));
}

/// The record of the responder's device info shows it.
proof fn lemma_info_shown(
    record: TraceRecord,
    label: Seq<char>,
    trace: UartTang9kExchangeTrace,
    info: DeviceInfoPayload,
)
    requires
        record.records(label, trace),
        steps::step_fault(ProbeStep::DeviceInfo, trace.response@) is None,
        trace.response@.payload == command::device_info_bytes(info),
        info_mismatch(info) is None,
    ensures
        shows(record, Evidence::DeviceInfo),
{
    reveal(shows);
    reveal(steps::step_fault);
    command::law_device_info_roundtrip(info, record::held_device_info(trace.response@.payload));
}

/// The record of a filled window's status shows it.
proof fn lemma_window_shown(
    record: TraceRecord,
    label: Seq<char>,
    trace: UartTang9kExchangeTrace,
    window: ResultWindowStatusPayload,
)
    requires
        record.records(label, trace),
        steps::step_fault(ProbeStep::WindowStatus, trace.response@) is None,
        trace.response@.payload == command::window_status_bytes(window),
        reports_filled_window(window),
    ensures
        shows(record, Evidence::WindowStatus),
{
    reveal(shows);
    reveal(steps::step_fault);
    command::law_window_status_roundtrip(
        window,
        record::held_window_status(trace.response@.payload),
    );
}

/// Whether a board reports the window that the matrix command of the probes fills.
pub open spec fn reports_filled_window(window: ResultWindowStatusPayload) -> bool {
    &&& window.flags % 2 == 1
    &&& window.word_count == TANG9K_RESULT_WINDOW_SMOKE_WORDS
    &&& window.stride_bytes == TANG9K_RESULT_WINDOW_WORD_STRIDE_BYTES
    &&& window.base_offset == window_base()
}

/// A suite that went through to its end is accepted, if the board was the Tang9k UART
/// responder, acknowledged the first matrix command without a detail and reported a filled
/// result window: its record lacks no evidence.
pub proof fn law_finished_suites_are_accepted(
    suite: Tang9kBringupSuiteTrace,
    record: ProbeRecord,
    info: DeviceInfoPayload,
    window: ResultWindowStatusPayload,
)
    requires
        suite.result_window@.len() == 5,
        suite.result_oob_setup@.len() == 5,
        forall|i: int|
            0 <= i < 18 ==> steps::step_fault(
                run::steps_of(ProbeCommand::BringupSuite)[i],
                (#[trigger] suite.all()[i]).response@,
            ) is None,
        record.schema@ == TANG9K_PROBE_RECORD_SCHEMA@,
        record.status@ == "ok"@,
        record.traces@.len() == 18,
        forall|i: int|
            0 <= i < 18 ==> (#[trigger] record.traces@[i]).records(
                record::record_label(5, 5, i),
                suite.all()[i],
            ),
        suite.device_info.response@.payload == command::device_info_bytes(info),
        info_mismatch(info) is None,
        status::held_status(suite.matmul.response@.payload).detail == 0,
        suite.result_window_status.response@.payload == command::window_status_bytes(window),
        reports_filled_window(window),
    ensures
        acceptance_fault(record) is None,
{
    let traces = record.traces@;
    let all = suite.all();
    let list = run::steps_of(ProbeCommand::BringupSuite);
    lemma_suite_steps();
    assert(all[0] == suite.device_info && all[2] == suite.matmul && all[6]
        == suite.result_window_status);
    assert(shows(traces[0], Evidence::DeviceInfo)) by {
        lemma_info_shown(traces[0], record::record_label(5, 5, 0), all[0], info);
    }
    assert(shows(traces[1], Evidence::Ping)) by {
        assert(traces[1].records(record::record_label(5, 5, 1), all[1]));
        lemma_ping_shown(traces[1]);
    }
    assert(shows(traces[2], Evidence::MatmulAck)) by {
        lemma_matmul_shown(traces[2], all[2]);
    }
    assert(shows(traces[4], Evidence::Scratch)) by {
        lemma_scratch_shown(traces[4], record::record_label(5, 5, 4), all[4]);
    }
    assert(shows(traces[6], Evidence::WindowStatus)) by {
        lemma_window_shown(traces[6], record::record_label(5, 5, 6), all[6], window);
    }
    assert(shows(traces[8], Evidence::WindowWord(0))) by {
        lemma_word_shown(traces[8], record::record_label(5, 5, 8), all[8], 5, 0);
    }
    assert(shows(traces[9], Evidence::WindowWord(1))) by {
        lemma_word_shown(traces[9], record::record_label(5, 5, 9), all[9], 6, 1);
    }
    assert(shows(traces[10], Evidence::WindowWord(2))) by {
        lemma_word_shown(traces[10], record::record_label(5, 5, 10), all[10], 7, 2);
    }
    assert(shows(traces[11], Evidence::WindowWord(3))) by {
        lemma_word_shown(traces[11], record::record_label(5, 5, 11), all[11], 8, 3);
    }
    assert(shows(traces[17], Evidence::OobRejection)) by {
        lemma_refusal_shown(traces[17], all[17]);
    }
    lemma_evidence_suffices(record);
}

/// A record with all evidence is accepted.
proof fn lemma_evidence_suffices(record: ProbeRecord)
    requires
        record.schema@ == TANG9K_PROBE_RECORD_SCHEMA@,
        record.status@ == "ok"@,
        record.traces@.len() == 18,
        shows(record.traces@[0], Evidence::DeviceInfo),
        shows(record.traces@[1], Evidence::Ping),
        shows(record.traces@[2], Evidence::MatmulAck),
        shows(record.traces@[4], Evidence::Scratch),
        shows(record.traces@[6], Evidence::WindowStatus),
        shows(record.traces@[8], Evidence::WindowWord(0)),
        shows(record.traces@[9], Evidence::WindowWord(1)),
        shows(record.traces@[10], Evidence::WindowWord(2)),
        shows(record.traces@[11], Evidence::WindowWord(3)),
        shows(record.traces@[17], Evidence::OobRejection),
    ensures
        acceptance_fault(record) is None,
{
}

/// Where the steps stand in the suite.
proof fn lemma_suite_steps()
    ensures
        ({
            let list = run::steps_of(ProbeCommand::BringupSuite);
            &&& list[0] == ProbeStep::DeviceInfo
            &&& list[2] == ProbeStep::Matmul { sequence: 1 }
            &&& list[4] == ProbeStep::ScratchRead
            &&& list[6] == ProbeStep::WindowStatus
            &&& list[17] == ProbeStep::OobRead
            &&& list[8] == ProbeStep::ResultRead { sequence: 5, word: 0 }
            &&& list[9] == ProbeStep::ResultRead { sequence: 6, word: 1 }
            &&& list[10] == ProbeStep::ResultRead { sequence: 7, word: 2 }
            &&& list[11] == ProbeStep::ResultRead { sequence: 8, word: 3 }
        }),
{
}

} // verus!
