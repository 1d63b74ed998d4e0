//! Probing a board: command lines, runs, records and what is accepted of them.

use sptorch::probe::acceptance::{
    expected_result_window_base, validate_device_info_trace, validate_result_window_status_trace,
    ProbeRecordValidationError,
};
use sptorch::probe::cli::parse_args;
use sptorch::probe::exchange::{
    PortStep, UartExchange, UartTang9kExchangeError, UartTang9kExchangeTrace, UartTang9kTransport,
};
use sptorch::probe::record::{
    format_probe_bytes_hex, suite_trace_records, ProbeRecord, ProbeRecordMetadata,
    TraceDecodedRecord, TraceRecord,
};
use sptorch::probe::report::{raw_exchange, trace_summary};
use sptorch::probe::run::{probe_steps, step_label, ProbeRun, Tang9kBringupSuiteTrace};
use sptorch::probe::steps::{
    expected_oob_offset, tang9k_matmul_smoke_frame, ProbeCommand, ProbeStep,
};
use sptorch::serial::command::{
    DeviceInfoPayload, DeviceInfoReadCommand, Matmul32x32Command, ResultRead32Command,
    ResultValue32Payload, ResultWindowStatusPayload, ResultWindowStatusReadCommand,
    ScratchRead32Command, ScratchValue32Payload, ScratchWrite32Command,
    TANG9K_RESULT_WINDOW_SMOKE_WORDS, TANG9K_RESULT_WINDOW_WORD_STRIDE_BYTES,
    TANG9K_UART_RESPONDER_BUILD_ID,
};
use sptorch::serial::error::SerialProtocolError;
use sptorch::serial::frame::SerialFrame;
use sptorch::serial::opcode::{SerialOpcode, SerialStatusCode};
use sptorch::serial::status::SerialStatusPayload;
use std::time::Duration;

/// When the records of these tests were taken.
const TIMESTAMP_UNIX_MS: u128 = 1_700_000_000_000;

#[test]
fn parse_defaults_to_list_mode() {
    let args = parse_args(Vec::new()).unwrap();
    assert_eq!(args.port, None);
    assert_eq!(args.baud, 115_200);
    assert_eq!(args.timeout_ms, 1_000);
    assert_eq!(args.command, ProbeCommand::Ping);
    assert!(!args.dump_raw);
    assert_eq!(args.record_json, None);
}

#[test]
fn parse_probe_arguments() {
    let args = parse_args(vec![
        "--port".into(),
        "COM7".into(),
        "--baud".into(),
        "921600".into(),
        "--timeout-ms".into(),
        "250".into(),
    ])
    .unwrap();

    assert_eq!(args.port.as_deref(), Some("COM7"));
    assert_eq!(args.baud, 921_600);
    assert_eq!(args.timeout_ms, 250);
    assert_eq!(args.command, ProbeCommand::Ping);
    assert!(!args.dump_raw);
}

#[test]
fn parse_matmul_smoke_and_dump_raw_arguments() {
    let args = parse_args(vec![
        "--port".into(),
        "COM7".into(),
        "--matmul-smoke".into(),
        "--dump-raw".into(),
        "--timeout-ms".into(),
        "250".into(),
    ])
    .unwrap();

    assert_eq!(args.port.as_deref(), Some("COM7"));
    assert_eq!(args.timeout_ms, 250);
    assert_eq!(args.command, ProbeCommand::MatmulSmoke);
    assert!(args.dump_raw);
}

#[test]
fn parse_record_json_argument() {
    let args = parse_args(vec![
        "--port".into(),
        "COM3".into(),
        "--device-info".into(),
        "--record-json".into(),
        "target/tang9k/device-info.json".into(),
    ])
    .unwrap();

    assert_eq!(args.port.as_deref(), Some("COM3"));
    assert_eq!(args.command, ProbeCommand::DeviceInfo);
    assert_eq!(args.record_json.as_deref(), Some("target/tang9k/device-info.json"));
}

#[test]
fn parse_bringup_suite_arguments() {
    let args = parse_args(vec!["--port".into(), "COM3".into(), "--bringup-suite".into()]).unwrap();

    assert_eq!(args.port.as_deref(), Some("COM3"));
    assert_eq!(args.command, ProbeCommand::BringupSuite);
}

#[test]
fn parse_device_info_arguments() {
    let args = parse_args(vec!["--port".into(), "COM3".into(), "--device-info".into()]).unwrap();

    assert_eq!(args.port.as_deref(), Some("COM3"));
    assert_eq!(args.command, ProbeCommand::DeviceInfo);
}

#[test]
fn parse_result_smoke_arguments() {
    let args = parse_args(vec!["--port".into(), "COM3".into(), "--result-smoke".into()]).unwrap();

    assert_eq!(args.port.as_deref(), Some("COM3"));
    assert_eq!(args.command, ProbeCommand::ResultSmoke);
}

#[test]
fn parse_result_window_smoke_arguments() {
    let args = parse_args(vec!["--port".into(), "COM3".into(), "--result-window-smoke".into()]).unwrap();

    assert_eq!(args.port.as_deref(), Some("COM3"));
    assert_eq!(args.command, ProbeCommand::ResultWindowSmoke);
}

#[test]
fn parse_result_window_status_smoke_arguments() {
    let args = parse_args(vec![
        "--port".into(),
        "COM3".into(),
        "--result-window-status-smoke".into(),
    ])
    .unwrap();

    assert_eq!(args.port.as_deref(), Some("COM3"));
    assert_eq!(args.command, ProbeCommand::ResultWindowStatusSmoke);
}

#[test]
fn parse_result_oob_smoke_arguments() {
    let args = parse_args(vec!["--port".into(), "COM3".into(), "--result-oob-smoke".into()]).unwrap();

    assert_eq!(args.port.as_deref(), Some("COM3"));
    assert_eq!(args.command, ProbeCommand::ResultOobSmoke);
}

#[test]
fn parse_scratch_smoke_arguments() {
    let args = parse_args(vec!["--port".into(), "COM3".into(), "--scratch-smoke".into()]).unwrap();

    assert_eq!(args.port.as_deref(), Some("COM3"));
    assert_eq!(args.command, ProbeCommand::ScratchSmoke);
}

#[test]
fn tang9k_probe_format_hex_keeps_byte_boundaries_visible() {
    assert_eq!(format_probe_bytes_hex(&[]), "<empty>");
    assert_eq!(format_probe_bytes_hex(&[0x53, 0x50, 0x01, 0x7e]), "53 50 01 7e");
}

#[test]
fn parse_rejects_unknown_arguments() {
    let err = parse_args(vec!["--wat".into()]).unwrap_err();
    assert!(err.contains("unknown argument"));
}

#[test]
fn probe_record_format_hex_keeps_byte_boundaries_visible() {
    assert_eq!(format_probe_bytes_hex(&[]), "<empty>");
    assert_eq!(format_probe_bytes_hex(&[0x53, 0x50, 0x01, 0x7e]), "53 50 01 7e");
}

#[test]
fn generic_trace_payload_survives_unknown_opcode_decoding_path() {
    let frame = SerialFrame::new(SerialOpcode::Pong, 7, vec![0xaa, 0xbb]);
    let trace = UartTang9kExchangeTrace {
        request_bytes: Vec::new(),
        raw_response_bytes: frame.encode().unwrap(),
        response: frame,
    };

    let record = TraceRecord::from_trace("pong", &trace);
    assert_eq!(
        record.decoded,
        TraceDecodedRecord::Generic {
            payload_hex: "aa bb".into()
        }
    );
}

#[test]
fn rejects_schema_mismatch() {
    let metadata = ProbeRecordMetadata::new("DeviceInfo", "COM3", 115_200, 1_000);
    let mut record = ProbeRecord::ok(
        &metadata,
        vec![TraceRecord::from_trace("device info", &device_info_trace())],
        TIMESTAMP_UNIX_MS,
    );
    record.schema = "sptorch.tang9k.probe.v0".into();

    let err = record.validate_tang9k_acceptance().unwrap_err();
    assert!(matches!(err, ProbeRecordValidationError::SchemaMismatch { .. }));
}

#[test]
fn accepts_full_bringup_suite_record() {
    let metadata = ProbeRecordMetadata::new("BringupSuite", "COM3", 115_200, 1_000);
    let record = ProbeRecord::ok(&metadata, full_bringup_records(), TIMESTAMP_UNIX_MS);

    let summary = record.validate_tang9k_acceptance().unwrap();
    assert_eq!(summary.command, "BringupSuite");
    assert!(summary.device_info_seen);
    assert!(summary.ping_seen);
    assert!(summary.matmul_ack_seen);
    assert!(summary.scratch_seen);
    assert!(summary.result_window_status_seen);
    assert_eq!(summary.result_window_words_seen, TANG9K_RESULT_WINDOW_SMOKE_WORDS);
    assert!(summary.oob_rejection_seen);
}

#[test]
fn rejects_bringup_suite_without_result_window_words() {
    let metadata = ProbeRecordMetadata::new("BringupSuite", "COM3", 115_200, 1_000);
    let mut records = full_bringup_records();
    records.retain(|trace| !matches!(trace.decoded, TraceDecodedRecord::ResultValue32 { .. }));
    let record = ProbeRecord::ok(&metadata, records, TIMESTAMP_UNIX_MS);

    let err = record.validate_tang9k_acceptance().unwrap_err();
    assert_eq!(
        err,
        ProbeRecordValidationError::ResultWindowWordCountMismatch {
            expected: TANG9K_RESULT_WINDOW_SMOKE_WORDS,
            actual: 0
        }
    );
}

fn full_bringup_records() -> Vec<TraceRecord> {
    let mut records = vec![
        TraceRecord::from_trace("suite device info", &device_info_trace()),
        TraceRecord::from_trace(
            "suite ping",
            &simple_trace(SerialOpcode::Ping, SerialFrame::new(SerialOpcode::Pong, 0, Vec::new())),
        ),
        TraceRecord::from_trace(
            "suite matmul",
            &simple_trace(
                SerialOpcode::Matmul32x32,
                SerialFrame::ack(4, SerialStatusPayload::ok()),
            ),
        ),
        TraceRecord::from_trace(
            "suite scratch read",
            &simple_trace(
                SerialOpcode::ScratchRead32,
                ScratchValue32Payload::new(0x44, 0x1122_3344).into_frame(3),
            ),
        ),
        TraceRecord::from_trace(
            "suite status",
            &simple_trace(
                SerialOpcode::ResultWindowStatusRead,
                ResultWindowStatusPayload::new(true, 4, 4, expected_result_window_base(), 4).into_frame(10),
            ),
        ),
    ];
    for (idx, (offset, value)) in suite_result_window_values().iter().enumerate() {
        records.push(TraceRecord::from_trace(
            &format!("suite result window read {idx}"),
            &simple_trace(
                SerialOpcode::ResultRead32,
                ResultValue32Payload::new(*offset, *value).into_frame(5 + idx as u32),
            ),
        ));
    }
    records.push(TraceRecord::from_trace(
        "suite oob rejected read",
        &simple_trace(
            SerialOpcode::ResultRead32,
            SerialFrame::error(
                9,
                SerialStatusPayload {
                    code: SerialStatusCode::HardwareFault,
                    detail: expected_oob_offset(),
                },
            ),
        ),
    ));
    records
}

fn device_info_trace() -> UartTang9kExchangeTrace {
    let frame = DeviceInfoPayload::tang9k_uart_responder().into_frame(11);
    UartTang9kExchangeTrace {
        request_bytes: DeviceInfoReadCommand.into_frame(11).encode().unwrap(),
        raw_response_bytes: frame.encode().unwrap(),
        response: frame,
    }
}

fn simple_trace(request_opcode: SerialOpcode, response: SerialFrame) -> UartTang9kExchangeTrace {
    let request = SerialFrame::new(request_opcode, response.sequence, request_payload_for(request_opcode));
    UartTang9kExchangeTrace {
        request_bytes: request.encode().unwrap(),
        raw_response_bytes: response.encode().unwrap(),
        response,
    }
}

fn request_payload_for(opcode: SerialOpcode) -> Vec<u8> {
    match opcode {
        SerialOpcode::Matmul32x32 => Matmul32x32Command::new(0, 0, 4096, 8192).encode_payload().to_vec(),
        SerialOpcode::ScratchRead32 => ScratchRead32Command::new(0x44).encode_payload().to_vec(),
        SerialOpcode::ResultRead32 => ResultRead32Command::new(expected_oob_offset())
            .encode_payload()
            .to_vec(),
        _ => Vec::new(),
    }
}

#[test]
fn fixture_validates_with_library() {
    let record = build_bringup_suite_record();
    let summary = record.validate_tang9k_acceptance().expect("fixture should be accepted");

    assert_eq!(summary.schema, "sptorch.tang9k.probe.v1");
    assert_eq!(summary.command, "BringupSuite");
    assert_eq!(summary.port, "COM3");
    assert!(summary.device_info_seen);
    assert!(summary.ping_seen);
    assert!(summary.matmul_ack_seen);
    assert!(summary.scratch_seen);
    assert!(summary.result_window_status_seen);
    assert_eq!(summary.result_window_words_seen, 4);
    assert!(summary.oob_rejection_seen);
}

fn build_bringup_suite_record() -> ProbeRecord {
    let metadata = ProbeRecordMetadata::new("BringupSuite", "COM3", 115_200, 1_000);
    ProbeRecord::ok(&metadata, build_bringup_suite_traces(), TIMESTAMP_UNIX_MS)
}

fn build_bringup_suite_traces() -> Vec<TraceRecord> {
    let mut traces = vec![
        TraceRecord::from_trace("suite device info", &suite_device_info_trace()),
        TraceRecord::from_trace("suite ping", &ping_trace()),
        TraceRecord::from_trace("suite matmul", &matmul_ack_trace(1)),
        TraceRecord::from_trace("suite scratch write", &scratch_write_trace()),
        TraceRecord::from_trace("suite scratch read", &scratch_read_trace()),
        TraceRecord::from_trace("suite status matmul", &matmul_ack_trace(4)),
        TraceRecord::from_trace("suite status", &result_window_status_trace(10)),
    ];

    for (idx, (offset, value)) in suite_result_window_values().iter().enumerate() {
        traces.push(TraceRecord::from_trace(
            &format!("suite result window read {}", idx),
            &result_value_trace(5 + idx as u32, *offset, *value),
        ));
    }

    traces.push(TraceRecord::from_trace(
        "suite oob rejected read",
        &oob_rejected_read_trace(),
    ));
    traces
}

fn suite_device_info_trace() -> UartTang9kExchangeTrace {
    let response = DeviceInfoPayload::tang9k_uart_responder().into_frame(11);
    UartTang9kExchangeTrace {
        request_bytes: DeviceInfoReadCommand.into_frame(11).encode().unwrap(),
        raw_response_bytes: response.encode().unwrap(),
        response,
    }
}

fn ping_trace() -> UartTang9kExchangeTrace {
    let response = SerialFrame::new(SerialOpcode::Pong, 0, Vec::new());
    UartTang9kExchangeTrace {
        request_bytes: SerialFrame::new(SerialOpcode::Ping, 0, b"sptorch-ping".to_vec())
            .encode()
            .unwrap(),
        raw_response_bytes: response.encode().unwrap(),
        response,
    }
}

fn matmul_ack_trace(sequence: u32) -> UartTang9kExchangeTrace {
    let response = SerialFrame::ack(sequence, SerialStatusPayload::ok());
    UartTang9kExchangeTrace {
        request_bytes: tang9k_matmul_smoke_frame(sequence).encode().unwrap(),
        raw_response_bytes: response.encode().unwrap(),
        response,
    }
}

fn scratch_write_trace() -> UartTang9kExchangeTrace {
    let request = ScratchWrite32Command::new(0x44, 0x1122_3344).into_frame(2);
    let response = SerialFrame::ack(2, SerialStatusPayload::ok());
    UartTang9kExchangeTrace {
        request_bytes: request.encode().unwrap(),
        raw_response_bytes: response.encode().unwrap(),
        response,
    }
}

fn scratch_read_trace() -> UartTang9kExchangeTrace {
    let response = ScratchValue32Payload::new(0x44, 0x1122_3344).into_frame(3);
    UartTang9kExchangeTrace {
        request_bytes: ScratchRead32Command::new(0x44).into_frame(3).encode().unwrap(),
        raw_response_bytes: response.encode().unwrap(),
        response,
    }
}

fn result_window_status_trace(sequence: u32) -> UartTang9kExchangeTrace {
    let expected = suite_result_window_values();
    let response = ResultWindowStatusPayload::new(
        true,
        expected.len() as u8,
        TANG9K_RESULT_WINDOW_WORD_STRIDE_BYTES as u16,
        expected[0].0,
        4,
    )
    .into_frame(sequence);
    UartTang9kExchangeTrace {
        request_bytes: ResultWindowStatusReadCommand.into_frame(sequence).encode().unwrap(),
        raw_response_bytes: response.encode().unwrap(),
        response,
    }
}

fn result_value_trace(
    sequence: u32,
    offset: u32,
    value: u32,
) -> UartTang9kExchangeTrace {
    let response = ResultValue32Payload::new(offset, value).into_frame(sequence);
    UartTang9kExchangeTrace {
        request_bytes: ResultRead32Command::new(offset).into_frame(sequence).encode().unwrap(),
        raw_response_bytes: response.encode().unwrap(),
        response,
    }
}

fn oob_rejected_read_trace() -> UartTang9kExchangeTrace {
    let expected = suite_result_window_values();
    let offset = expected
        .last()
        .unwrap()
        .0
        .wrapping_add(TANG9K_RESULT_WINDOW_WORD_STRIDE_BYTES);
    let response = SerialFrame::error(
        9,
        SerialStatusPayload {
            code: SerialStatusCode::HardwareFault,
            detail: offset,
        },
    );
    UartTang9kExchangeTrace {
        request_bytes: ResultRead32Command::new(offset).into_frame(9).encode().unwrap(),
        raw_response_bytes: response.encode().unwrap(),
        response,
    }
}

fn suite_result_window_values() -> [(u32, u32); 4] {
    let frame = tang9k_matmul_smoke_frame(4);
    let command = Matmul32x32Command::decode_payload(&frame.payload).unwrap();
    let window = command.smoke_result_window();
    [
        (window[0].offset, window[0].value),
        (window[1].offset, window[1].value),
        (window[2].offset, window[2].value),
        (window[3].offset, window[3].value),
    ]
}

/// The answer of a sound board to a step.
fn answer(step: &ProbeStep) -> SerialFrame {
    let request = step.frame();
    let sequence = request.sequence;
    match step {
        ProbeStep::Ping => SerialFrame::new(SerialOpcode::Pong, sequence, request.payload.clone()),
        ProbeStep::DeviceInfo => DeviceInfoPayload::tang9k_uart_responder().into_frame(sequence),
        ProbeStep::Matmul { .. } | ProbeStep::ScratchWrite => {
            SerialFrame::ack(sequence, SerialStatusPayload::ok())
        }
        ProbeStep::ScratchRead => {
            ScratchValue32Payload::new(0x44, 0x1122_3344).into_frame(sequence)
        }
        ProbeStep::ResultRead { word, .. } => {
            let (offset, value) = suite_result_window_values()[*word as usize];
            ResultValue32Payload::new(offset, value).into_frame(sequence)
        }
        ProbeStep::WindowStatus => {
            ResultWindowStatusPayload::new(true, 4, 4, expected_result_window_base(), 4)
                .into_frame(sequence)
        }
        ProbeStep::OobRead => SerialFrame::error(
            sequence,
            SerialStatusPayload {
                code: SerialStatusCode::HardwareFault,
                detail: expected_oob_offset(),
            },
        ),
    }
}

/// Runs a probe against a sound board.
fn run_probe(command: ProbeCommand) -> ProbeRun {
    let mut run = ProbeRun::new(command);
    for step in probe_steps(command) {
        let frame = run.next_frame().expect("a step is left");
        assert_eq!(frame, step.frame());
        let response = answer(&step);
        run.accept(UartTang9kExchangeTrace {
            request_bytes: frame.encode().unwrap(),
            raw_response_bytes: response.encode().unwrap(),
            response,
        })
        .expect("a sound answer is accepted");
    }
    assert!(run.next_frame().is_none());
    run
}

#[test]
fn sound_boards_pass_every_probe() {
    for command in [
        ProbeCommand::Ping,
        ProbeCommand::DeviceInfo,
        ProbeCommand::MatmulSmoke,
        ProbeCommand::ScratchSmoke,
        ProbeCommand::ResultSmoke,
        ProbeCommand::ResultWindowSmoke,
        ProbeCommand::ResultWindowStatusSmoke,
        ProbeCommand::ResultOobSmoke,
    ] {
        let steps = probe_steps(command).len();
        assert_eq!(run_probe(command).into_traces().len(), steps);
    }
}

#[test]
fn a_finished_suite_makes_an_accepted_record() {
    let run = run_probe(ProbeCommand::BringupSuite);
    let suite = Tang9kBringupSuiteTrace::from_run(run);
    assert_eq!(suite.device_info.response.sequence, 11);
    let records = suite_trace_records(&suite);
    assert_eq!(records[0].label, "suite device info");
    let metadata = ProbeRecordMetadata::new("BringupSuite", "COM3", 115_200, 1_000);
    let record = ProbeRecord::ok(&metadata, records, TIMESTAMP_UNIX_MS);
    let summary = record.validate_tang9k_acceptance().unwrap();
    assert_eq!(summary.result_window_words_seen, 4);
    assert!(summary.oob_rejection_seen);
}

#[test]
fn wrong_scratch_values_fail_the_probe() {
    let mut run = ProbeRun::new(ProbeCommand::ScratchSmoke);
    let frame = run.next_frame().unwrap();
    let response = answer(&ProbeStep::ScratchWrite);
    assert!(run
        .accept(UartTang9kExchangeTrace {
            request_bytes: frame.encode().unwrap(),
            raw_response_bytes: Vec::new(),
            response,
        })
        .is_ok());
    let frame = run.next_frame().unwrap();
    let response = ScratchValue32Payload::new(0x44, 7).into_frame(frame.sequence);
    let raw = response.encode().unwrap();
    let err = run
        .accept(UartTang9kExchangeTrace {
            request_bytes: frame.encode().unwrap(),
            raw_response_bytes: raw.clone(),
            response,
        })
        .unwrap_err();
    assert_eq!(err.raw_response_bytes, raw);
}

#[test]
fn reads_past_the_window_must_be_refused() {
    let step = ProbeStep::OobRead;
    let sequence = step.frame().sequence;
    assert!(step.judge(&answer(&step)).is_ok());
    let value = ResultValue32Payload::new(expected_oob_offset(), 0).into_frame(sequence);
    assert!(step.judge(&value).is_err());
    let ack = SerialFrame::ack(sequence, SerialStatusPayload::ok());
    assert!(step.judge(&ack).is_err());
}

#[test]
fn exchanges_wait_for_a_whole_frame() {
    let request = SerialFrame::new(SerialOpcode::Ping, 3, b"sptorch-ping".to_vec());
    let response = SerialFrame::new(SerialOpcode::Pong, 3, vec![1, 2, 3]);
    let bytes = response.encode().unwrap();
    let mut exchange = UartExchange::begin(&request).unwrap();
    assert_eq!(exchange.request(), &request.encode().unwrap());
    assert_eq!(exchange.receive(&[0xff]).unwrap(), None);
    assert_eq!(exchange.receive(&bytes[..9]).unwrap(), None);
    let late = exchange.time_out(250);
    assert_eq!(late.error, SerialProtocolError::ResponseTimeout { timeout_ms: 250 });
    assert_eq!(late.raw_response_bytes.len(), 10);
    let trace = exchange.receive(&bytes[9..]).unwrap().unwrap();
    assert_eq!(trace.response, response);
    assert_eq!(trace.raw_response_bytes.len(), bytes.len() + 1);
    let broken = exchange.fail("unplugged".to_string());
    assert!(broken.message().contains("unplugged"));
}

#[test]
fn ports_say_which_step_failed() {
    let transport = UartTang9kTransport::new("COM7", 115_200, Duration::from_millis(250));
    assert_eq!(transport.port_name(), "COM7");
    assert_eq!(transport.baud_rate(), 115_200);
    assert_eq!(transport.timeout(), Duration::from_millis(250));
    assert_eq!(
        transport.port_failure(PortStep::Open, "no such port"),
        "open COM7 failed: no such port"
    );
    assert_eq!(transport.port_failure(PortStep::Read, "gone"), "read COM7 failed: gone");
}

#[test]
fn labels_follow_the_steps() {
    assert_eq!(step_label(ProbeCommand::BringupSuite, 0), "suite device info");
    assert_eq!(step_label(ProbeCommand::BringupSuite, 1), "suite ping");
}

#[test]
fn summaries_show_what_came_back() {
    let line = trace_summary("device info", &device_info_trace());
    assert!(line.contains("device info"));
    assert!(line.contains(&format!("build_id=0x{:08x}", TANG9K_UART_RESPONDER_BUILD_ID)));
    let lines = raw_exchange("ping", &[0x53, 0x50], &[]);
    assert_eq!(lines.len(), 4);
    assert!(lines.iter().any(|line| line.contains("53 50")));
    assert!(lines.iter().any(|line| line.contains("<empty>")));
}

#[test]
fn failures_are_recorded_with_their_bytes() {
    let metadata = ProbeRecordMetadata::new("Ping", "COM3", 115_200, 1_000);
    let err = UartTang9kExchangeError::new(
        SerialProtocolError::ResponseTimeout { timeout_ms: 1_000 },
        vec![0x53],
        Vec::new(),
    );
    let record = ProbeRecord::error(&metadata, &err, TIMESTAMP_UNIX_MS);
    assert_eq!(record.status, "error");
    assert_eq!(record.timestamp_unix_ms, TIMESTAMP_UNIX_MS);
    let shown = record.error.as_ref().unwrap();
    assert_eq!(shown.request_raw_hex, "53");
    assert_eq!(shown.response_raw_hex, "<empty>");
    assert_eq!(shown.message, err.message());
    let refused = record.validate_tang9k_acceptance().unwrap_err();
    assert!(matches!(refused, ProbeRecordValidationError::StatusNotOk { .. }));
}

#[test]
fn every_missing_trace_is_named() {
    let metadata = ProbeRecordMetadata::new("BringupSuite", "COM3", 115_200, 1_000);
    for (opcode, rest) in [("Pong", "Ping"), ("ScratchValue32", "Scratch")] {
        let mut records = full_bringup_records();
        records.retain(|trace| trace.opcode != opcode);
        let record = ProbeRecord::ok(&metadata, records, TIMESTAMP_UNIX_MS);
        match record.validate_tang9k_acceptance().unwrap_err() {
            ProbeRecordValidationError::MissingTrace { label_hint } => {
                assert!(label_hint.contains(rest), "{}", label_hint);
            }
            other => panic!("unexpected {:?}", other),
        }
    }
    let mut records = full_bringup_records();
    records.pop();
    let record = ProbeRecord::ok(&metadata, records, TIMESTAMP_UNIX_MS);
    assert_eq!(
        record.validate_tang9k_acceptance().unwrap_err(),
        ProbeRecordValidationError::OobRejectionMissing
    );
}

#[test]
fn foreign_devices_are_not_accepted() {
    let mut info = DeviceInfoPayload::tang9k_uart_responder();
    info.build_id = info.build_id.wrapping_add(1);
    let frame = info.into_frame(11);
    let trace = UartTang9kExchangeTrace {
        request_bytes: Vec::new(),
        raw_response_bytes: frame.encode().unwrap(),
        response: frame,
    };
    let err = validate_device_info_trace(&TraceRecord::from_trace("device info", &trace));
    assert!(matches!(err, Err(ProbeRecordValidationError::DeviceInfoMismatch { .. })));
}

#[test]
fn stale_windows_are_not_accepted() {
    let frame = ResultWindowStatusPayload::new(false, 4, 4, expected_result_window_base(), 4)
        .into_frame(10);
    let trace = UartTang9kExchangeTrace {
        request_bytes: Vec::new(),
        raw_response_bytes: frame.encode().unwrap(),
        response: frame,
    };
    let err = validate_result_window_status_trace(&TraceRecord::from_trace("status", &trace));
    assert!(matches!(
        err,
        Err(ProbeRecordValidationError::ResultWindowStatusMismatch { .. })
    ));
}

#[test]
fn parse_names_what_is_missing_or_malformed() {
    assert!(parse_args(vec!["--port".into()]).is_err());
    assert!(parse_args(vec!["--baud".into(), "fast".into()]).is_err());
    assert!(parse_args(vec!["--timeout-ms".into(), "-1".into()]).is_err());
    assert!(parse_args(vec!["--help".into()]).unwrap().help);
    let args = parse_args(vec!["--validate-record".into(), "a.json".into()]).unwrap();
    assert_eq!(args.validate_record.as_deref(), Some("a.json"));
}
