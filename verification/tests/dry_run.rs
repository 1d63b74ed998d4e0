//! Matrix products planned, framed and acknowledged without a board.

use sptorch::serial::command::{
    Matmul32x32Command, MATMUL32X32_FLAG_CLEAR_OUTPUT, MATMUL32X32_FLAG_LAST_K_TILE,
};
use sptorch::serial::dry_run::{Tang9kSerialDryRunBackend, DEFAULT_TANG9K_SERIAL_DEVICE};
use sptorch::serial::error::SerialProtocolError;
use sptorch::serial::frame::SerialFrame;
use sptorch::serial::loopback::LoopbackSerialTransport;
use sptorch::serial::opcode::{SerialOpcode, SerialStatusCode};
use sptorch::serial::status::SerialStatusPayload;
use sptorch::tensor::dtype::Device;
use std::cell::RefCell;

/// Acknowledges every frame that survives the wire.
fn loopback(frame: &SerialFrame) -> Result<SerialFrame, SerialProtocolError> {
    LoopbackSerialTransport::new().acknowledge(frame)
}

#[test]
fn serial_dry_run_backend_registers_and_dispatches_matmul() {
    let device = Device::Custom(901);
    let mut backend = Tang9kSerialDryRunBackend::new(device);
    assert_eq!(backend.device(), device);

    backend.record_serial_plan(32, 32, 32, loopback).unwrap();

    let trace = backend.last_trace().as_ref().expect("serial trace should be recorded");
    assert_eq!(trace.plan.command_count(), 1);
    assert_eq!(trace.frames.len(), 1);
    assert_eq!(trace.reports.len(), 1);
    assert_eq!(trace.frames[0].sequence, 0);
    assert_eq!(trace.reports[0].status.code, SerialStatusCode::Success);
    assert_eq!(trace.reports[0].queue_depth_before, 0);
    assert_eq!(trace.reports[0].queue_depth_after_enqueue, 1);
    assert_eq!(trace.reports[0].queue_depth_after_submit, 0);
    assert_eq!(trace.queue_high_watermark, 1);
    assert_eq!(
        trace.plan.commands[0].flags,
        MATMUL32X32_FLAG_CLEAR_OUTPUT | MATMUL32X32_FLAG_LAST_K_TILE
    );
    assert_eq!(backend.queue_depth(), 0);
}

#[test]
fn serial_dry_run_backend_tracks_multi_tile_frames() {
    let mut backend = Tang9kSerialDryRunBackend::new(Device::Custom(902));

    backend.record_serial_plan(64, 64, 64, loopback).unwrap();

    let trace = backend.last_trace().as_ref().expect("serial trace should be recorded");
    assert_eq!(trace.plan.command_count(), 8);
    assert_eq!(trace.frames.len(), 8);
    assert_eq!(trace.reports.len(), 8);
    for (idx, frame) in trace.frames.iter().enumerate() {
        assert_eq!(frame.sequence, idx as u32);
        assert_eq!(trace.reports[idx].status.code, SerialStatusCode::Success);
    }
    assert_eq!(trace.queue_high_watermark, 1);
}

#[test]
fn serial_dry_run_backend_accepts_custom_transport() {
    let mut backend = Tang9kSerialDryRunBackend::new(Device::Custom(903));
    let seen: RefCell<Vec<SerialFrame>> = RefCell::new(Vec::new());

    backend
        .record_serial_plan(32, 32, 32, |frame: &SerialFrame| {
            seen.borrow_mut().push(frame.clone());
            Ok(SerialFrame::ack(frame.sequence, SerialStatusPayload::ok()))
        })
        .unwrap();

    assert_eq!(backend.last_trace().as_ref().unwrap().frames.len(), 1);
    let seen = seen.borrow();
    assert_eq!(seen.len(), 1);
    assert_eq!(seen[0].opcode, SerialOpcode::Matmul32x32);
}

#[test]
#[should_panic(expected = "Tang9k serial dry-run failed to submit MatMul frames")]
fn serial_dry_run_backend_rejects_mismatched_transport_echo() {
    let mut backend = Tang9kSerialDryRunBackend::new(Device::Custom(904));
    backend
        .record_serial_plan(32, 32, 32, |frame: &SerialFrame| {
            Ok(SerialFrame::new(
                SerialOpcode::Ack,
                frame.sequence.wrapping_add(1),
                Vec::new(),
            ))
        })
        .expect("Tang9k serial dry-run failed to submit MatMul frames");
}

#[test]
#[should_panic(expected = "Tang9k serial dry-run failed to submit MatMul frames")]
fn serial_dry_run_backend_rejects_busy_ack() {
    let mut backend = Tang9kSerialDryRunBackend::new(Device::Custom(905));
    backend
        .record_serial_plan(32, 32, 32, |frame: &SerialFrame| {
            Ok(SerialFrame::ack(
                frame.sequence,
                SerialStatusPayload {
                    code: SerialStatusCode::Busy,
                    detail: 0xfeed_beef,
                },
            ))
        })
        .expect("Tang9k serial dry-run failed to submit MatMul frames");
}

#[test]
fn a_refused_frame_leaves_the_last_trace() {
    let mut backend = Tang9kSerialDryRunBackend::default();
    assert_eq!(backend.device(), Device::Custom(DEFAULT_TANG9K_SERIAL_DEVICE));
    backend.record_serial_plan(32, 32, 32, loopback).unwrap();
    let err = backend
        .record_serial_plan(32, 32, 32, |frame: &SerialFrame| {
            Ok(SerialFrame::ack(
                frame.sequence,
                SerialStatusPayload { code: SerialStatusCode::Busy, detail: 5 },
            ))
        })
        .unwrap_err();
    assert!(matches!(err, SerialProtocolError::CommandRejected { detail: 5, .. }));
    assert_eq!(backend.queue_depth(), 0);
    assert_eq!(backend.last_trace().as_ref().unwrap().frames[0].sequence, 0);
}

#[test]
fn sequence_numbers_go_on_from_plan_to_plan() {
    let mut backend = Tang9kSerialDryRunBackend::default();
    backend.record_serial_plan(64, 32, 32, loopback).unwrap();
    backend.record_serial_plan(32, 32, 32, loopback).unwrap();
    let trace = backend.last_trace().as_ref().unwrap();
    assert_eq!(trace.frames[0].sequence, 2);
    let command = Matmul32x32Command::decode_payload(&trace.frames[0].payload).unwrap();
    assert_eq!(command, trace.plan.commands[0]);
}

#[test]
fn frames_before_a_refused_one_were_accepted() {
    let mut backend = Tang9kSerialDryRunBackend::default();
    let seen: RefCell<Vec<u32>> = RefCell::new(Vec::new());
    let err = backend
        .record_serial_plan(64, 64, 64, |frame: &SerialFrame| {
            seen.borrow_mut().push(frame.sequence);
            let code = if frame.sequence == 3 {
                SerialStatusCode::Busy
            } else {
                SerialStatusCode::Success
            };
            Ok(SerialFrame::ack(frame.sequence, SerialStatusPayload { code, detail: 0 }))
        })
        .unwrap_err();
    assert!(matches!(err, SerialProtocolError::CommandRejected { .. }));
    assert_eq!(*seen.borrow(), vec![0, 1, 2, 3]);
    assert!(backend.last_trace().is_none());
    assert_eq!(backend.queue_depth(), 0);

    backend.record_serial_plan(32, 32, 32, loopback).unwrap();
    let trace = backend.last_trace().clone().unwrap();
    assert_eq!(trace.frames[0].sequence, 8);
    assert_eq!(trace.queue_high_watermark, 1);
    assert_eq!(Some(trace), *backend.last_trace());
}
