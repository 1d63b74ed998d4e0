//! Device identifiers and the host backend.

use sptorch::hal::backend::{Backend, CpuBackend, FenceState, HalError, QueueState};
use sptorch::hal::device::DeviceId;

#[test]
fn test_fence_and_queue_state_types() {
    let fence = FenceState {
        phase: "WaitFence".into(),
        queue_depth: 7,
        synced: false,
        message: "draining kernel queue".into(),
    };
    let queue = QueueState {
        depth: 7,
        capacity: 16,
        draining: true,
    };
    assert_eq!(fence.phase, "WaitFence");
    assert_eq!(queue.depth, fence.queue_depth);
    assert!(queue.draining);
}

#[test]
fn test_cpu_backend_allocate() {
    let backend = CpuBackend;
    let buf = backend.allocate(16).unwrap();
    assert_eq!(buf.data.len(), 16);
    assert_eq!(buf.device, DeviceId::cpu());
}

#[test]
fn fresh_buffers_hold_zeros() {
    assert_eq!(CpuBackend.allocate(3).unwrap().data, vec![0, 0, 0]);
}

#[test]
fn what_is_copied_in_is_copied_out() {
    let backend = CpuBackend;
    let mut buf = backend.allocate(4).unwrap();
    assert!(backend.copy_from_host(&[1, 2, 3, 4], &mut buf).is_ok());
    let mut dst = [0u8; 4];
    assert!(backend.copy_to_host(&buf, &mut dst).is_ok());
    assert_eq!(dst, [1, 2, 3, 4]);
    assert!(backend.synchronize().is_ok());
    assert_eq!(backend.name(), "cpu");
    assert_eq!(backend.device_id(), DeviceId::cpu());
}

#[test]
fn device_labels_name_family_and_ordinal() {
    assert_eq!(DeviceId::cuda(3).label(), "cuda:3");
    assert_eq!(DeviceId::tank9k(0).label(), "tank9k:0");
    assert!(DeviceId::cpu().same(&DeviceId::cpu()));
    assert!(!DeviceId::cuda(0).same(&DeviceId::cuda(1)));
}

#[test]
fn hal_errors_read_as_sentences() {
    let shown = HalError::AllocationFailed { size: 8, reason: "full".into() }.message();
    assert!(shown.contains("8"));
    assert!(shown.contains("full"));
    let shown = HalError::DeviceNotFound(DeviceId::cuda(2)).message();
    assert!(shown.contains("cuda:2"));
    assert!(HalError::Unsupported("gelu".into()).message().contains("gelu"));
}
