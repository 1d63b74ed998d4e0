//! Submitting matrix products to a Tang9k without relying on its arithmetic: every product is
//! cut into tiles, and every tile command is sent and acknowledged.

use super::command;
use super::error::SerialProtocolError;
use super::frame::{SerialFrame, WireFrame};
use super::loopback::LoopbackSerialTransport;
use super::opcode::SerialOpcode;
use super::plan;
use super::plan::{plan_matmul32x32_commands, Matmul32x32Plan, MatmulMemoryLayout};
use super::queue;
use super::queue::{QueueState, SerialSubmitQueue, SerialSubmitReport};
use super::status;
use super::status::SerialStatusPayload;
use crate::tensor::dtype::Device;
use vstd::prelude::*;

verus! {

/// The number of the custom device under which the backend is known where its owner asks for
/// no other.
pub const DEFAULT_TANG9K_SERIAL_DEVICE: u16 = 9;

/// What was sent for one product.
#[derive(Debug, Clone, PartialEq, Eq)]
pub struct Tang9kSerialTrace {
    pub plan: Matmul32x32Plan,
    pub frames: Vec<SerialFrame>,
    pub reports: Vec<SerialSubmitReport>,
    pub queue_high_watermark: u32,
    pub queue_depth_after_submit: u32,
}

/// The layout of a product on the device: the operands and the output one behind the other,
/// each without gaps, in elements of four bytes.
pub open spec fn packed_layout(m: usize, k: usize, n: usize) -> MatmulMemoryLayout {
    MatmulMemoryLayout {
        a_base: 0,
        b_base: (m * k * 4) as u64,
        out_base: ((m * k + k * n) * 4) as u64,
        a_row_stride: k,
        b_row_stride: n,
        out_row_stride: n,
        elem_size_bytes: 4,
    }
}

/// The frame of command `i` of a plan.
pub open spec fn plan_frame(plan: Matmul32x32Plan, first_sequence: u32, i: int) -> WireFrame {
    WireFrame {
        opcode: SerialOpcode::Matmul32x32,
        sequence: first_sequence.wrapping_add(i as u32),
        flags: 0,
        payload: command::matmul_bytes(plan.commands@[i]),
    }
}

/// Whether `result` is what the link may have brought back for `frame`.
pub open spec fn answered<F: Fn(&SerialFrame) -> Result<SerialFrame, SerialProtocolError>>(
    exchange: F,
    frame: SerialFrame,
    result: Result<SerialSubmitReport, SerialProtocolError>,
) -> bool {
    exists|outcome: Result<SerialFrame, SerialProtocolError>| #[trigger]
        exchange.ensures((&frame,), outcome) && queue::settled(&frame, outcome, 0, result)
}

/// Whether the link may have brought back an acceptance of a frame that says `sent`.
pub open spec fn accepted<F: Fn(&SerialFrame) -> Result<SerialFrame, SerialProtocolError>>(
    exchange: F,
    sent: WireFrame,
) -> bool {
    exists|frame: SerialFrame, report: SerialSubmitReport|
        frame@ == sent && #[trigger] answered(exchange, frame, Ok(report))
}

/// The greatest depth of a queue after some commands were submitted one by one.
pub open spec fn watermark_after(before: u32, submitted: nat) -> u32 {
    if submitted > 0 && before < 1 {
        1
    } else {
        before
    }
}

/// Submits products tile by tile.
#[derive(Debug)]
pub struct Tang9kSerialDryRunBackend {
    device: Device,
    submit_queue: SerialSubmitQueue,
    last_trace: Option<Tang9kSerialTrace>,
}

impl Tang9kSerialDryRunBackend {
    /// The device that the backend stands for.
    pub closed spec fn stands_for(&self) -> Device {
        self.device
    }

    /// The state of the submit queue.
    pub closed spec fn queue(&self) -> QueueState {
        self.submit_queue@
    }

    /// What was sent for the last product that went through.
    pub closed spec fn trace(&self) -> Option<Tang9kSerialTrace> {
        self.last_trace
    }

    /// Nothing is under way, and there is room for a command.
    pub open spec fn well_formed(&self) -> bool {
        self.queue().depth == 0 < self.queue().capacity
    }

    /// A backend that has sent nothing.
    pub fn new(device: Device) -> (backend: Self)
        ensures
            backend.well_formed(),
            backend.stands_for() == device,
            backend.queue() == (QueueState {
                next_sequence: 0,
                depth: 0,
                capacity: queue::SERIAL_DEFAULT_QUEUE_CAPACITY,
                high_watermark: 0,
            }),
            backend.trace() is None,
    {
        Tang9kSerialDryRunBackend {
            device,
            submit_queue: SerialSubmitQueue::default(),
            last_trace: None,
        }
    }

    /// The device that the backend stands for.
    pub fn device(&self) -> (device: Device)
        ensures
            device == self.stands_for(),
    {
        self.device
    }

    /// What was sent for the last product that went through.
    pub fn last_trace(&self) -> (trace: &Option<Tang9kSerialTrace>)
        ensures
            *trace == self.trace(),
    {
        &self.last_trace
    }

    /// How many commands are under way.
    pub fn queue_depth(&self) -> (depth: u32)
        ensures
            depth == self.queue().depth,
    {
        self.submit_queue.queue_depth()
    }

    /// Plans a product of an m by k and a k by n matrix and submits its commands over
    /// `exchange`, in order, up to the first that is not accepted. The trace is kept only if
    /// all were accepted. Sequence numbers of a failed product are not used again.
    pub fn record_serial_plan<F>(&mut self, m: usize, k: usize, n: usize, exchange: F) -> (result:
        Result<(), SerialProtocolError>) where
        F: Fn(&SerialFrame) -> Result<SerialFrame, SerialProtocolError>,

        requires
            old(self).well_formed(),
            (m * k + k * n) * 4 <= usize::MAX,
            forall|frame: &SerialFrame| #[trigger] exchange.requires((frame,)),
        ensures
            final(self).well_formed(),
            final(self).stands_for() == old(self).stands_for(),
            final(self).queue().capacity == old(self).queue().capacity,
            exists|planned: Result<Matmul32x32Plan, SerialProtocolError>| #[trigger]
                plan::plan_outcome(m, k, n, packed_layout(m, k, n), planned) && match planned {
                    Err(e) => {
                        &&& result == Err::<(), SerialProtocolError>(e)
                        &&& final(self).queue() == old(self).queue()
                        &&& final(self).trace() == old(self).trace()
                    },
                    Ok(plan) => {
                        &&& final(self).queue().next_sequence
                            == old(self).queue().next_sequence.wrapping_add(
                            plan.commands@.len() as u32,
                        )
                        &&& final(self).queue().high_watermark == watermark_after(
                            old(self).queue().high_watermark,
                            plan.commands@.len(),
                        )
                        &&& match result {
                            Ok(_) => final(self).trace() matches Some(trace) && {
                                &&& trace.plan == plan
                                &&& trace.frames@.len() == plan.commands@.len()
                                &&& trace.reports@.len() == plan.commands@.len()
                                &&& forall|i: int|
                                    0 <= i < trace.frames@.len() ==> (
                                    #[trigger] trace.frames@[i])@ == plan_frame(
                                        plan,
                                        old(self).queue().next_sequence,
                                        i,
                                    )
                                &&& forall|i: int|
                                    0 <= i < trace.reports@.len() ==> answered(
                                        exchange,
                                        trace.frames@[i],
                                        Ok(#[trigger] trace.reports@[i]),
                                    )
                                &&& trace.queue_high_watermark
                                    == final(self).queue().high_watermark
                                &&& trace.queue_depth_after_submit == 0
                            },
                            Err(e) => {
                                &&& final(self).trace() == old(self).trace()
                                &&& exists|i: int, frame: SerialFrame|
                                    {
                                        &&& 0 <= i < plan.commands@.len()
                                        &&& frame@ == #[trigger] plan_frame(
                                            plan,
                                            old(self).queue().next_sequence,
                                            i,
                                        )
                                        &&& #[trigger] answered(exchange, frame, Err(e))
                                        &&& forall|j: int|
                                            0 <= j < i ==> accepted(
                                                exchange,
                                                #[trigger] plan_frame(
                                                    plan,
                                                    old(self).queue().next_sequence,
                                                    j,
                                                ),
                                            )
                                    }
                            },
                        }
                    },
                },
    {
        assert(m * k >= 0 && k * n >= 0) by (nonlinear_arith)
            requires
                m >= 0,
                k >= 0,
                n >= 0,
        ;
        let layout = MatmulMemoryLayout::row_major(
            m,
            k,
            n,
            0,
            (m * k * 4) as u64,
            ((m * k + k * n) * 4) as u64,
            4,
        );
        let planned = plan_matmul32x32_commands(m, k, n, layout);
        assert(plan::plan_outcome(m, k, n, packed_layout(m, k, n), planned));
        let plan = match planned {
            Ok(plan) => plan,
            Err(e) => return Err(e),
        };
        let first_sequence: u32 = self.submit_queue.reserve_sequences(plan.command_count());
        let frames: Vec<SerialFrame> = plan.frames(first_sequence);
        let mut reports: Vec<SerialSubmitReport> = Vec::new();
        let ghost reserved = self.submit_queue@;
        let mut i: usize = 0;
        while i < frames.len()
            invariant
                i <= frames@.len(),
                frames@.len() == plan.commands@.len(),
                reports@.len() == i,
                first_sequence == old(self).queue().next_sequence,
                forall|j: int|
                    0 <= j < frames@.len() ==> (#[trigger] frames@[j])@ == plan_frame(
                        plan,
                        first_sequence,
                        j,
                    ),
                forall|j: int|
                    0 <= j < i ==> answered(exchange, frames@[j], Ok(#[trigger] reports@[j])),
                forall|frame: &SerialFrame| #[trigger] exchange.requires((frame,)),
                self.device == old(self).device,
                self.last_trace == old(self).last_trace,
                self.submit_queue@.next_sequence == reserved.next_sequence,
                self.submit_queue@.capacity == reserved.capacity,
                self.submit_queue@.depth == 0 < reserved.capacity,
                reserved.next_sequence == old(self).queue().next_sequence.wrapping_add(
                    plan.commands@.len() as u32,
                ),
                reserved.capacity == old(self).queue().capacity,
                self.submit_queue@.high_watermark == watermark_after(
                    old(self).queue().high_watermark,
                    i as nat,
                ),
                plan::plan_outcome(
                    m,
                    k,
                    n,
                    packed_layout(m, k, n),
                    Ok::<Matmul32x32Plan, SerialProtocolError>(plan),
                ),
            decreases frames@.len() - i,
        {
            let frame: &SerialFrame = &frames[i];
            let send = |f: &SerialFrame| -> (r: Result<SerialFrame, SerialProtocolError>)
                requires
                    exchange.requires((f,)),
                ensures
                    exchange.ensures((f,), r),
                {
                    exchange(f)
                };
            let sent = self.submit_queue.submit(frame, send);
            assert(answered(exchange, frames@[i as int], sent));
            match sent {
                Ok(report) => reports.push(report),
                Err(e) => {
                    assert(frame@ == plan_frame(plan, first_sequence, i as int));
                    assert forall|j: int| 0 <= j < i implies accepted(
                        exchange,
                        #[trigger] plan_frame(plan, first_sequence, j),
                    ) by {
                        assert(frames@[j]@ == plan_frame(plan, first_sequence, j));
                        assert(answered(exchange, frames@[j], Ok(reports@[j])));
                    }
                    return Err(e);
                },
            }
            i = i + 1;
        }
        self.last_trace = Some(
            Tang9kSerialTrace {
                plan,
                frames,
                reports,
                queue_high_watermark: self.submit_queue.high_watermark(),
                queue_depth_after_submit: self.submit_queue.queue_depth(),
            },
        );
        Ok(())
    }
}

impl Default for Tang9kSerialDryRunBackend {
    fn default() -> (backend: Self)
        ensures
            backend.well_formed(),
            backend.stands_for() == Device::Custom(DEFAULT_TANG9K_SERIAL_DEVICE),
            backend.queue() == (QueueState {
                next_sequence: 0,
                depth: 0,
                capacity: queue::SERIAL_DEFAULT_QUEUE_CAPACITY,
                high_watermark: 0,
            }),
            backend.trace() is None,
    {
        Self::new(Device::Custom(DEFAULT_TANG9K_SERIAL_DEVICE))
    }
}

/// Whether both frames are the same.
fn same_frame(a: &SerialFrame, b: &SerialFrame) -> (yes: bool)
    ensures
        yes == (a@ == b@),
{
    if a.opcode != b.opcode || a.sequence != b.sequence || a.flags != b.flags || a.payload.len()
        != b.payload.len() {
        return false;
    }
    let mut i: usize = 0;
    while i < a.payload.len()
        invariant
            i <= a.payload@.len(),
            a.payload@.len() == b.payload@.len(),
            forall|j: int| 0 <= j < i ==> a.payload@[j] == b.payload@[j],
        decreases a.payload@.len() - i,
    {
        if a.payload[i] != b.payload[i] {
            return false;
        }
        i = i + 1;
    }
    assert(a.payload@ =~= b.payload@);
    true
}

impl LoopbackSerialTransport {
    /// Sends a command around the loop and acknowledges it. Every frame that fits the wire is
    /// acknowledged and counted.
    pub fn acknowledge(&mut self, frame: &SerialFrame) -> (result: Result<
        SerialFrame,
        SerialProtocolError,
    >)
        requires
            old(self).seen() < usize::MAX,
        ensures
            frame@.fits() ==> {
                &&& result matches Ok(ack) && ack@ == (WireFrame {
                    opcode: SerialOpcode::Ack,
                    sequence: frame@.sequence,
                    flags: 0,
                    payload: status::status_bytes(
                        SerialStatusPayload {
                            code: super::opcode::SerialStatusCode::Success,
                            detail: 0,
                        },
                    ),
                })
                &&& final(self).seen() == old(self).seen() + 1
            },
            !frame@.fits() ==> {
                &&& result == Err::<SerialFrame, SerialProtocolError>(
                    SerialProtocolError::PayloadTooLarge {
                        actual: frame.payload@.len() as usize,
                        max: super::frame::SERIAL_MAX_PAYLOAD_LEN,
                    },
                )
                &&& final(self).seen() == old(self).seen()
            },
    {
        let encoded: Vec<u8> = frame.encode()?;
        proof {
            super::frame::law_encoded_frames_have_no_fault(frame@);
        }
        let echoed: Vec<u8> = self.exchange(encoded.as_slice())?;
        let echoed: SerialFrame = SerialFrame::decode(echoed.as_slice())?;
        if !same_frame(&echoed, frame) {
            proof {
                super::frame::law_frame_bytes_are_injective(echoed@, frame@);
            }
            return Err(
                SerialProtocolError::InvalidMatmulLayout {
                    reason:
                        "loopback transport returned a frame that differs from the submitted command".to_owned(),
                },
            );
        }
        Ok(SerialFrame::ack(frame.sequence, SerialStatusPayload::ok()))
    }
}

} // verus!
