//! The host's submit queue.

use super::error::SerialProtocolError;
use super::frame::SerialFrame;
use super::status;
use super::status::{validate_status_response, SerialStatusPayload};
use vstd::prelude::*;

verus! {

/// Capacity of a queue whose owner asks for no other.
pub const SERIAL_DEFAULT_QUEUE_CAPACITY: u32 = 64;

/// What happened to one accepted command.
#[derive(Debug, Clone, PartialEq, Eq)]
pub struct SerialSubmitReport {
    pub command: SerialFrame,
    pub response: SerialFrame,
    pub status: SerialStatusPayload,
    pub queue_depth_before: u32,
    pub queue_depth_after_enqueue: u32,
    pub queue_depth_after_submit: u32,
}

/// Hands out sequence numbers and bounds the number of commands under way.
#[derive(Debug, Clone, PartialEq, Eq)]
pub struct SerialSubmitQueue {
    next_sequence: u32,
    queue_depth: u32,
    capacity: u32,
    high_watermark: u32,
}

/// What a queue holds, apart from how it is stored.
pub struct QueueState {
    pub next_sequence: u32,
    pub depth: u32,
    pub capacity: u32,
    pub high_watermark: u32,
}

impl View for SerialSubmitQueue {
    type V = QueueState;

    closed spec fn view(&self) -> QueueState {
        QueueState {
            next_sequence: self.next_sequence,
            depth: self.queue_depth,
            capacity: self.capacity,
            high_watermark: self.high_watermark,
        }
    }
}

/// Whether `result` is what a submit of `command` at queue depth `depth` owes its caller
/// when the link came back with `outcome`.
pub open spec fn settled(
    command: &SerialFrame,
    outcome: Result<SerialFrame, SerialProtocolError>,
    depth: u32,
    result: Result<SerialSubmitReport, SerialProtocolError>,
) -> bool {
    match outcome {
        Err(e) => result == Err::<SerialSubmitReport, SerialProtocolError>(e),
        Ok(response) => match status::rejection(command@, response@) {
            Some(e) => result == Err::<SerialSubmitReport, SerialProtocolError>(e),
            None => result matches Ok(report) && {
                &&& report.command@ == command@
                &&& report.response == response
                &&& response@.payload == status::status_bytes(report.status)
                &&& report.queue_depth_before == depth
                &&& report.queue_depth_after_enqueue == depth + 1
                &&& report.queue_depth_after_submit == depth
            },
        },
    }
}

/// Judges what the link came back with for `command`, which found the queue at depth
/// `depth`.
pub fn settle(
    command: &SerialFrame,
    outcome: Result<SerialFrame, SerialProtocolError>,
    depth: u32,
) -> (result: Result<SerialSubmitReport, SerialProtocolError>)
    requires
        depth < u32::MAX,
    ensures
        settled(command, outcome, depth, result),
{
    let response = match outcome {
        Ok(response) => response,
        Err(e) => return Err(e),
    };
    match validate_status_response(command, &response) {
        Ok(status) => Ok(
            SerialSubmitReport {
                command: command.clone(),
                response,
                status,
                queue_depth_before: depth,
                queue_depth_after_enqueue: depth + 1,
                queue_depth_after_submit: depth,
            },
        ),
        Err(e) => Err(e),
    }
}

impl SerialSubmitQueue {
    /// An empty queue.
    pub fn new(capacity: u32) -> (queue: Self)
        ensures
            queue@ == (QueueState { next_sequence: 0, depth: 0, capacity, high_watermark: 0 }),
    {
        SerialSubmitQueue { next_sequence: 0, queue_depth: 0, capacity, high_watermark: 0 }
    }

    /// How many commands may be under way at once.
    pub fn capacity(&self) -> (n: u32)
        ensures
            n == self@.capacity,
    {
        self.capacity
    }

    /// The sequence number that is handed out next.
    pub fn next_sequence(&self) -> (n: u32)
        ensures
            n == self@.next_sequence,
    {
        self.next_sequence
    }

    /// How many commands are under way.
    pub fn queue_depth(&self) -> (n: u32)
        ensures
            n == self@.depth,
    {
        self.queue_depth
    }

    /// The greatest depth so far.
    pub fn high_watermark(&self) -> (n: u32)
        ensures
            n == self@.high_watermark,
    {
        self.high_watermark
    }

    /// Hands out `count` consecutive sequence numbers, which wrap around, and returns the
    /// first. The depth does not change.
    pub fn reserve_sequences(&mut self, count: usize) -> (first: u32)
        ensures
            first == old(self)@.next_sequence,
            final(self)@ == (QueueState {
                next_sequence: old(self)@.next_sequence.wrapping_add(count as u32),
                ..old(self)@
            }),
    {
        let first: u32 = self.next_sequence;
        self.next_sequence = self.next_sequence.wrapping_add(count as u32);
        first
    }

    /// Sends one command over `exchange` and judges the response.
    ///
    /// A full queue refuses the command and changes nothing. Otherwise the depth is back to
    /// what it was when the call returns, whatever came back.
    pub fn submit<F>(&mut self, frame: &SerialFrame, exchange: F) -> (result: Result<
        SerialSubmitReport,
        SerialProtocolError,
    >) where F: FnOnce(&SerialFrame) -> Result<SerialFrame, SerialProtocolError>
        requires
            exchange.requires((frame,)),
        ensures
            old(self)@.depth >= old(self)@.capacity ==> {
                &&& result == Err::<SerialSubmitReport, SerialProtocolError>(
                    SerialProtocolError::QueueFull { capacity: old(self)@.capacity },
                )
                &&& final(self)@ == old(self)@
            },
            old(self)@.depth < old(self)@.capacity ==> {
                &&& final(self)@ == (QueueState {
                    high_watermark: if old(self)@.high_watermark > old(self)@.depth {
                        old(self)@.high_watermark
                    } else {
                        (old(self)@.depth + 1) as u32
                    },
                    ..old(self)@
                })
                &&& exists|outcome: Result<SerialFrame, SerialProtocolError>| #[trigger]
                    exchange.ensures((frame,), outcome) && settled(
                        frame,
                        outcome,
                        old(self)@.depth,
                        result,
                    )
            },
    {
        if self.queue_depth >= self.capacity {
            return Err(SerialProtocolError::QueueFull { capacity: self.capacity });
        }
        let depth: u32 = self.queue_depth;
        self.queue_depth = self.queue_depth + 1;
        if self.high_watermark < self.queue_depth {
            self.high_watermark = self.queue_depth;
        }
        let outcome = exchange(frame);
        self.queue_depth = self.queue_depth - 1;
        assert(exchange.ensures((frame,), outcome));
        settle(frame, outcome, depth)
    }
}

impl Default for SerialSubmitQueue {
    fn default() -> (queue: Self)
        ensures
            queue@ == (QueueState {
                next_sequence: 0,
                depth: 0,
                capacity: SERIAL_DEFAULT_QUEUE_CAPACITY,
                high_watermark: 0,
            }),
    {
        Self::new(SERIAL_DEFAULT_QUEUE_CAPACITY)
    }
}

} // verus!
