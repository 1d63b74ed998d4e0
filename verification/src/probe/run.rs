//! Going through the steps of a probe.

use super::exchange::{UartTang9kExchangeError, UartTang9kExchangeTrace};
use super::steps;
use super::steps::{ProbeCommand, ProbeStep};
use crate::serial::command;
use crate::serial::command::{DeviceInfoPayload, ResultWindowStatusPayload, ScratchValue32Payload};
use crate::serial::frame::{SerialFrame, WireFrame};
use crate::serial::opcode::{SerialOpcode, SerialStatusCode};
use crate::serial::status;
use crate::serial::status::SerialStatusPayload;
use crate::text;
use crate::text::push_decimal;
use vstd::prelude::*;

verus! {

/// The matrix command, then a read of each word of the result window.
pub open spec fn window_steps() -> Seq<ProbeStep> {
    seq![
        ProbeStep::Matmul { sequence: 4 },
        ProbeStep::ResultRead { sequence: 5, word: 0 },
        ProbeStep::ResultRead { sequence: 6, word: 1 },
        ProbeStep::ResultRead { sequence: 7, word: 2 },
        ProbeStep::ResultRead { sequence: 8, word: 3 },
    ]
}

/// The steps of a probe, in order.
pub open spec fn steps_of(command: ProbeCommand) -> Seq<ProbeStep> {
    match command {
        ProbeCommand::Ping => seq![ProbeStep::Ping],
        ProbeCommand::DeviceInfo => seq![ProbeStep::DeviceInfo],
        ProbeCommand::MatmulSmoke => seq![ProbeStep::Matmul { sequence: 1 }],
        ProbeCommand::ScratchSmoke => seq![ProbeStep::ScratchWrite, ProbeStep::ScratchRead],
        ProbeCommand::ResultSmoke => seq![
            ProbeStep::Matmul { sequence: 4 },
            ProbeStep::ResultRead { sequence: 5, word: 0 },
        ],
        ProbeCommand::ResultWindowSmoke => window_steps(),
        ProbeCommand::ResultWindowStatusSmoke => seq![
            ProbeStep::Matmul { sequence: 4 },
            ProbeStep::WindowStatus,
        ],
        ProbeCommand::ResultOobSmoke => window_steps().push(ProbeStep::OobRead),
        ProbeCommand::BringupSuite => steps_of_suite(),
    }
}

/// The steps of the whole suite: every other probe but the shorter reads of the window, one
/// after the other.
pub open spec fn steps_of_suite() -> Seq<ProbeStep> {
    seq![
        ProbeStep::DeviceInfo,
        ProbeStep::Ping,
        ProbeStep::Matmul { sequence: 1 },
        ProbeStep::ScratchWrite,
        ProbeStep::ScratchRead,
        ProbeStep::Matmul { sequence: 4 },
        ProbeStep::WindowStatus,
    ] + window_steps() + window_steps().push(ProbeStep::OobRead)
}

/// Appends the matrix command and the reads of the result window.
fn push_window(out: &mut Vec<ProbeStep>)
    ensures
        final(out)@ == old(out)@ + window_steps(),
{
    out.push(ProbeStep::Matmul { sequence: 4 });
    out.push(ProbeStep::ResultRead { sequence: 5, word: 0 });
    out.push(ProbeStep::ResultRead { sequence: 6, word: 1 });
    out.push(ProbeStep::ResultRead { sequence: 7, word: 2 });
    out.push(ProbeStep::ResultRead { sequence: 8, word: 3 });
    assert(out@ =~= old(out)@ + window_steps());
}

/// The steps of a probe, in order.
pub fn probe_steps(command: ProbeCommand) -> (list: Vec<ProbeStep>)
    ensures
        list@ == steps_of(command),
{
    let mut list: Vec<ProbeStep> = Vec::new();
    match command {
        ProbeCommand::Ping => list.push(ProbeStep::Ping),
        ProbeCommand::DeviceInfo => list.push(ProbeStep::DeviceInfo),
        ProbeCommand::MatmulSmoke => list.push(ProbeStep::Matmul { sequence: 1 }),
        ProbeCommand::ScratchSmoke => {
            list.push(ProbeStep::ScratchWrite);
            list.push(ProbeStep::ScratchRead);
        },
        ProbeCommand::ResultSmoke => {
            list.push(ProbeStep::Matmul { sequence: 4 });
            list.push(ProbeStep::ResultRead { sequence: 5, word: 0 });
        },
        ProbeCommand::ResultWindowSmoke => push_window(&mut list),
        ProbeCommand::ResultWindowStatusSmoke => {
            list.push(ProbeStep::Matmul { sequence: 4 });
            list.push(ProbeStep::WindowStatus);
        },
        ProbeCommand::ResultOobSmoke => {
            push_window(&mut list);
            list.push(ProbeStep::OobRead);
        },
        ProbeCommand::BringupSuite => {
            list.push(ProbeStep::DeviceInfo);
            list.push(ProbeStep::Ping);
            list.push(ProbeStep::Matmul { sequence: 1 });
            list.push(ProbeStep::ScratchWrite);
            list.push(ProbeStep::ScratchRead);
            list.push(ProbeStep::Matmul { sequence: 4 });
            list.push(ProbeStep::WindowStatus);
            push_window(&mut list);
            push_window(&mut list);
            list.push(ProbeStep::OobRead);
        },
    }
    assert(list@ =~= steps_of(command));
    list
}

/// The label of a list of reads that starts with the command whose result they read.
pub open spec fn window_label(first: Seq<char>, read: Seq<char>, i: int) -> Seq<char> {
    if i == 0 {
        first
    } else {
        read + text::decimal((i - 1) as nat)
    }
}

/// The label of a list of reads that starts with the command whose result they read.
pub fn window_step_label(first: &str, read: &str, i: usize) -> (label: String)
    ensures
        label@ == window_label(first@, read@, i as int),
{
    if i == 0 {
        return first.to_owned();
    }
    let mut label = read.to_owned();
    push_decimal(&mut label, (i - 1) as u64);
    label
}

/// The label of a step of the whole suite.
pub open spec fn suite_label(i: int) -> Seq<char> {
    if i == 0 {
        "suite device info"@
    } else if i == 1 {
        "suite ping"@
    } else if i == 2 {
        "suite matmul"@
    } else if i == 3 {
        "suite scratch write"@
    } else if i == 4 {
        "suite scratch read"@
    } else if i == 5 {
        "suite status matmul"@
    } else if i == 6 {
        "suite status"@
    } else if i < 12 {
        window_label("suite result window matmul"@, "suite result window read "@, i - 7)
    } else if i < 17 {
        window_label("suite oob matmul"@, "suite oob setup read "@, i - 12)
    } else {
        "suite oob rejected read"@
    }
}

/// The label under which step `i` of a probe is reported.
pub open spec fn label_of(command: ProbeCommand, i: int) -> Seq<char> {
    match command {
        ProbeCommand::Ping => "response"@,
        ProbeCommand::DeviceInfo => "device info"@,
        ProbeCommand::MatmulSmoke => "matmul"@,
        ProbeCommand::ScratchSmoke => if i == 0 {
            "scratch write"@
        } else {
            "scratch read"@
        },
        ProbeCommand::ResultSmoke => if i == 0 {
            "result matmul"@
        } else {
            "result read"@
        },
        ProbeCommand::ResultWindowSmoke => window_label(
            "result window matmul"@,
            "result window read "@,
            i,
        ),
        ProbeCommand::ResultWindowStatusSmoke => if i == 0 {
            "result window status matmul"@
        } else {
            "result window status"@
        },
        ProbeCommand::ResultOobSmoke => if i < 5 {
            window_label("result oob matmul"@, "result oob setup read "@, i)
        } else {
            "result oob rejected read"@
        },
        ProbeCommand::BringupSuite => suite_label(i),
    }
}

/// The label under which step `i` of a probe is reported.
pub fn step_label(command: ProbeCommand, i: usize) -> (label: String)
    ensures
        label@ == label_of(command, i as int),
{
    match command {
        ProbeCommand::Ping => "response".to_owned(),
        ProbeCommand::DeviceInfo => "device info".to_owned(),
        ProbeCommand::MatmulSmoke => "matmul".to_owned(),
        ProbeCommand::ScratchSmoke => if i == 0 {
            "scratch write".to_owned()
        } else {
            "scratch read".to_owned()
        },
        ProbeCommand::ResultSmoke => if i == 0 {
            "result matmul".to_owned()
        } else {
            "result read".to_owned()
        },
        ProbeCommand::ResultWindowSmoke => window_step_label(
            "result window matmul",
            "result window read ",
            i,
        ),
        ProbeCommand::ResultWindowStatusSmoke => if i == 0 {
            "result window status matmul".to_owned()
        } else {
            "result window status".to_owned()
        },
        ProbeCommand::ResultOobSmoke => if i < 5 {
            window_step_label("result oob matmul", "result oob setup read ", i)
        } else {
            "result oob rejected read".to_owned()
        },
        ProbeCommand::BringupSuite => suite_step_label(i),
    }
}

/// The label of a step of the whole suite.
fn suite_step_label(i: usize) -> (label: String)
    ensures
        label@ == suite_label(i as int),
{
    if i == 0 {
        "suite device info".to_owned()
    } else if i == 1 {
        "suite ping".to_owned()
    } else if i == 2 {
        "suite matmul".to_owned()
    } else if i == 3 {
        "suite scratch write".to_owned()
    } else if i == 4 {
        "suite scratch read".to_owned()
    } else if i == 5 {
        "suite status matmul".to_owned()
    } else if i == 6 {
        "suite status".to_owned()
    } else if i < 12 {
        window_step_label("suite result window matmul", "suite result window read ", i - 7)
    } else if i < 17 {
        window_step_label("suite oob matmul", "suite oob setup read ", i - 12)
    } else {
        "suite oob rejected read".to_owned()
    }
}

/// A probe under way: the exchanges so far, each with an answer that its step allows.
#[derive(Debug)]
pub struct ProbeRun {
    command: ProbeCommand,
    traces: Vec<UartTang9kExchangeTrace>,
}

impl ProbeRun {
    /// Which probe it is.
    pub closed spec fn probe(&self) -> ProbeCommand {
        self.command
    }

    /// The exchanges so far.
    pub closed spec fn done(&self) -> Seq<UartTang9kExchangeTrace> {
        self.traces@
    }

    /// The run holds one exchange for each of the first steps, and no answer is at fault.
    pub open spec fn well_formed(&self) -> bool {
        &&& self.done().len() <= steps_of(self.probe()).len()
        &&& forall|i: int|
            0 <= i < self.done().len() ==> steps::step_fault(
                steps_of(self.probe())[i],
                (#[trigger] self.done()[i]).response@,
            ) is None
    }

    /// All steps have been taken.
    pub open spec fn finished(&self) -> bool {
        self.done().len() == steps_of(self.probe()).len()
    }

    /// A run that has not sent anything.
    pub fn new(command: ProbeCommand) -> (run: Self)
        ensures
            run.well_formed(),
            run.probe() == command,
            run.done() == Seq::<UartTang9kExchangeTrace>::empty(),
    {
        ProbeRun { command, traces: Vec::new() }
    }

    /// The frame to send next, if any.
    pub fn next_frame(&self) -> (frame: Option<SerialFrame>)
        requires
            self.well_formed(),
        ensures
            frame is None <==> self.finished(),
            frame matches Some(f) ==> {
                &&& f@ == steps::step_frame(steps_of(self.probe())[self.done().len() as int])
                &&& f@.fits()
            },
    {
        let list: Vec<ProbeStep> = probe_steps(self.command);
        if self.traces.len() < list.len() {
            Some(list[self.traces.len()].frame())
        } else {
            None
        }
    }

    /// Takes in the exchange of the next step. An answer at fault ends the probe; the fault is
    /// reported with the bytes of the exchange.
    pub fn accept(&mut self, trace: UartTang9kExchangeTrace) -> (result: Result<
        (),
        UartTang9kExchangeError,
    >)
        requires
            old(self).well_formed(),
            !old(self).finished(),
        ensures
            final(self).well_formed(),
            final(self).probe() == old(self).probe(),
            match steps::step_fault(
                steps_of(old(self).probe())[old(self).done().len() as int],
                trace.response@,
            ) {
                None => result is Ok && final(self).done() == old(self).done().push(trace),
                Some(fault) => {
                    &&& result == Err::<(), UartTang9kExchangeError>(
                        UartTang9kExchangeError {
                            error: fault,
                            request_bytes: trace.request_bytes,
                            raw_response_bytes: trace.raw_response_bytes,
                        },
                    )
                    &&& final(self).done() == old(self).done()
                },
            },
    {
        let list: Vec<ProbeStep> = probe_steps(self.command);
        let step = list[self.traces.len()];
        match step.judge(&trace.response) {
            Ok(_) => {
                self.traces.push(trace);
                Ok(())
            },
            Err(error) => Err(
                UartTang9kExchangeError::new(
                    error,
                    trace.request_bytes,
                    trace.raw_response_bytes,
                ),
            ),
        }
    }

    /// The exchanges of the run.
    pub fn into_traces(self) -> (traces: Vec<UartTang9kExchangeTrace>)
        ensures
            traces@ == self.done(),
    {
        self.traces
    }
}

/// The exchanges of the whole suite.
#[derive(Debug, Clone, PartialEq, Eq)]
pub struct Tang9kBringupSuiteTrace {
    pub device_info: UartTang9kExchangeTrace,
    pub ping: UartTang9kExchangeTrace,
    pub matmul: UartTang9kExchangeTrace,
    pub scratch_write: UartTang9kExchangeTrace,
    pub scratch_read: UartTang9kExchangeTrace,
    pub result_window_status_matmul: UartTang9kExchangeTrace,
    pub result_window_status: UartTang9kExchangeTrace,
    pub result_window: Vec<UartTang9kExchangeTrace>,
    pub result_oob_setup: Vec<UartTang9kExchangeTrace>,
    pub result_oob_rejected_read: UartTang9kExchangeTrace,
}

impl Tang9kBringupSuiteTrace {
    /// All exchanges of the suite, in the order in which they took place.
    pub open spec fn all(&self) -> Seq<UartTang9kExchangeTrace> {
        seq![
            self.device_info,
            self.ping,
            self.matmul,
            self.scratch_write,
            self.scratch_read,
            self.result_window_status_matmul,
            self.result_window_status,
        ] + self.result_window@ + self.result_oob_setup@.push(self.result_oob_rejected_read)
    }

    /// The suite from the exchanges of a finished run.
    pub fn from_run(run: ProbeRun) -> (suite: Self)
        requires
            run.well_formed(),
            run.finished(),
            run.probe() == ProbeCommand::BringupSuite,
        ensures
            suite.all() == run.done(),
            suite.result_window@.len() == 5,
            suite.result_oob_setup@.len() == 5,
    {
        let mut rest: Vec<UartTang9kExchangeTrace> = run.into_traces();
        let ghost whole = rest@;
        assert(whole.len() == 18);
        let device_info = rest.remove(0);
        let ping = rest.remove(0);
        let matmul = rest.remove(0);
        let scratch_write = rest.remove(0);
        let scratch_read = rest.remove(0);
        let result_window_status_matmul = rest.remove(0);
        let result_window_status = rest.remove(0);
        let mut oob: Vec<UartTang9kExchangeTrace> = rest.split_off(5);
        let result_oob_rejected_read = oob.remove(5);
        let suite = Tang9kBringupSuiteTrace {
            device_info,
            ping,
            matmul,
            scratch_write,
            scratch_read,
            result_window_status_matmul,
            result_window_status,
            result_window: rest,
            result_oob_setup: oob,
            result_oob_rejected_read,
        };
        assert(suite.all() =~= whole);
        suite
    }
}

/// What a sound board answers to a step.
pub open spec fn is_sound_answer(step: ProbeStep, response: WireFrame) -> bool {
    let ack = WireFrame {
        opcode: SerialOpcode::Ack,
        sequence: steps::step_frame(step).sequence,
        flags: 0,
        payload: status::status_bytes(
            SerialStatusPayload { code: SerialStatusCode::Success, detail: 0 },
        ),
    };
    &&& response.sequence == steps::step_frame(step).sequence
    &&& match step {
        ProbeStep::Ping => response.opcode == SerialOpcode::Pong || response == ack,
        ProbeStep::DeviceInfo => {
            &&& response.opcode == SerialOpcode::DeviceInfo
            &&& exists|p: DeviceInfoPayload|
                response.payload == #[trigger] command::device_info_bytes(p)
        },
        ProbeStep::Matmul { .. } => response == ack,
        ProbeStep::ScratchWrite => response == ack,
        ProbeStep::ScratchRead => {
            &&& response.opcode == SerialOpcode::ScratchValue32
            &&& response.payload == command::scratch_value_bytes(
                ScratchValue32Payload {
                    offset: steps::SCRATCH_SMOKE_OFFSET,
                    value: steps::SCRATCH_SMOKE_VALUE,
                },
            )
        },
        ProbeStep::ResultRead { word, .. } => {
            &&& response.opcode == SerialOpcode::ResultValue32
            &&& response.payload == command::result_value_bytes(
                command::smoke_word(steps::smoke_command(), word),
            )
        },
        ProbeStep::WindowStatus => {
            &&& response.opcode == SerialOpcode::ResultWindowStatus
            &&& exists|p: ResultWindowStatusPayload|
                response.payload == #[trigger] command::window_status_bytes(p)
        },
        ProbeStep::OobRead => {
            &&& response.opcode == SerialOpcode::Error
            &&& response.payload == status::status_bytes(
                SerialStatusPayload {
                    code: SerialStatusCode::HardwareFault,
                    detail: steps::oob_offset(),
                },
            )
        },
    }
}

/// A sound board passes every step: its answers are never at fault.
pub proof fn law_sound_boards_pass(step: ProbeStep, response: WireFrame)
    requires
        is_sound_answer(step, response),
    ensures
        steps::step_fault(step, response) is None,
{
    reveal(steps::step_fault);
    let frame = steps::step_frame(step);
    match step {
        ProbeStep::Ping => {
            if response.opcode != SerialOpcode::Pong {
                status::law_ack_ok_is_accepted(frame, response);
            }
        },
        ProbeStep::DeviceInfo => {
            let p = choose|p: DeviceInfoPayload|
                response.payload == #[trigger] command::device_info_bytes(p);
            command::law_device_info_roundtrip(p, p);
        },
        ProbeStep::Matmul { .. } => {
            status::law_ack_ok_is_accepted(frame, response);
        },
        ProbeStep::ScratchWrite => {
            status::law_ack_ok_is_accepted(frame, response);
        },
        ProbeStep::ScratchRead => {
            let p = ScratchValue32Payload {
                offset: steps::SCRATCH_SMOKE_OFFSET,
                value: steps::SCRATCH_SMOKE_VALUE,
            };
            command::law_scratch_value_roundtrip(p, steps::held_scratch_value(response.payload));
        },
        ProbeStep::ResultRead { word, .. } => {
            let p = command::smoke_word(steps::smoke_command(), word);
            command::law_result_value_roundtrip(p, steps::held_result_value(response.payload));
        },
        ProbeStep::WindowStatus => {
            let p = choose|p: ResultWindowStatusPayload|
                response.payload == #[trigger] command::window_status_bytes(p);
            command::law_window_status_roundtrip(p, p);
        },
        ProbeStep::OobRead => {
            let p = SerialStatusPayload {
                code: SerialStatusCode::HardwareFault,
                detail: steps::oob_offset(),
            };
            status::law_status_roundtrip(p, status::held_status(response.payload));
        },
    }
}

/// A board that hands out a word for an offset past its result window fails, and so does one
/// that acknowledges the read.
pub proof fn law_reads_past_the_window_must_be_refused(response: WireFrame)
    requires
        response.opcode != SerialOpcode::Error,
    ensures
        steps::step_fault(ProbeStep::OobRead, response) is Some,
{
    reveal(steps::step_fault);
}

} // verus!
