//! The probes of a Tang9k board, each a list of commands with the answers they must get.

use crate::serial::command;
use crate::serial::command::{
    validate_answer, validate_result_value_response, validate_scratch_value_response,
    DeviceInfoPayload, DeviceInfoReadCommand, Matmul32x32Command, ResultRead32Command,
    ResultValue32Payload, ResultWindowStatusPayload, ResultWindowStatusReadCommand,
    ScratchRead32Command, ScratchValue32Payload, ScratchWrite32Command,
    MATMUL32X32_FLAG_CLEAR_OUTPUT, MATMUL32X32_FLAG_LAST_K_TILE,
    TANG9K_RESULT_WINDOW_WORD_STRIDE_BYTES,
};
use crate::serial::error::SerialProtocolError;
use crate::serial::frame::{SerialFrame, WireFrame};
use crate::serial::opcode::{SerialOpcode, SerialStatusCode};
use crate::serial::status;
use crate::serial::status::validate_status_response;
use vstd::prelude::*;

verus! {

/// The scratch word that a probe writes and reads back.
pub const SCRATCH_SMOKE_OFFSET: u32 = 0x44;

/// What a probe writes to the scratch word.
pub const SCRATCH_SMOKE_VALUE: u32 = 0x1122_3344;

/// What a probe asks of the board.
#[derive(Debug, Clone, Copy, PartialEq, Eq, Structural)]
pub enum ProbeCommand {
    Ping,
    DeviceInfo,
    BringupSuite,
    MatmulSmoke,
    ResultSmoke,
    ResultWindowSmoke,
    ResultWindowStatusSmoke,
    ResultOobSmoke,
    ScratchSmoke,
}

/// The name of a probe.
pub open spec fn command_name(command: ProbeCommand) -> Seq<char> {
    match command {
        ProbeCommand::Ping => "Ping"@,
        ProbeCommand::DeviceInfo => "DeviceInfo"@,
        ProbeCommand::BringupSuite => "BringupSuite"@,
        ProbeCommand::MatmulSmoke => "MatmulSmoke"@,
        ProbeCommand::ResultSmoke => "ResultSmoke"@,
        ProbeCommand::ResultWindowSmoke => "ResultWindowSmoke"@,
        ProbeCommand::ResultWindowStatusSmoke => "ResultWindowStatusSmoke"@,
        ProbeCommand::ResultOobSmoke => "ResultOobSmoke"@,
        ProbeCommand::ScratchSmoke => "ScratchSmoke"@,
    }
}

impl ProbeCommand {
    /// The name of this probe.
    pub fn name(self) -> (text: &'static str)
        ensures
            text@ == command_name(self),
    {
        match self {
            ProbeCommand::Ping => "Ping",
            ProbeCommand::DeviceInfo => "DeviceInfo",
            ProbeCommand::BringupSuite => "BringupSuite",
            ProbeCommand::MatmulSmoke => "MatmulSmoke",
            ProbeCommand::ResultSmoke => "ResultSmoke",
            ProbeCommand::ResultWindowSmoke => "ResultWindowSmoke",
            ProbeCommand::ResultWindowStatusSmoke => "ResultWindowStatusSmoke",
            ProbeCommand::ResultOobSmoke => "ResultOobSmoke",
            ProbeCommand::ScratchSmoke => "ScratchSmoke",
        }
    }
}

/// One command of a probe.
#[derive(Debug, Clone, Copy, PartialEq, Eq, Structural)]
pub enum ProbeStep {
    /// A `Ping` with a short greeting.
    Ping,
    /// Asks the board who it is.
    DeviceInfo,
    /// The smallest matrix command.
    Matmul { sequence: u32 },
    /// Writes the scratch word.
    ScratchWrite,
    /// Reads the scratch word back.
    ScratchRead,
    /// Reads a word of the result window.
    ResultRead { sequence: u32, word: u32 },
    /// Asks for the state of the result window.
    WindowStatus,
    /// Reads just past the end of the result window, which must be refused.
    OobRead,
}

/// The matrix command that probes send: one tile, the operands and the output one behind the
/// other.
pub open spec fn smoke_command() -> Matmul32x32Command {
    Matmul32x32Command {
        tile_id: 0,
        a_offset: 0,
        b_offset: 4096,
        out_offset: 8192,
        flags: MATMUL32X32_FLAG_CLEAR_OUTPUT | MATMUL32X32_FLAG_LAST_K_TILE,
    }
}

/// The frame of the matrix command.
pub open spec fn smoke_frame(sequence: u32) -> WireFrame {
    WireFrame {
        opcode: SerialOpcode::Matmul32x32,
        sequence,
        flags: 0,
        payload: command::matmul_bytes(smoke_command()),
    }
}

/// The offset just past the last word of the result window.
pub open spec fn oob_offset() -> u32 {
    command::smoke_word(smoke_command(), 3).offset.wrapping_add(
        TANG9K_RESULT_WINDOW_WORD_STRIDE_BYTES,
    )
}

/// The greeting of a ping, `sptorch-ping` in ASCII.
pub open spec fn greeting() -> Seq<u8> {
    seq![115u8, 112, 116, 111, 114, 99, 104, 45, 112, 105, 110, 103]
}

/// The frame of a read of the result window.
pub open spec fn result_read_frame(offset: u32, sequence: u32) -> WireFrame {
    WireFrame {
        opcode: SerialOpcode::ResultRead32,
        sequence,
        flags: 0,
        payload: command::result_read_bytes(ResultRead32Command { offset }),
    }
}

/// The frame that a step sends.
pub open spec fn step_frame(step: ProbeStep) -> WireFrame {
    match step {
        ProbeStep::Ping => WireFrame {
            opcode: SerialOpcode::Ping,
            sequence: 0,
            flags: 0,
            payload: greeting(),
        },
        ProbeStep::DeviceInfo => WireFrame {
            opcode: SerialOpcode::DeviceInfoRead,
            sequence: 11,
            flags: 0,
            payload: seq![],
        },
        ProbeStep::Matmul { sequence } => smoke_frame(sequence),
        ProbeStep::ScratchWrite => WireFrame {
            opcode: SerialOpcode::ScratchWrite32,
            sequence: 2,
            flags: 0,
            payload: command::scratch_write_bytes(
                ScratchWrite32Command {
                    offset: SCRATCH_SMOKE_OFFSET,
                    value: SCRATCH_SMOKE_VALUE,
                },
            ),
        },
        ProbeStep::ScratchRead => WireFrame {
            opcode: SerialOpcode::ScratchRead32,
            sequence: 3,
            flags: 0,
            payload: command::scratch_read_bytes(
                ScratchRead32Command { offset: SCRATCH_SMOKE_OFFSET },
            ),
        },
        ProbeStep::ResultRead { sequence, word } => result_read_frame(
            command::smoke_word(smoke_command(), word).offset,
            sequence,
        ),
        ProbeStep::WindowStatus => WireFrame {
            opcode: SerialOpcode::ResultWindowStatusRead,
            sequence: 10,
            flags: 0,
            payload: seq![],
        },
        ProbeStep::OobRead => result_read_frame(oob_offset(), 9),
    }
}

/// The scratch value that a payload holds.
pub open spec fn held_scratch_value(s: Seq<u8>) -> ScratchValue32Payload {
    choose|p: ScratchValue32Payload| s == #[trigger] command::scratch_value_bytes(p)
}

/// The result value that a payload holds.
pub open spec fn held_result_value(s: Seq<u8>) -> ResultValue32Payload {
    choose|p: ResultValue32Payload| s == #[trigger] command::result_value_bytes(p)
}

/// What is wrong with the answer to a read of the scratch word.
pub open spec fn scratch_read_fault(command: WireFrame, response: WireFrame) -> Option<
    SerialProtocolError,
> {
    let held = held_scratch_value(response.payload);
    match command::answer_fault(command, response, SerialOpcode::ScratchValue32) {
        Some(fault) => Some(fault),
        None => if response.payload.len() != 8 {
            Some(
                SerialProtocolError::InvalidScratchPayloadLen {
                    opcode: SerialOpcode::ScratchValue32,
                    actual: response.payload.len() as usize,
                    expected: 8,
                },
            )
        } else if held.offset != SCRATCH_SMOKE_OFFSET || held.value != SCRATCH_SMOKE_VALUE {
            Some(
                SerialProtocolError::ScratchValueMismatch {
                    expected_offset: SCRATCH_SMOKE_OFFSET,
                    expected_value: SCRATCH_SMOKE_VALUE,
                    actual_offset: held.offset,
                    actual_value: held.value,
                },
            )
        } else {
            None
        },
    }
}

/// What is wrong with the answer to a read of a result word that must be `expected`.
pub open spec fn result_read_fault(
    command: WireFrame,
    response: WireFrame,
    expected: ResultValue32Payload,
) -> Option<SerialProtocolError> {
    let held = held_result_value(response.payload);
    match command::answer_fault(command, response, SerialOpcode::ResultValue32) {
        Some(fault) => Some(fault),
        None => if response.payload.len() != 8 {
            Some(
                SerialProtocolError::InvalidReadbackPayloadLen {
                    opcode: SerialOpcode::ResultValue32,
                    actual: response.payload.len() as usize,
                    expected: 8,
                },
            )
        } else if held != expected {
            Some(
                SerialProtocolError::ResultValueMismatch {
                    expected_offset: expected.offset,
                    expected_value: expected.value,
                    actual_offset: held.offset,
                    actual_value: held.value,
                },
            )
        } else {
            None
        },
    }
}

/// The refusal that a read past the end of the result window must get.
pub open spec fn oob_refusal() -> SerialProtocolError {
    SerialProtocolError::CommandRejected {
        command_opcode: SerialOpcode::ResultRead32,
        response_opcode: SerialOpcode::Error,
        sequence: 9,
        status: SerialStatusCode::HardwareFault,
        detail: oob_offset(),
    }
}

/// What is wrong with the answer to a step, if anything.
#[verifier::opaque]
pub open spec fn step_fault(step: ProbeStep, response: WireFrame) -> Option<SerialProtocolError> {
    let command = step_frame(step);
    match step {
        ProbeStep::Ping => if response.sequence != command.sequence {
            Some(
                SerialProtocolError::SequenceMismatch {
                    expected: command.sequence,
                    actual: response.sequence,
                },
            )
        } else if response.opcode == SerialOpcode::Pong {
            None
        } else if response.opcode == SerialOpcode::Ack {
            status::rejection(command, response)
        } else {
            Some(SerialProtocolError::UnexpectedResponseOpcode { actual: response.opcode })
        },
        ProbeStep::DeviceInfo => match command::answer_fault(
            command,
            response,
            SerialOpcode::DeviceInfo,
        ) {
            Some(fault) => Some(fault),
            None => command::device_info_fault(response.payload),
        },
        ProbeStep::Matmul { .. } => status::rejection(command, response),
        ProbeStep::ScratchWrite => status::rejection(command, response),
        ProbeStep::ScratchRead => scratch_read_fault(command, response),
        ProbeStep::ResultRead { word, .. } => result_read_fault(
            command,
            response,
            command::smoke_word(smoke_command(), word),
        ),
        ProbeStep::WindowStatus => match command::answer_fault(
            command,
            response,
            SerialOpcode::ResultWindowStatus,
        ) {
            Some(fault) => Some(fault),
            None => command::window_status_fault(response.payload),
        },
        ProbeStep::OobRead => match status::rejection(command, response) {
            None => Some(SerialProtocolError::UnexpectedResponseOpcode { actual: response.opcode }),
            Some(refusal) => if refusal == oob_refusal() {
                None
            } else {
                Some(refusal)
            },
        },
    }
}

/// The frame of the smallest matrix command, which probes send.
pub fn tang9k_matmul_smoke_frame(sequence: u32) -> (frame: SerialFrame)
    ensures
        frame@ == smoke_frame(sequence),
        frame@.fits(),
{
    smoke_matmul().into_frame(sequence)
}

/// The matrix command that probes send.
pub fn smoke_matmul() -> (c: Matmul32x32Command)
    ensures
        c == smoke_command(),
{
    Matmul32x32Command {
        tile_id: 0,
        a_offset: 0,
        b_offset: 4096,
        out_offset: 8192,
        flags: MATMUL32X32_FLAG_CLEAR_OUTPUT | MATMUL32X32_FLAG_LAST_K_TILE,
    }
}

/// The offset just past the last word of the result window.
pub fn expected_oob_offset() -> (offset: u32)
    ensures
        offset == oob_offset(),
{
    smoke_matmul().smoke_result_word(3).offset.wrapping_add(TANG9K_RESULT_WINDOW_WORD_STRIDE_BYTES)
}

impl ProbeStep {
    /// The frame to send.
    pub fn frame(&self) -> (frame: SerialFrame)
        ensures
            frame@ == step_frame(*self),
            frame@.fits(),
    {
        match *self {
            ProbeStep::Ping => {
                let greeting: Vec<u8> = vec![
                    115, 112, 116, 111, 114, 99, 104, 45, 112, 105, 110, 103,
                ];
                assert(greeting@ =~= self::greeting());
                SerialFrame::new(SerialOpcode::Ping, 0, greeting)
            },
            ProbeStep::DeviceInfo => DeviceInfoReadCommand.into_frame(11),
            ProbeStep::Matmul { sequence } => tang9k_matmul_smoke_frame(sequence),
            ProbeStep::ScratchWrite => ScratchWrite32Command::new(
                SCRATCH_SMOKE_OFFSET,
                SCRATCH_SMOKE_VALUE,
            ).into_frame(2),
            ProbeStep::ScratchRead => ScratchRead32Command::new(SCRATCH_SMOKE_OFFSET).into_frame(
                3,
            ),
            ProbeStep::ResultRead { sequence, word } => ResultRead32Command::new(
                smoke_matmul().smoke_result_word(word).offset,
            ).into_frame(sequence),
            ProbeStep::WindowStatus => ResultWindowStatusReadCommand.into_frame(10),
            ProbeStep::OobRead => ResultRead32Command::new(expected_oob_offset()).into_frame(9),
        }
    }

    /// Judges the answer.
    pub fn judge(&self, response: &SerialFrame) -> (result: Result<(), SerialProtocolError>)
        ensures
            result is Ok <==> step_fault(*self, response@) is None,
            result matches Err(e) ==> step_fault(*self, response@) == Some(e),
    {
        proof {
            reveal(step_fault);
        }
        let command = self.frame();
        match *self {
            ProbeStep::Ping => {
                if response.sequence != command.sequence {
                    return Err(
                        SerialProtocolError::SequenceMismatch {
                            expected: command.sequence,
                            actual: response.sequence,
                        },
                    );
                }
                match response.opcode {
                    SerialOpcode::Pong => Ok(()),
                    SerialOpcode::Ack => accepted(&command, response),
                    actual => Err(SerialProtocolError::UnexpectedResponseOpcode { actual }),
                }
            },
            ProbeStep::DeviceInfo => {
                validate_answer(&command, response, SerialOpcode::DeviceInfo)?;
                match DeviceInfoPayload::decode_payload(response.payload.as_slice()) {
                    Ok(_) => Ok(()),
                    Err(error) => Err(error),
                }
            },
            ProbeStep::Matmul { .. } => accepted(&command, response),
            ProbeStep::ScratchWrite => accepted(&command, response),
            ProbeStep::ScratchRead => {
                let value = validate_scratch_value_response(&command, response)?;
                proof {
                    command::law_scratch_value_roundtrip(
                        value,
                        held_scratch_value(response@.payload),
                    );
                }
                if value.offset != SCRATCH_SMOKE_OFFSET || value.value != SCRATCH_SMOKE_VALUE {
                    return Err(
                        SerialProtocolError::ScratchValueMismatch {
                            expected_offset: SCRATCH_SMOKE_OFFSET,
                            expected_value: SCRATCH_SMOKE_VALUE,
                            actual_offset: value.offset,
                            actual_value: value.value,
                        },
                    );
                }
                Ok(())
            },
            ProbeStep::ResultRead { word, .. } => {
                let expected = smoke_matmul().smoke_result_word(word);
                let value = validate_result_value_response(&command, response)?;
                proof {
                    command::law_result_value_roundtrip(
                        value,
                        held_result_value(response@.payload),
                    );
                }
                if value != expected {
                    return Err(
                        SerialProtocolError::ResultValueMismatch {
                            expected_offset: expected.offset,
                            expected_value: expected.value,
                            actual_offset: value.offset,
                            actual_value: value.value,
                        },
                    );
                }
                Ok(())
            },
            ProbeStep::WindowStatus => {
                validate_answer(&command, response, SerialOpcode::ResultWindowStatus)?;
                match ResultWindowStatusPayload::decode_payload(response.payload.as_slice()) {
                    Ok(_) => Ok(()),
                    Err(error) => Err(error),
                }
            },
            ProbeStep::OobRead => {
                match validate_status_response(&command, response) {
                    Ok(_) => Err(
                        SerialProtocolError::UnexpectedResponseOpcode { actual: response.opcode },
                    ),
                    Err(
                        SerialProtocolError::CommandRejected {
                            command_opcode: SerialOpcode::ResultRead32,
                            response_opcode: SerialOpcode::Error,
                            sequence: 9,
                            status: SerialStatusCode::HardwareFault,
                            detail,
                        },
                    ) if detail == expected_oob_offset() => Ok(()),
                    Err(error) => Err(error),
                }
            },
        }
    }
}

/// Judges a response that must be an `Ack` of success.
fn accepted(command: &SerialFrame, response: &SerialFrame) -> (result: Result<
    (),
    SerialProtocolError,
>)
    ensures
        result is Ok <==> status::rejection(command@, response@) is None,
        result matches Err(e) ==> status::rejection(command@, response@) == Some(e),
{
    match validate_status_response(command, response) {
        Ok(_) => Ok(()),
        Err(error) => Err(error),
    }
}

} // verus!
