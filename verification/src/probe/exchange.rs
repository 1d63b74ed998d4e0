//! One command and its response over a byte stream.

use crate::serial::error;
use crate::serial::error::SerialProtocolError;
use crate::serial::frame;
use crate::serial::frame::SerialFrame;
use crate::serial::stream;
use crate::serial::stream::SerialStreamDecoder;
use crate::text::push_text;
use std::time::Duration;
use vstd::prelude::*;
use vstd::slice::slice_to_vec;

verus! {

/// The bytes of an exchange and the response that they hold.
#[derive(Debug, Clone, PartialEq, Eq)]
pub struct UartTang9kExchangeTrace {
    pub request_bytes: Vec<u8>,
    pub raw_response_bytes: Vec<u8>,
    pub response: SerialFrame,
}

/// A failed exchange: what went wrong, and the bytes so far.
#[derive(Debug, Clone, PartialEq, Eq)]
pub struct UartTang9kExchangeError {
    pub error: SerialProtocolError,
    pub request_bytes: Vec<u8>,
    pub raw_response_bytes: Vec<u8>,
}

impl UartTang9kExchangeError {
    /// A failure with the bytes that led to it.
    pub fn new(
        error: SerialProtocolError,
        request_bytes: Vec<u8>,
        raw_response_bytes: Vec<u8>,
    ) -> (e: Self)
        ensures
            e == (UartTang9kExchangeError { error, request_bytes, raw_response_bytes }),
    {
        UartTang9kExchangeError { error, request_bytes, raw_response_bytes }
    }

    /// The text of the failure.
    pub fn message(&self) -> (shown: String)
        ensures
            shown@ == error::fault_text(self.error),
    {
        self.error.message()
    }
}

/// Where a responder is reached: a port, its rate, and how long to wait for a response.
#[derive(Debug)]
pub struct UartTang9kTransport {
    port_name: String,
    baud_rate: u32,
    timeout: Duration,
}

/// What an exchange asks of its port.
#[derive(Debug, Clone, Copy, PartialEq, Eq, Structural)]
pub enum PortStep {
    Open,
    Write,
    Flush,
    Read,
}

/// The word for a step, as failures show it.
pub open spec fn port_step_name(step: PortStep) -> Seq<char> {
    match step {
        PortStep::Open => "open"@,
        PortStep::Write => "write"@,
        PortStep::Flush => "flush"@,
        PortStep::Read => "read"@,
    }
}

impl UartTang9kTransport {
    /// The name of the port.
    pub closed spec fn port(&self) -> Seq<char> {
        self.port_name@
    }

    /// The rate of the port.
    pub closed spec fn rate(&self) -> u32 {
        self.baud_rate
    }

    /// The longest wait for a response.
    pub closed spec fn patience(&self) -> Duration {
        self.timeout
    }

    /// A responder at `port_name`.
    pub fn new(port_name: &str, baud_rate: u32, timeout: Duration) -> (transport: Self)
        ensures
            transport.port() == port_name@,
            transport.rate() == baud_rate,
            transport.patience() == timeout,
    {
        UartTang9kTransport { port_name: port_name.to_string(), baud_rate, timeout }
    }

    /// The name of the port.
    pub fn port_name(&self) -> (name: &str)
        ensures
            name@ == self.port(),
    {
        self.port_name.as_str()
    }

    /// The rate of the port.
    pub fn baud_rate(&self) -> (rate: u32)
        ensures
            rate == self.rate(),
    {
        self.baud_rate
    }

    /// The longest wait for a response.
    pub fn timeout(&self) -> (timeout: Duration)
        ensures
            timeout == self.patience(),
    {
        self.timeout
    }

    /// The text of a step that the port refused with `err`.
    pub fn port_failure(&self, step: PortStep, err: &str) -> (reason: String)
        ensures
            reason@ == port_step_name(step) + " "@ + self.port() + " failed: "@ + err@,
    {
        let mut reason = match step {
            PortStep::Open => "open".to_string(),
            PortStep::Write => "write".to_string(),
            PortStep::Flush => "flush".to_string(),
            PortStep::Read => "read".to_string(),
        };
        push_text(&mut reason, " ");
        push_text(&mut reason, self.port_name.as_str());
        push_text(&mut reason, " failed: ");
        push_text(&mut reason, err);
        reason
    }
}

/// An exchange under way: the request, and what has come back so far.
#[derive(Debug)]
pub struct UartExchange {
    request: Vec<u8>,
    raw: Vec<u8>,
    decoder: SerialStreamDecoder,
}

impl UartExchange {
    /// The bytes of the request.
    pub closed spec fn sent(&self) -> Seq<u8> {
        self.request@
    }

    /// All bytes that came back.
    pub closed spec fn received(&self) -> Seq<u8> {
        self.raw@
    }

    /// The bytes that belong to no frame yet.
    pub closed spec fn pending(&self) -> Seq<u8> {
        self.decoder@
    }

    /// Starts an exchange of `frame`. A frame that cannot go on the wire is refused before
    /// anything is sent.
    pub fn begin(frame: &SerialFrame) -> (result: Result<Self, UartTang9kExchangeError>)
        ensures
            result is Ok <==> frame@.fits(),
            result matches Ok(exchange) ==> {
                &&& exchange.sent() == frame::frame_bytes(frame@)
                &&& exchange.received() == Seq::<u8>::empty()
                &&& exchange.pending() == Seq::<u8>::empty()
            },
            result matches Err(e) ==> {
                &&& e.error == (SerialProtocolError::PayloadTooLarge {
                    actual: frame.payload@.len() as usize,
                    max: frame::SERIAL_MAX_PAYLOAD_LEN,
                })
                &&& e.request_bytes@ == Seq::<u8>::empty()
                &&& e.raw_response_bytes@ == Seq::<u8>::empty()
            },
    {
        match frame.encode() {
            Ok(request) => Ok(
                UartExchange { request, raw: Vec::new(), decoder: SerialStreamDecoder::new() },
            ),
            Err(error) => Err(UartTang9kExchangeError::new(error, Vec::new(), Vec::new())),
        }
    }

    /// The bytes to send.
    pub fn request(&self) -> (bytes: &Vec<u8>)
        ensures
            bytes@ == self.sent(),
    {
        &self.request
    }

    /// Takes in bytes that came back. The first whole frame ends the exchange; a fault in the
    /// stream fails it.
    pub fn receive(&mut self, bytes: &[u8]) -> (result: Result<
        Option<UartTang9kExchangeTrace>,
        UartTang9kExchangeError,
    >)
        ensures
            final(self).sent() == old(self).sent(),
            final(self).received() == old(self).received() + bytes@,
            ({
                let seen = stream::drained(old(self).pending() + bytes@);
                &&& final(self).pending() == seen.rest
                &&& match seen.fault {
                    Some(fault) => result matches Err(e) && {
                        &&& e.error == fault
                        &&& e.request_bytes@ == final(self).sent()
                        &&& e.raw_response_bytes@ == final(self).received()
                    },
                    None => if seen.frames.len() == 0 {
                        result == Ok::<Option<UartTang9kExchangeTrace>, UartTang9kExchangeError>(
                            None,
                        )
                    } else {
                        result matches Ok(Some(trace)) && {
                            &&& trace.response@ == seen.frames[0]
                            &&& trace.request_bytes@ == final(self).sent()
                            &&& trace.raw_response_bytes@ == final(self).received()
                        }
                    },
                }
            }),
    {
        self.raw.extend_from_slice(bytes);
        assert(self.raw@ =~= old(self).raw@ + bytes@);
        let request_bytes: Vec<u8> = slice_to_vec(self.request.as_slice());
        let raw_response_bytes: Vec<u8> = slice_to_vec(self.raw.as_slice());
        match self.decoder.push_bytes(bytes) {
            Err(error) => Err(
                UartTang9kExchangeError::new(error, request_bytes, raw_response_bytes),
            ),
            Ok(frames) => {
                let mut frames: Vec<SerialFrame> = frames;
                let ghost views = stream::frame_views(frames@);
                if frames.len() == 0 {
                    return Ok(None);
                }
                let response = frames.remove(0);
                assert(response@ == views[0]);
                Ok(Some(UartTang9kExchangeTrace { request_bytes, raw_response_bytes, response }))
            },
        }
    }

    /// The failure of an exchange without a response in time.
    pub fn time_out(&self, timeout_ms: u64) -> (e: UartTang9kExchangeError)
        ensures
            e.error == (SerialProtocolError::ResponseTimeout { timeout_ms }),
            e.request_bytes@ == self.sent(),
            e.raw_response_bytes@ == self.received(),
    {
        UartTang9kExchangeError::new(
            SerialProtocolError::ResponseTimeout { timeout_ms },
            slice_to_vec(self.request.as_slice()),
            slice_to_vec(self.raw.as_slice()),
        )
    }

    /// The failure of an exchange over a broken link.
    pub fn fail(&self, reason: String) -> (e: UartTang9kExchangeError)
        ensures
            e.error == (SerialProtocolError::TransportIo { reason }),
            e.request_bytes@ == self.sent(),
            e.raw_response_bytes@ == self.received(),
    {
        UartTang9kExchangeError::new(
            SerialProtocolError::TransportIo { reason },
            slice_to_vec(self.request.as_slice()),
            slice_to_vec(self.raw.as_slice()),
        )
    }
}

/// How the response arrives in pieces does not matter: with nothing decided after the first
/// piece, the second decides as both at once would.
pub proof fn law_pieces_do_not_matter(first: Seq<u8>, second: Seq<u8>)
    requires
        stream::drained(first).fault is None,
        stream::drained(first).frames.len() == 0,
    ensures
        ({
            let later = stream::drained(stream::drained(first).rest + second);
            let whole = stream::drained(first + second);
            later.frames == whole.frames && later.fault == whole.fault
        }),
{
    stream::law_chunks_do_not_matter(first, second);
    let later = stream::drained(stream::drained(first).rest + second);
    assert(stream::drained(first).frames + later.frames =~= later.frames);
}

} // verus!
