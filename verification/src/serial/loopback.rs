//! A transport without a board: it reads a frame and sends it back.

use super::error::SerialProtocolError;
use super::frame;
use super::frame::SerialFrame;
use vstd::prelude::*;

verus! {

/// Counts the frames that went through it.
#[derive(Debug)]
pub struct LoopbackSerialTransport {
    frames_seen: usize,
}

impl LoopbackSerialTransport {
    /// How many frames went through so far.
    pub closed spec fn seen(self) -> nat {
        self.frames_seen as nat
    }

    /// A transport that has seen nothing.
    pub fn new() -> (transport: Self)
        ensures
            transport.seen() == 0,
    {
        LoopbackSerialTransport { frames_seen: 0 }
    }

    /// How many frames went through so far.
    pub fn frames_seen(&self) -> (count: usize)
        ensures
            count == self.seen(),
    {
        self.frames_seen
    }

    /// Reads one frame strictly and sends it back. Whatever is accepted comes back byte for
    /// byte, and is counted.
    pub fn exchange(&mut self, encoded: &[u8]) -> (result: Result<Vec<u8>, SerialProtocolError>)
        requires
            old(self).seen() < usize::MAX,
        ensures
            result is Ok <==> frame::first_fault(encoded@) is None,
            result matches Ok(echo) ==> {
                &&& echo@ == encoded@
                &&& final(self).seen() == old(self).seen() + 1
            },
            result matches Err(e) ==> {
                &&& frame::first_fault(encoded@) == Some(e)
                &&& final(self).seen() == old(self).seen()
            },
    {
        let frame = SerialFrame::decode(encoded)?;
        self.frames_seen = self.frames_seen + 1;
        frame.encode()
    }
}

impl Default for LoopbackSerialTransport {
    fn default() -> (transport: Self)
        ensures
            transport.seen() == 0,
    {
        Self::new()
    }
}

} // verus!
