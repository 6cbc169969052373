//! The byte channel abstraction: a blocking, timeout-bounded duplex byte
//! stream. The relay state machine is written against this trait so it can
//! be driven by a real serial port (outside this crate) or by the scripted
//! board double below.

use vstd::prelude::*;

verus! {

/// A failure at the transport boundary, propagated unchanged to the caller
/// of the relay operation that triggered it.
#[derive(Debug, Clone, Copy, PartialEq, Eq, Structural)]
pub enum ChannelError {
    /// The write did not complete.
    WriteFailed,
    /// No response arrived within the channel's read timeout.
    ReadTimeout,
    /// The input buffer could not be discarded.
    ClearFailed,
}

/// A blocking, timeout-bounded duplex byte stream.
///
/// Implementations live outside the verified core (a real serial port) or
/// beside it ([`ScriptedChannel`]). The trait promises nothing about the
/// bytes a channel returns: every caller in this crate must cope with any
/// outcome, and is verified to.
pub trait ByteChannel {
    /// Send `data` to the peer; `Ok` carries the number of bytes written.
    fn write_data(&mut self, data: &[u8]) -> Result<usize, ChannelError>;

    /// Await a response, replacing `buf` with whatever arrived before the
    /// read timeout.
    fn read_data(&mut self, buf: &mut Vec<u8>) -> Result<usize, ChannelError>;

    /// Discard any bytes the peer appended beyond what was read.
    fn clear_input_buffer(&mut self) -> Result<(), ChannelError>;
}

/// A simulated interface board: replays a fixed script of read outcomes
/// (`None` stands for a read timeout) and records every frame written to
/// it, so the state machine can be exercised without hardware.
pub struct ScriptedChannel {
    /// Scripted read outcomes, consumed front to back.
    pub reads: Vec<Option<Vec<u8>>>,
    /// Index of the next scripted outcome.
    pub cursor: usize,
    /// Every frame written to the channel, oldest first.
    pub writes: Vec<Vec<u8>>,
    /// How many more writes succeed (`usize::MAX`: no limit).
    pub write_budget: usize,
}

impl ScriptedChannel {
    /// A channel that will answer successive reads with `reads`; once the
    /// script is exhausted every further read times out. Writes always
    /// succeed.
    pub fn new(reads: Vec<Option<Vec<u8>>>) -> (c: Self)
        ensures
            c.reads == reads,
            c.cursor == 0usize,
            c.writes@.len() == 0,
            c.write_budget == usize::MAX,
    {
        ScriptedChannel { reads, cursor: 0, writes: Vec::new(), write_budget: usize::MAX }
    }

    /// Like [`ScriptedChannel::new`], but only the next `budget` writes
    /// succeed; later ones fail — a board that stops listening.
    pub fn with_write_budget(reads: Vec<Option<Vec<u8>>>, budget: usize) -> (c: Self)
        ensures
            c.reads == reads,
            c.cursor == 0usize,
            c.writes@.len() == 0,
            c.write_budget == budget,
    {
        ScriptedChannel { reads, cursor: 0, writes: Vec::new(), write_budget: budget }
    }

    /// The frames written so far, oldest first.
    pub fn written(&self) -> (w: &Vec<Vec<u8>>)
        ensures
            w == &self.writes,
    {
        &self.writes
    }
}

impl ByteChannel for ScriptedChannel {
    fn write_data(&mut self, data: &[u8]) -> Result<usize, ChannelError> {
        if self.write_budget == 0 {
            return Err(ChannelError::WriteFailed);
        }
        if self.write_budget != usize::MAX {
            self.write_budget = self.write_budget - 1;
        }
        let copy = vstd::slice::slice_to_vec(data);
        self.writes.push(copy);
        Ok(data.len())
    }

    fn read_data(&mut self, buf: &mut Vec<u8>) -> Result<usize, ChannelError> {
        if self.cursor < self.reads.len() {
            let idx = self.cursor;
            self.cursor = idx + 1;
            match &self.reads[idx] {
                Some(bytes) => {
                    *buf = bytes.clone();
                    Ok(buf.len())
                },
                None => Err(ChannelError::ReadTimeout),
            }
        } else {
            Err(ChannelError::ReadTimeout)
        }
    }

    fn clear_input_buffer(&mut self) -> Result<(), ChannelError> {
        Ok(())
    }
}

} // verus!
