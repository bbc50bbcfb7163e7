//! The fixed-capacity buffer that holds one UDP datagram.

use super::{BufferView, Discipline, PacketBuffer};
use crate::error::BufferError;
use vstd::prelude::*;

verus! {

/// The size of a DNS datagram over UDP, and so of the fixed buffer.
pub const PACKET_SIZE: usize = 512;

/// 512 bytes and a cursor. Nothing is remembered about labels: names read
/// from or written to it are never compressed by the buffer itself.
pub struct BytePacketBuffer {
    pub buf: [u8; 512],
    pub pos: usize,
}

impl View for BytePacketBuffer {
    type V = BufferView;

    open spec fn view(&self) -> BufferView {
        BufferView { contents: self.buf@, cursor: self.pos, labels: Map::empty() }
    }
}

impl BytePacketBuffer {
    /// A buffer of 512 zero bytes with the cursor at the start.
    pub fn new() -> (r: BytePacketBuffer)
        ensures
            r@.contents == Seq::new(512, |i: int| 0u8),
            r@.cursor == 0,
    {
        let r = BytePacketBuffer { buf: [0u8;512], pos: 0 };
        assert(r.buf@ =~= Seq::new(512, |i: int| 0u8));
        r
    }
}

impl Default for BytePacketBuffer {
    fn default() -> (r: Self)
        ensures
            r@.contents == Seq::new(512, |i: int| 0u8),
            r@.cursor == 0,
    {
        BytePacketBuffer::new()
    }
}

impl PacketBuffer for BytePacketBuffer {
    open spec fn discipline() -> Discipline {
        Discipline::Fixed
    }

    proof fn lemma_contents_fit(&self) {
    }

    fn find_label(&self, label: &str) -> (r: Option<usize>) {
        None
    }

    fn save_label(&mut self, label: &str, pos: usize) {
    }

    fn read(&mut self) -> (r: Result<u8, BufferError>) {
        if self.pos >= PACKET_SIZE {
            return Err(BufferError::EndOfBuffer);
        }
        let res: u8 = self.buf[self.pos];
        self.pos += 1;
        Ok(res)
    }

    fn get(&mut self, pos: usize) -> (r: Result<u8, BufferError>) {
        if pos >= PACKET_SIZE {
            return Err(BufferError::EndOfBuffer);
        }
        Ok(self.buf[pos])
    }

    fn get_range(&mut self, start: usize, len: usize) -> (r: Result<&[u8], BufferError>) {
        if start > PACKET_SIZE || len > PACKET_SIZE - start {
            return Err(BufferError::EndOfBuffer);
        }
        Ok(vstd::slice::slice_subrange(vstd::array::array_as_slice(&self.buf), start, start + len))
    }

    fn write(&mut self, val: u8) -> (r: Result<(), BufferError>) {
        if self.pos >= PACKET_SIZE {
            return Err(BufferError::EndOfBuffer);
        }
        self.buf[self.pos] = val;
        self.pos += 1;
        Ok(())
    }

    fn set(&mut self, pos: usize, val: u8) -> (r: Result<(), BufferError>) {
        if pos >= PACKET_SIZE {
            return Err(BufferError::EndOfBuffer);
        }
        self.buf[pos] = val;
        Ok(())
    }

    fn pos(&self) -> (r: usize) {
        self.pos
    }

    fn seek(&mut self, pos: usize) -> (r: Result<(), BufferError>) {
        self.pos = pos;
        Ok(())
    }

    fn step(&mut self, steps: usize) -> (r: Result<(), BufferError>) {
        match self.pos.checked_add(steps) {
            Some(p) => {
                self.pos = p;
                Ok(())
            },
            None => Err(BufferError::EndOfBuffer),
        }
    }
}

} // verus!
