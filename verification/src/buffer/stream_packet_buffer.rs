//! The buffer that reads its bytes from a source as they are asked for.

use super::{BufferView, Discipline, PacketBuffer};
use crate::error::BufferError;
use vstd::prelude::*;

verus! {

/// Where a streamed buffer gets its bytes: anything that can hand out one
/// byte at a time until it runs dry or fails.
pub trait ByteSource {
    /// The next byte, or `None` when there is none to be had.
    fn next_byte(&mut self) -> Option<u8>;
}

/// The bytes pulled from the source so far, and a cursor into them. Reading
/// at or past the end pulls as many bytes as the read needs and no more; a
/// source that cannot deliver them makes the read fail with `EndOfBuffer`.
/// The buffer only reads: writes are refused and nothing is remembered.
pub struct StreamPacketBuffer<'a, T: ByteSource> {
    pub stream: &'a mut T,
    pub buffer: Vec<u8>,
    pub pos: usize,
}

impl<'a, T: ByteSource> View for StreamPacketBuffer<'a, T> {
    type V = BufferView;

    open spec fn view(&self) -> BufferView {
        BufferView { contents: self.buffer@, cursor: self.pos, labels: Map::empty() }
    }
}

impl<'a, T: ByteSource> StreamPacketBuffer<'a, T> {
    /// A buffer over `stream` that has pulled nothing yet.
    pub fn new(stream: &'a mut T) -> (r: StreamPacketBuffer<'a, T>)
        ensures
            r@.contents == Seq::<u8>::empty(),
            r@.cursor == 0,
    {
        StreamPacketBuffer { stream, buffer: Vec::new(), pos: 0 }
    }

    /// Pulls bytes until the buffer holds `upto` of them. Says whether it
    /// does; it holds no more than `upto` unless it did before.
    fn fill(&mut self, upto: usize) -> (r: bool)
        ensures
            old(self).buffer@.is_prefix_of(final(self).buffer@),
            final(self).pos == old(self).pos,
            r == (upto <= final(self).buffer@.len()),
            final(self).buffer@.len() <= old(self).buffer@.len() || final(self).buffer@.len()
                <= upto,
    {
        while self.buffer.len() < upto
            invariant
                old(self).buffer@.is_prefix_of(self.buffer@),
                self.pos == old(self).pos,
                self.buffer@.len() <= old(self).buffer@.len() || self.buffer@.len() <= upto,
            decreases upto - self.buffer@.len(),
        {
            match self.stream.next_byte() {
                Some(b) => {
                    self.buffer.push(b);
                },
                None => {
                    return false;
                },
            }
        }
        true
    }
}

impl<'a, T: ByteSource> PacketBuffer for StreamPacketBuffer<'a, T> {
    open spec fn discipline() -> Discipline {
        Discipline::Streamed
    }

    proof fn lemma_contents_fit(&self) {
        vstd::std_specs::vec::axiom_spec_len(&self.buffer);
    }

    fn find_label(&self, label: &str) -> (r: Option<usize>) {
        None
    }

    fn save_label(&mut self, label: &str, pos: usize) {
    }

    fn read(&mut self) -> (r: Result<u8, BufferError>) {
        if self.pos >= self.buffer.len() && (self.pos == usize::MAX || !self.fill(self.pos + 1)) {
            return Err(BufferError::EndOfBuffer);
        }
        let res: u8 = self.buffer[self.pos];
        self.pos += 1;
        Ok(res)
    }

    fn get(&mut self, pos: usize) -> (r: Result<u8, BufferError>) {
        if pos >= self.buffer.len() && (pos == usize::MAX || !self.fill(pos + 1)) {
            return Err(BufferError::EndOfBuffer);
        }
        Ok(self.buffer[pos])
    }

    fn get_range(&mut self, start: usize, len: usize) -> (r: Result<&[u8], BufferError>) {
        let held: usize = self.buffer.len();
        match start.checked_add(len) {
            Some(end) => {
                if end > held && !self.fill(end) {
                    return Err(BufferError::EndOfBuffer);
                }
                Ok(vstd::slice::slice_subrange(self.buffer.as_slice(), start, end))
            },
            None => Err(BufferError::EndOfBuffer),
        }
    }

    fn write(&mut self, val: u8) -> (r: Result<(), BufferError>) {
        Err(BufferError::ReadOnly)
    }

    fn set(&mut self, pos: usize, val: u8) -> (r: Result<(), BufferError>) {
        Err(BufferError::ReadOnly)
    }

    fn pos(&self) -> (r: usize) {
        self.pos
    }

    fn seek(&mut self, pos: usize) -> (r: Result<(), BufferError>) {
        self.pos = pos;
        Ok(())
    }

    fn step(&mut self, steps: usize) -> (r: Result<(), BufferError>) {
        match self.pos.checked_add(steps) {
            Some(p) => {
                self.pos = p;
                Ok(())
            },
            None => Err(BufferError::EndOfBuffer),
        }
    }
}

} // verus!
