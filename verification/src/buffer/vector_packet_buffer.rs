//! The growable buffer in which outgoing messages are built.

use super::label_index::LabelIndex;
use super::{BufferView, Discipline, PacketBuffer};
use crate::error::BufferError;
use vstd::prelude::*;

verus! {

/// A vector of bytes, a cursor, and the offsets of the name suffixes written
/// so far. Writes append at the end, whatever the cursor; after a `seek` the
/// two part ways until the cursor is moved back to the end.
pub struct VectorPacketBuffer {
    pub buffer: Vec<u8>,
    pub pos: usize,
    pub label_lookup: LabelIndex,
}

impl View for VectorPacketBuffer {
    type V = BufferView;

    open spec fn view(&self) -> BufferView {
        BufferView { contents: self.buffer@, cursor: self.pos, labels: self.label_lookup@ }
    }
}

impl VectorPacketBuffer {
    /// An empty buffer that remembers nothing yet.
    pub fn new() -> (r: VectorPacketBuffer)
        ensures
            r@.contents == Seq::<u8>::empty(),
            r@.cursor == 0,
            r@.labels == Map::<Seq<u8>, usize>::empty(),
    {
        VectorPacketBuffer { buffer: Vec::new(), pos: 0, label_lookup: LabelIndex::new() }
    }
}

impl Default for VectorPacketBuffer {
    fn default() -> (r: Self)
        ensures
            r@.contents == Seq::<u8>::empty(),
            r@.cursor == 0,
            r@.labels == Map::<Seq<u8>, usize>::empty(),
    {
        VectorPacketBuffer::new()
    }
}

impl PacketBuffer for VectorPacketBuffer {
    open spec fn discipline() -> Discipline {
        Discipline::Growable
    }

    proof fn lemma_contents_fit(&self) {
        vstd::std_specs::vec::axiom_spec_len(&self.buffer);
    }

    fn find_label(&self, label: &str) -> (r: Option<usize>) {
        self.label_lookup.get(label.as_bytes())
    }

    fn save_label(&mut self, label: &str, pos: usize) {
        self.label_lookup.insert(label.as_bytes(), pos);
    }

    fn read(&mut self) -> (r: Result<u8, BufferError>) {
        if self.pos >= self.buffer.len() {
            return Err(BufferError::EndOfBuffer);
        }
        let res: u8 = self.buffer[self.pos];
        self.pos += 1;
        Ok(res)
    }

    fn get(&mut self, pos: usize) -> (r: Result<u8, BufferError>) {
        if pos >= self.buffer.len() {
            return Err(BufferError::EndOfBuffer);
        }
        Ok(self.buffer[pos])
    }

    fn get_range(&mut self, start: usize, len: usize) -> (r: Result<&[u8], BufferError>) {
        if start > self.buffer.len() || len > self.buffer.len() - start {
            return Err(BufferError::EndOfBuffer);
        }
        Ok(vstd::slice::slice_subrange(self.buffer.as_slice(), start, start + len))
    }

    fn write(&mut self, val: u8) -> (r: Result<(), BufferError>) {
        if self.pos == usize::MAX {
            return Err(BufferError::EndOfBuffer);
        }
        self.buffer.push(val);
        self.pos += 1;
        Ok(())
    }

    fn set(&mut self, pos: usize, val: u8) -> (r: Result<(), BufferError>) {
        if pos >= self.buffer.len() {
            return Err(BufferError::EndOfBuffer);
        }
        self.buffer.set(pos, val);
        Ok(())
    }

    fn pos(&self) -> (r: usize) {
        self.pos
    }

    fn seek(&mut self, pos: usize) -> (r: Result<(), BufferError>) {
        self.pos = pos;
        Ok(())
    }

    fn step(&mut self, steps: usize) -> (r: Result<(), BufferError>) {
        match self.pos.checked_add(steps) {
            Some(p) => {
                self.pos = p;
                Ok(())
            },
            None => Err(BufferError::EndOfBuffer),
        }
    }
}

} // verus!
