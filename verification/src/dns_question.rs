//! The question of a message: a name and the type of record asked for.

use crate::buffer::{u16_at, u16_bytes, BufferView, BytePacketBuffer, PacketBuffer};
use crate::error::BufferError;
use crate::name::{name_text, walk_name, MAX_JUMPS};
use crate::query_type::QueryType;
use crate::wire::{laid, lay_name, lay_u16, name_wire, valid_labels, writable};
use vstd::prelude::*;
use vstd::utf8::encode_utf8;

verus! {

/// A name and the type of record that is asked for it. The class is
/// always IN.
#[derive(Debug, Clone, PartialEq, Eq)]
pub struct DnsQuestion {
    pub name: String,
    pub qtype: QueryType,
}

/// A question as a value: its name as a sequence of characters.
pub struct QuestionView {
    pub name: Seq<char>,
    pub qtype: QueryType,
}

impl View for DnsQuestion {
    type V = QuestionView;

    open spec fn view(&self) -> QuestionView {
        QuestionView { name: self.name@, qtype: self.qtype }
    }
}

/// A question on the wire: its name, its type, and the class IN.
pub open spec fn question_wire(q: QuestionView) -> Seq<u8> {
    name_wire(encode_utf8(q.name), 0) + u16_bytes(q.qtype.num()) + u16_bytes(1)
}

/// The question that stands at `pos`, and where the next thing stands. The
/// class is skipped.
pub open spec fn question_at(data: Seq<u8>, pos: int) -> Result<(QuestionView, int), BufferError> {
    match walk_name(data, pos, MAX_JUMPS as nat) {
        Err(e) => Err(e),
        Ok(n) => match u16_at(data, n.next) {
            Err(e) => Err(e),
            Ok(t) => match u16_at(data, n.next + 2) {
                Err(e) => Err(e),
                Ok(_) => Ok(
                    (
                        QuestionView { name: name_text(n.labels), qtype: QueryType::of_num(t) },
                        n.next + 4,
                    ),
                ),
            },
        },
    }
}

impl DnsQuestion {
    /// The question for `name` and `qtype`.
    pub fn new(name: String, qtype: QueryType) -> (r: DnsQuestion)
        ensures
            r.name == name,
            r.qtype == qtype,
    {
        DnsQuestion { name: name, qtype: qtype }
    }

    /// Reads the question at the cursor. The name read is appended to the
    /// name that the question has; the type is set only if all of the
    /// question could be read.
    pub fn read(&mut self, buffer: &mut BytePacketBuffer) -> (r: Result<(), BufferError>)
        ensures
            final(buffer).buf == old(buffer).buf,
            match question_at(old(buffer)@.contents, old(buffer)@.cursor as int) {
                Ok((q, next)) => r is Ok && final(self).name@ == old(self).name@ + q.name
                    && final(self).qtype == q.qtype && final(buffer)@.cursor == next,
                Err(e) => r == Err::<(), BufferError>(e) && final(self).qtype == old(self).qtype,
            },
    {
        buffer.read_qname(&mut self.name)?;
        let t: u16 = buffer.read_u16()?;
        let _ = buffer.read_u16()?;
        self.qtype = QueryType::from_num(t);
        Ok(())
    }

    /// Writes the question behind the bytes `done` that were laid down in
    /// the buffer from `m` on.
    pub(crate) fn lay(
        &self,
        buffer: &mut BytePacketBuffer,
        Ghost(m): Ghost<BufferView>,
        Ghost(done): Ghost<Seq<u8>>,
    ) -> (r: Result<(), BufferError>)
        requires
            old(buffer)@ == laid(m, done),
            m.cursor + done.len() <= m.contents.len() == 512,
            valid_labels(encode_utf8(self.name@), 0),
        ensures
            m.cursor + done.len() + question_wire(self@).len() <= 512 ==> r is Ok
                && final(buffer)@ == laid(m, done + question_wire(self@)),
            m.cursor + done.len() + question_wire(self@).len() > 512 ==> r == Err::<
                (),
                BufferError,
            >(BufferError::EndOfBuffer),
    {
        let ghost name = name_wire(encode_utf8(self.name@), 0);
        lay_name(buffer, self.name.as_str(), Ghost(m), Ghost(done))?;
        lay_u16(buffer, self.qtype.to_num(), Ghost(m), Ghost(done + name))?;
        lay_u16(
            buffer,
            1,
            Ghost(m),
            Ghost(done + name + u16_bytes(self.qtype.num())),
        )?;
        assert(done + name + u16_bytes(self.qtype.num()) + u16_bytes(1) =~= done + question_wire(
            self@,
        ));
        Ok(())
    }

    /// Writes the question at the cursor. A name with a label of more than
    /// 63 bytes is refused before anything is written.
    pub fn write(&self, buffer: &mut BytePacketBuffer) -> (r: Result<(), BufferError>)
        ensures
            !valid_labels(encode_utf8(self.name@), 0) ==> r == Err::<(), BufferError>(
                BufferError::InvalidLabelLength,
            ) && final(buffer)@ == old(buffer)@,
            valid_labels(encode_utf8(self.name@), 0) && old(buffer)@.cursor + question_wire(
                self@,
            ).len() <= 512 ==> r is Ok && final(buffer)@ == laid(old(buffer)@, question_wire(self@)),
            valid_labels(encode_utf8(self.name@), 0) && old(buffer)@.cursor + question_wire(
                self@,
            ).len() > 512 ==> r == Err::<(), BufferError>(BufferError::EndOfBuffer),
    {
        if !writable(self.name.as_str()) {
            return Err(BufferError::InvalidLabelLength);
        }
        if buffer.pos() > 512 {
            return Err(BufferError::EndOfBuffer);
        }
        let ghost m = buffer@;
        assert(buffer@.contents =~= laid(m, Seq::empty()).contents);
        assert(Seq::<u8>::empty() + question_wire(self@) =~= question_wire(self@));
        self.lay(buffer, Ghost(m), Ghost(Seq::empty()))
    }
}

} // verus!
