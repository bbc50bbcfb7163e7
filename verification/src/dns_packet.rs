//! A whole message: a header and its four sections.

use crate::buffer::{BufferView, BytePacketBuffer, PacketBuffer};
use crate::dns_header::{blank_header, header_at, header_wire, DnsHeader, HEADER_SIZE};
use crate::dns_question::{question_at, question_wire, DnsQuestion, QuestionView};
use crate::dns_record::{record_at, record_wire, record_writable, DnsRecord, RecordView};
use crate::error::BufferError;
use crate::query_type::QueryType;
use crate::wire::{laid, valid_labels, writable};
use vstd::prelude::*;
use vstd::utf8::encode_utf8;

verus! {

/// A DNS message.
#[derive(Clone, Debug)]
pub struct DnsPacket {
    pub header: DnsHeader,
    pub questions: Vec<DnsQuestion>,
    pub answers: Vec<DnsRecord>,
    pub authorities: Vec<DnsRecord>,
    pub resources: Vec<DnsRecord>,
}

/// A message as a value.
pub struct PacketView {
    pub header: DnsHeader,
    pub questions: Seq<QuestionView>,
    pub answers: Seq<RecordView>,
    pub authorities: Seq<RecordView>,
    pub resources: Seq<RecordView>,
}

/// The questions of a vector as values.
pub open spec fn question_views(questions: Seq<DnsQuestion>) -> Seq<QuestionView> {
    Seq::new(questions.len(), |i: int| questions[i]@)
}

/// The records of a vector as values.
pub open spec fn record_views(records: Seq<DnsRecord>) -> Seq<RecordView> {
    Seq::new(records.len(), |i: int| records[i]@)
}

impl View for DnsPacket {
    type V = PacketView;

    open spec fn view(&self) -> PacketView {
        PacketView {
            header: self.header,
            questions: question_views(self.questions@),
            answers: record_views(self.answers@),
            authorities: record_views(self.authorities@),
            resources: record_views(self.resources@),
        }
    }
}

/// The `count` questions that stand one after another from `pos` on, and
/// where the next thing stands.
pub open spec fn questions_at(data: Seq<u8>, pos: int, count: nat) -> Result<
    (Seq<QuestionView>, int),
    BufferError,
>
    decreases count,
{
    if count == 0 {
        Ok((Seq::empty(), pos))
    } else {
        match questions_at(data, pos, (count - 1) as nat) {
            Err(e) => Err(e),
            Ok((before, at)) => match question_at(data, at) {
                Err(e) => Err(e),
                Ok((q, next)) => Ok((before.push(q), next)),
            },
        }
    }
}

/// The `count` records that stand one after another from `pos` on, and
/// where the next thing stands.
pub open spec fn records_at(data: Seq<u8>, pos: int, count: nat) -> Result<
    (Seq<RecordView>, int),
    BufferError,
>
    decreases count,
{
    if count == 0 {
        Ok((Seq::empty(), pos))
    } else {
        match records_at(data, pos, (count - 1) as nat) {
            Err(e) => Err(e),
            Ok((before, at)) => match record_at(data, at) {
                Err(e) => Err(e),
                Ok((r, next)) => Ok((before.push(r), next)),
            },
        }
    }
}

/// The message that stands at `pos`, and where it ends: the header, and as
/// many questions, answers, authorities and additional records as it
/// announces.
pub open spec fn packet_at(data: Seq<u8>, pos: int) -> Result<(PacketView, int), BufferError> {
    match header_at(data, pos) {
        Err(e) => Err(e),
        Ok(header) => match questions_at(data, pos + HEADER_SIZE, header.questions as nat) {
            Err(e) => Err(e),
            Ok((questions, p1)) => match records_at(data, p1, header.answers as nat) {
                Err(e) => Err(e),
                Ok((answers, p2)) => match records_at(
                    data,
                    p2,
                    header.authoritative_entries as nat,
                ) {
                    Err(e) => Err(e),
                    Ok((authorities, p3)) => match records_at(
                        data,
                        p3,
                        header.resource_entries as nat,
                    ) {
                        Err(e) => Err(e),
                        Ok((resources, end)) => Ok(
                            (
                                PacketView { header, questions, answers, authorities, resources },
                                end,
                            ),
                        ),
                    },
                },
            },
        }
    }
}

/// Questions on the wire, one after another.
pub open spec fn questions_wire(questions: Seq<QuestionView>) -> Seq<u8>
    decreases questions.len(),
{
    if questions.len() == 0 {
        Seq::empty()
    } else {
        questions_wire(questions.drop_last()) + question_wire(questions.last())
    }
}

/// Records on the wire, one after another.
pub open spec fn records_wire(records: Seq<RecordView>) -> Seq<u8>
    decreases records.len(),
{
    if records.len() == 0 {
        Seq::empty()
    } else {
        records_wire(records.drop_last()) + record_wire(records.last())
    }
}

/// The four sections of a message on the wire.
#[verifier::opaque]
pub open spec fn sections_wire(p: PacketView) -> Seq<u8> {
    questions_wire(p.questions) + records_wire(p.answers) + records_wire(p.authorities)
        + records_wire(p.resources)
}

/// A message on the wire.
pub open spec fn packet_wire(p: PacketView) -> Seq<u8> {
    header_wire(p.header) + sections_wire(p)
}

/// Whether the name of every question has only labels that can be
/// written.
pub open spec fn questions_writable(questions: Seq<QuestionView>) -> bool {
    forall|i: int|
        0 <= i < questions.len() ==> valid_labels(encode_utf8(#[trigger] questions[i].name), 0)
}

/// Whether every name of every record has only labels that can be written.
pub open spec fn records_writable(records: Seq<RecordView>) -> bool {
    forall|i: int| 0 <= i < records.len() ==> record_writable(#[trigger] records[i])
}

/// Whether every name in the message has only labels that can be written.
pub open spec fn packet_writable(p: PacketView) -> bool {
    &&& questions_writable(p.questions)
    &&& records_writable(p.answers)
    &&& records_writable(p.authorities)
    &&& records_writable(p.resources)
}

/// Whether each section is short enough for its count to be announced.
pub open spec fn countable(p: PacketView) -> bool {
    p.questions.len() <= u16::MAX && p.answers.len() <= u16::MAX && p.authorities.len() <= u16::MAX
        && p.resources.len() <= u16::MAX
}

/// The message with the counts of its header set to the lengths of its
/// sections.
pub open spec fn counted(p: PacketView) -> PacketView {
    PacketView {
        header: DnsHeader {
            questions: p.questions.len() as u16,
            answers: p.answers.len() as u16,
            authoritative_entries: p.authorities.len() as u16,
            resource_entries: p.resources.len() as u16,
            ..p.header
        },
        ..p
    }
}

/// Once a question cannot be read, reading more of them fails the same
/// way.
pub proof fn lemma_questions_fail(data: Seq<u8>, pos: int, count: nat, more: nat)
    requires
        questions_at(data, pos, count) is Err,
        count <= more,
    ensures
        questions_at(data, pos, more) == questions_at(data, pos, count),
    decreases more,
{
    if count < more {
        lemma_questions_fail(data, pos, count, (more - 1) as nat);
    }
}

/// Once a record cannot be read, reading more of them fails the same way.
pub proof fn lemma_records_fail(data: Seq<u8>, pos: int, count: nat, more: nat)
    requires
        records_at(data, pos, count) is Err,
        count <= more,
    ensures
        records_at(data, pos, more) == records_at(data, pos, count),
    decreases more,
{
    if count < more {
        lemma_records_fail(data, pos, count, (more - 1) as nat);
    }
}

/// The first records of a section take no more bytes than all of them.
pub proof fn lemma_records_wire_grows(records: Seq<RecordView>, n: int)
    requires
        0 <= n <= records.len(),
    ensures
        records_wire(records.take(n)).len() <= records_wire(records).len(),
    decreases records.len() - n,
{
    if n == records.len() {
        assert(records.take(n) =~= records);
    } else {
        lemma_records_wire_grows(records, n + 1);
        assert(records.take(n + 1).drop_last() =~= records.take(n));
    }
}

/// The first questions of a section take no more bytes than all of them.
pub proof fn lemma_questions_wire_grows(questions: Seq<QuestionView>, n: int)
    requires
        0 <= n <= questions.len(),
    ensures
        questions_wire(questions.take(n)).len() <= questions_wire(questions).len(),
    decreases questions.len() - n,
{
    if n == questions.len() {
        assert(questions.take(n) =~= questions);
    } else {
        lemma_questions_wire_grows(questions, n + 1);
        assert(questions.take(n + 1).drop_last() =~= questions.take(n));
    }
}

/// Reads `count` records from the cursor on.
fn read_records(buffer: &mut BytePacketBuffer, count: u16) -> (r: Result<
    Vec<DnsRecord>,
    BufferError,
>)
    ensures
        final(buffer).buf == old(buffer).buf,
        match records_at(old(buffer)@.contents, old(buffer)@.cursor as int, count as nat) {
            Ok((v, next)) => r matches Ok(records) && record_views(records@) == v
                && final(buffer)@.cursor == next,
            Err(e) => r matches Err(x) && x == e,
        },
{
    let ghost data = buffer@.contents;
    let ghost start = buffer@.cursor as int;
    let mut records: Vec<DnsRecord> = Vec::new();
    let mut i: u16 = 0;
    assert(record_views(records@) =~= Seq::empty());
    while i < count
        invariant
            i <= count,
            buffer.buf == old(buffer).buf,
            data == old(buffer)@.contents,
            start == old(buffer)@.cursor,
            records_at(data, start, i as nat) == Ok::<(Seq<RecordView>, int), BufferError>(
                (record_views(records@), buffer@.cursor as int),
            ),
        decreases count - i,
    {
        let ghost before = record_views(records@);
        match DnsRecord::read(buffer) {
            Ok(rec) => {
                records.push(rec);
                assert(record_views(records@) =~= before.push(rec@));
            },
            Err(e) => {
                proof {
                    lemma_records_fail(data, start, (i + 1) as nat, count as nat);
                }
                return Err(e);
            },
        }
        i += 1;
    }
    Ok(records)
}

/// Writes the records of a section behind the bytes `done` that were laid
/// down in the buffer from `m` on.
fn lay_records(
    records: &Vec<DnsRecord>,
    buffer: &mut BytePacketBuffer,
    Ghost(m): Ghost<BufferView>,
    Ghost(done): Ghost<Seq<u8>>,
) -> (r: Result<(), BufferError>)
    requires
        old(buffer)@ == laid(m, done),
        m.cursor + done.len() <= m.contents.len() == 512,
        records_writable(record_views(records@)),
    ensures
        m.cursor + done.len() + records_wire(record_views(records@)).len() <= 512 ==> r is Ok
            && final(buffer)@ == laid(m, done + records_wire(record_views(records@))),
        m.cursor + done.len() + records_wire(record_views(records@)).len() > 512 ==> r == Err::<
            (),
            BufferError,
        >(BufferError::EndOfBuffer),
{
    let ghost all = record_views(records@);
    let mut i: usize = 0;
    assert(done + records_wire(all.take(0)) =~= done);
    while i < records.len()
        invariant
            i <= records@.len(),
            all == record_views(records@),
            m.cursor + done.len() + records_wire(all.take(i as int)).len() <= m.contents.len() == 512,
            buffer@ == laid(m, done + records_wire(all.take(i as int))),
            records_writable(all),
        decreases records@.len() - i,
    {
        proof {
            assert(all.take(i + 1).drop_last() =~= all.take(i as int));
            assert(all.take(i + 1).last() == records@[i as int]@);
            assert(record_writable(all[i as int]));
            lemma_records_wire_grows(all, i + 1);
            assert(done + records_wire(all.take(i as int)) + record_wire(records@[i as int]@) =~= done
                + records_wire(all.take(i + 1)));
        }
        records[i].lay(buffer, Ghost(m), Ghost(done + records_wire(all.take(i as int))))?;
        i += 1;
    }
    assert(all.take(i as int) =~= all);
    Ok(())
}

/// Whether every record of a section can be written.
fn every_record_writable(records: &Vec<DnsRecord>) -> (r: bool)
    ensures
        r == records_writable(record_views(records@)),
{
    let ghost all = record_views(records@);
    let mut i: usize = 0;
    while i < records.len()
        invariant
            i <= records@.len(),
            all == record_views(records@),
            forall|j: int| 0 <= j < i ==> record_writable(#[trigger] all[j]),
        decreases records@.len() - i,
    {
        if !records[i].writable() {
            assert(!record_writable(all[i as int]));
            return false;
        }
        i += 1;
    }
    true
}

/// Reads `count` questions from the cursor on.
fn read_questions(buffer: &mut BytePacketBuffer, count: u16) -> (r: Result<
    Vec<DnsQuestion>,
    BufferError,
>)
    ensures
        final(buffer).buf == old(buffer).buf,
        match questions_at(old(buffer)@.contents, old(buffer)@.cursor as int, count as nat) {
            Ok((v, next)) => r matches Ok(questions) && question_views(questions@) == v
                && final(buffer)@.cursor == next,
            Err(e) => r matches Err(x) && x == e,
        },
{
    let ghost data = buffer@.contents;
    let ghost start = buffer@.cursor as int;
    let mut questions: Vec<DnsQuestion> = Vec::new();
    let mut i: u16 = 0;
    assert(question_views(questions@) =~= Seq::empty());
    while i < count
        invariant
            i <= count,
            buffer.buf == old(buffer).buf,
            data == old(buffer)@.contents,
            start == old(buffer)@.cursor,
            questions_at(data, start, i as nat) == Ok::<(Seq<QuestionView>, int), BufferError>(
                (question_views(questions@), buffer@.cursor as int),
            ),
        decreases count - i,
    {
        let ghost before = question_views(questions@);
        let ghost at = buffer@.cursor as int;
        let mut question = DnsQuestion::new(String::new(), QueryType::UNKNOWN(0));
        match question.read(buffer) {
            Ok(_) => {
                proof {
                    let q = question_at(data, at)->Ok_0.0;
                    assert(question@.name =~= q.name);
                    assert(question@ == q);
                }
                questions.push(question);
                assert(question_views(questions@) =~= before.push(question@));
            },
            Err(e) => {
                proof {
                    lemma_questions_fail(data, start, (i + 1) as nat, count as nat);
                }
                return Err(e);
            },
        }
        i += 1;
    }
    Ok(questions)
}

/// Writes the questions of a message behind the bytes `done` that were
/// laid down in the buffer from `m` on.
fn lay_questions(
    questions: &Vec<DnsQuestion>,
    buffer: &mut BytePacketBuffer,
    Ghost(m): Ghost<BufferView>,
    Ghost(done): Ghost<Seq<u8>>,
) -> (r: Result<(), BufferError>)
    requires
        old(buffer)@ == laid(m, done),
        m.cursor + done.len() <= m.contents.len() == 512,
        questions_writable(question_views(questions@)),
    ensures
        m.cursor + done.len() + questions_wire(question_views(questions@)).len() <= 512 ==> r is Ok
            && final(buffer)@ == laid(m, done + questions_wire(question_views(questions@))),
        m.cursor + done.len() + questions_wire(question_views(questions@)).len() > 512 ==> r
            == Err::<(), BufferError>(BufferError::EndOfBuffer),
{
    let ghost all = question_views(questions@);
    let mut i: usize = 0;
    assert(done + questions_wire(all.take(0)) =~= done);
    while i < questions.len()
        invariant
            i <= questions@.len(),
            all == question_views(questions@),
            m.cursor + done.len() + questions_wire(all.take(i as int)).len() <= m.contents.len()
                == 512,
            buffer@ == laid(m, done + questions_wire(all.take(i as int))),
            questions_writable(all),
        decreases questions@.len() - i,
    {
        proof {
            assert(all.take(i + 1).drop_last() =~= all.take(i as int));
            assert(all.take(i + 1).last() == questions@[i as int]@);
            assert(valid_labels(encode_utf8(all[i as int].name), 0));
            lemma_questions_wire_grows(all, i + 1);
            assert(done + questions_wire(all.take(i as int)) + question_wire(questions@[i as int]@)
                =~= done + questions_wire(all.take(i + 1)));
        }
        questions[i].lay(buffer, Ghost(m), Ghost(done + questions_wire(all.take(i as int))))?;
        i += 1;
    }
    assert(all.take(i as int) =~= all);
    Ok(())
}

/// Whether the name of every question can be written.
fn every_question_writable(questions: &Vec<DnsQuestion>) -> (r: bool)
    ensures
        r == questions_writable(question_views(questions@)),
{
    let ghost all = question_views(questions@);
    let mut i: usize = 0;
    while i < questions.len()
        invariant
            i <= questions@.len(),
            all == question_views(questions@),
            forall|j: int| 0 <= j < i ==> valid_labels(encode_utf8(#[trigger] all[j].name), 0),
        decreases questions@.len() - i,
    {
        if !writable(questions[i].name.as_str()) {
            assert(!valid_labels(encode_utf8(all[i as int].name), 0));
            return false;
        }
        i += 1;
    }
    true
}

impl DnsPacket {
    /// An empty message.
    pub fn new() -> (r: DnsPacket)
        ensures
            r.header == blank_header(),
            r.questions@.len() == 0,
            r.answers@.len() == 0,
            r.authorities@.len() == 0,
            r.resources@.len() == 0,
    {
        DnsPacket {
            header: DnsHeader::new(),
            questions: Vec::new(),
            answers: Vec::new(),
            authorities: Vec::new(),
            resources: Vec::new(),
        }
    }

    /// Reads the message at the cursor and leaves the cursor behind it.
    pub fn from_buffer(buffer: &mut BytePacketBuffer) -> (r: Result<DnsPacket, BufferError>)
        ensures
            final(buffer).buf == old(buffer).buf,
            match packet_at(old(buffer)@.contents, old(buffer)@.cursor as int) {
                Ok((v, end)) => r matches Ok(p) && p@ == v && final(buffer)@.cursor == end,
                Err(e) => r matches Err(x) && x == e,
            },
    {
        let mut result = DnsPacket::new();
        result.header.read(buffer)?;
        result.questions = read_questions(buffer, result.header.questions)?;
        result.answers = read_records(buffer, result.header.answers)?;
        result.authorities = read_records(buffer, result.header.authoritative_entries)?;
        result.resources = read_records(buffer, result.header.resource_entries)?;
        Ok(result)
    }

    /// Whether every name in the message has only labels that can be
    /// written.
    pub fn writable(&self) -> (r: bool)
        ensures
            r == packet_writable(self@),
    {
        every_question_writable(&self.questions) && every_record_writable(&self.answers) && every_record_writable(
            &self.authorities,
        ) && every_record_writable(&self.resources)
    }

    /// Writes the header and the sections at the cursor.
    fn lay(&self, buffer: &mut BytePacketBuffer) -> (r: Result<(), BufferError>)
        requires
            packet_writable(self@),
        ensures
            old(buffer)@.cursor + packet_wire(self@).len() <= 512 ==> r is Ok && final(buffer)@
                == laid(old(buffer)@, packet_wire(self@)),
            old(buffer)@.cursor + packet_wire(self@).len() > 512 ==> r == Err::<(), BufferError>(
                BufferError::EndOfBuffer,
            ),
    {
        let ghost m = buffer@;
        let ghost p = self@;
        let ghost w1 = header_wire(p.header);
        let ghost w2 = w1 + questions_wire(p.questions);
        let ghost w3 = w2 + records_wire(p.answers);
        let ghost w4 = w3 + records_wire(p.authorities);
        proof {
            reveal(sections_wire);
        }
        self.header.write(buffer)?;
        lay_questions(&self.questions, buffer, Ghost(m), Ghost(w1))?;
        lay_records(&self.answers, buffer, Ghost(m), Ghost(w2))?;
        lay_records(&self.authorities, buffer, Ghost(m), Ghost(w3))?;
        lay_records(&self.resources, buffer, Ghost(m), Ghost(w4))?;
        assert(w4 + records_wire(p.resources) =~= packet_wire(p)) by {
            reveal(sections_wire);
        }
        Ok(())
    }

    /// Sets the counts of the header to the lengths of the sections and
    /// writes the message at the cursor. A message with a section too long
    /// to be counted, or with a label of more than 63 bytes in one of its
    /// names, is refused before anything is changed.
    pub fn write(&mut self, buffer: &mut BytePacketBuffer) -> (r: Result<(), BufferError>)
        ensures
            !countable(old(self)@) ==> r == Err::<(), BufferError>(BufferError::TooManyEntries)
                && final(self)@ == old(self)@ && final(buffer)@ == old(buffer)@,
            countable(old(self)@) && !packet_writable(old(self)@) ==> r == Err::<(), BufferError>(
                BufferError::InvalidLabelLength,
            ) && final(self)@ == old(self)@ && final(buffer)@ == old(buffer)@,
            countable(old(self)@) && packet_writable(old(self)@) ==> final(self)@ == counted(
                old(self)@,
            ),
            countable(old(self)@) && packet_writable(old(self)@) && old(buffer)@.cursor
                + packet_wire(counted(old(self)@)).len() <= 512 ==> r is Ok && final(buffer)@
                == laid(old(buffer)@, packet_wire(counted(old(self)@))),
            countable(old(self)@) && packet_writable(old(self)@) && old(buffer)@.cursor
                + packet_wire(counted(old(self)@)).len() > 512 ==> r == Err::<(), BufferError>(
                BufferError::EndOfBuffer,
            ),
    {
        if self.questions.len() > 0xFFFF || self.answers.len() > 0xFFFF || self.authorities.len()
            > 0xFFFF || self.resources.len() > 0xFFFF {
            return Err(BufferError::TooManyEntries);
        }
        if !self.writable() {
            return Err(BufferError::InvalidLabelLength);
        }
        self.header.questions = self.questions.len() as u16;
        self.header.answers = self.answers.len() as u16;
        self.header.authoritative_entries = self.authorities.len() as u16;
        self.header.resource_entries = self.resources.len() as u16;
        assert(self@ == counted(old(self)@));
        self.lay(buffer)
    }
}

} // verus!
