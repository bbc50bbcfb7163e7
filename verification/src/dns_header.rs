//! The twelve bytes at the head of every message.

use crate::buffer::{u16_bytes, word, BytePacketBuffer, PacketBuffer};
use crate::error::BufferError;
use crate::result_code::ResultCode;
use crate::wire::{laid, lay_u16, lay_u8};
use vstd::prelude::*;

verus! {

/// How many bytes a header takes on the wire.
pub const HEADER_SIZE: usize = 12;

/// The header of a message: its id, its flags, and how many entries each
/// of its four sections holds.
#[derive(Clone, Copy, Debug, PartialEq, Eq, Structural)]
pub struct DnsHeader {
    pub id: u16,
    pub recursion_desired: bool,
    pub truncated_message: bool,
    pub authoritative_answer: bool,
    pub opcode: u8,
    pub response: bool,
    pub rescode: ResultCode,
    pub checking_disabled: bool,
    pub authed_data: bool,
    pub z: bool,
    pub recursion_available: bool,
    pub questions: u16,
    pub answers: u16,
    pub authoritative_entries: u16,
    pub resource_entries: u16,
}

/// The header of an empty query: every number zero, every flag down.
pub open spec fn blank_header() -> DnsHeader {
    DnsHeader {
        id: 0,
        recursion_desired: false,
        truncated_message: false,
        authoritative_answer: false,
        opcode: 0,
        response: false,
        rescode: ResultCode::NOERROR,
        checking_disabled: false,
        authed_data: false,
        z: false,
        recursion_available: false,
        questions: 0,
        answers: 0,
        authoritative_entries: 0,
        resource_entries: 0,
    }
}

/// A flag as a bit.
pub open spec fn bit(flag: bool) -> int {
    if flag {
        1
    } else {
        0
    }
}

/// The first flag byte: QR, four bits of opcode, AA, TC, RD.
pub open spec fn flags_hi(h: DnsHeader) -> u8 {
    (bit(h.recursion_desired) + 2 * bit(h.truncated_message) + 4 * bit(h.authoritative_answer) + 8
        * (h.opcode % 16) + 128 * bit(h.response)) as u8
}

/// The second flag byte: RA, Z, AD, CD, four bits of result code.
pub open spec fn flags_lo(h: DnsHeader) -> u8 {
    (h.rescode.num() + 16 * bit(h.checking_disabled) + 32 * bit(h.authed_data) + 64 * bit(h.z)
        + 128 * bit(h.recursion_available)) as u8
}

/// The twelve bytes of a header.
pub open spec fn header_wire(h: DnsHeader) -> Seq<u8> {
    u16_bytes(h.id) + seq![flags_hi(h), flags_lo(h)] + u16_bytes(h.questions) + u16_bytes(h.answers)
        + u16_bytes(h.authoritative_entries) + u16_bytes(h.resource_entries)
}

/// The header that an id, two flag bytes and four counts stand for.
#[verifier::opaque]
pub open spec fn header_of(
    id: u16,
    a: u8,
    b: u8,
    questions: u16,
    answers: u16,
    authoritative_entries: u16,
    resource_entries: u16,
) -> DnsHeader {
    DnsHeader {
        id,
        recursion_desired: a % 2 == 1,
        truncated_message: a / 2 % 2 == 1,
        authoritative_answer: a / 4 % 2 == 1,
        opcode: a / 8 % 16,
        response: a / 128 == 1,
        rescode: ResultCode::of_num(b % 16),
        checking_disabled: b / 16 % 2 == 1,
        authed_data: b / 32 % 2 == 1,
        z: b / 64 % 2 == 1,
        recursion_available: b / 128 == 1,
        questions,
        answers,
        authoritative_entries,
        resource_entries,
    }
}

/// The header that stands at `pos`.
pub open spec fn header_at(data: Seq<u8>, pos: int) -> Result<DnsHeader, BufferError> {
    if 0 <= pos && pos + HEADER_SIZE <= data.len() {
        Ok(
            header_of(
                word(data, pos),
                data[pos + 2],
                data[pos + 3],
                word(data, pos + 4),
                word(data, pos + 6),
                word(data, pos + 8),
                word(data, pos + 10),
            ),
        )
    } else {
        Err(BufferError::EndOfBuffer)
    }
}

/// The 16-bit number that two bytes stand for, the first the more
/// significant.
pub fn word_of(hi: u8, lo: u8) -> (r: u16)
    ensures
        r == hi * 256 + lo,
{
    (hi as u16) * 256 + (lo as u16)
}

/// A flag as a bit.
pub fn bit_of(flag: bool) -> (r: u8)
    ensures
        r == bit(flag),
        r <= 1,
{
    if flag {
        1
    } else {
        0
    }
}

/// A 16-bit number is the one that its two bytes stand for.
pub proof fn lemma_word_of_bytes(v: u16, data: Seq<u8>, pos: int)
    requires
        0 <= pos,
        pos + 2 <= data.len(),
        data[pos] == u16_bytes(v)[0],
        data[pos + 1] == u16_bytes(v)[1],
    ensures
        word(data, pos) == v,
{
}

impl DnsHeader {
    /// The header of an empty query: every number zero, every flag down.
    pub fn new() -> (r: DnsHeader)
        ensures
            r == blank_header(),
    {
        DnsHeader {
            id: 0,
            recursion_desired: false,
            truncated_message: false,
            authoritative_answer: false,
            opcode: 0,
            response: false,
            rescode: ResultCode::NOERROR,
            checking_disabled: false,
            authed_data: false,
            z: false,
            recursion_available: false,
            questions: 0,
            answers: 0,
            authoritative_entries: 0,
            resource_entries: 0,
        }
    }

    /// The header that an id, two flag bytes and four counts stand for.
    pub fn from_parts(
        id: u16,
        a: u8,
        b: u8,
        questions: u16,
        answers: u16,
        authoritative_entries: u16,
        resource_entries: u16,
    ) -> (r: DnsHeader)
        ensures
            r == header_of(id, a, b, questions, answers, authoritative_entries, resource_entries),
    {
        reveal(header_of);
        DnsHeader {
            id,
            recursion_desired: a % 2 == 1,
            truncated_message: a / 2 % 2 == 1,
            authoritative_answer: a / 4 % 2 == 1,
            opcode: a / 8 % 16,
            response: a / 128 == 1,
            rescode: ResultCode::from_num(b % 16),
            checking_disabled: b / 16 % 2 == 1,
            authed_data: b / 32 % 2 == 1,
            z: b / 64 % 2 == 1,
            recursion_available: b / 128 == 1,
            questions,
            answers,
            authoritative_entries,
            resource_entries,
        }
    }

    /// The first flag byte.
    pub fn first_flags(&self) -> (r: u8)
        ensures
            r == flags_hi(*self),
    {
        let rd: u8 = bit_of(self.recursion_desired);
        let tc: u8 = bit_of(self.truncated_message);
        let aa: u8 = bit_of(self.authoritative_answer);
        let op: u8 = self.opcode % 16;
        let qr: u8 = bit_of(self.response);
        rd + 2 * tc + 4 * aa + 8 * op + 128 * qr
    }

    /// The second flag byte.
    pub fn second_flags(&self) -> (r: u8)
        ensures
            r == flags_lo(*self),
    {
        let rc: u8 = self.rescode.to_num();
        let cd: u8 = bit_of(self.checking_disabled);
        let ad: u8 = bit_of(self.authed_data);
        let z: u8 = bit_of(self.z);
        let ra: u8 = bit_of(self.recursion_available);
        rc + 16 * cd + 32 * ad + 64 * z + 128 * ra
    }

    /// Reads a header from the first twelve bytes of `input` and returns it
    /// with the bytes that follow it.
    pub fn parse(input: &[u8]) -> (r: Result<(DnsHeader, &[u8]), BufferError>)
        ensures
            match header_at(input@, 0) {
                Ok(h) => r is Ok && r->Ok_0.0 == h && r->Ok_0.1@ == input@.skip(12),
                Err(e) => r is Err && r->Err_0 == e,
            },
    {
        if input.len() < HEADER_SIZE {
            return Err(BufferError::EndOfBuffer);
        }
        let header = DnsHeader::from_parts(
            word_of(input[0], input[1]),
            input[2],
            input[3],
            word_of(input[4], input[5]),
            word_of(input[6], input[7]),
            word_of(input[8], input[9]),
            word_of(input[10], input[11]),
        );
        Ok((header, vstd::slice::slice_subrange(input, HEADER_SIZE, input.len())))
    }

    /// Reads the header at the cursor. On failure the header is left as it
    /// was.
    pub fn read(&mut self, buffer: &mut BytePacketBuffer) -> (r: Result<(), BufferError>)
        ensures
            final(buffer).buf == old(buffer).buf,
            match header_at(old(buffer)@.contents, old(buffer)@.cursor as int) {
                Ok(h) => r is Ok && *final(self) == h && final(buffer)@.cursor == old(buffer)@.cursor
                    + HEADER_SIZE,
                Err(e) => r == Err::<(), BufferError>(e) && *final(self) == *old(self),
            },
    {
        let id: u16 = buffer.read_u16()?;
        let a: u8 = buffer.read()?;
        let b: u8 = buffer.read()?;
        let questions: u16 = buffer.read_u16()?;
        let answers: u16 = buffer.read_u16()?;
        let authoritative_entries: u16 = buffer.read_u16()?;
        let resource_entries: u16 = buffer.read_u16()?;
        *self = DnsHeader::from_parts(
            id,
            a,
            b,
            questions,
            answers,
            authoritative_entries,
            resource_entries,
        );
        Ok(())
    }

    /// Writes the header at the cursor, if twelve bytes fit there. Of the
    /// opcode the low four bits are written.
    pub fn write(&self, buffer: &mut BytePacketBuffer) -> (r: Result<(), BufferError>)
        ensures
            old(buffer)@.cursor + HEADER_SIZE <= 512 ==> r is Ok && final(buffer)@ == laid(
                old(buffer)@,
                header_wire(*self),
            ),
            old(buffer)@.cursor + HEADER_SIZE > 512 ==> r == Err::<(), BufferError>(
                BufferError::EndOfBuffer,
            ) && final(buffer)@ == old(buffer)@,
    {
        let ghost m = buffer@;
        if buffer.pos() > 512 - HEADER_SIZE {
            return Err(BufferError::EndOfBuffer);
        }
        let ghost w0 = Seq::<u8>::empty();
        assert(buffer@.contents =~= laid(m, w0).contents);
        lay_u16(buffer, self.id, Ghost(m), Ghost(w0))?;
        let ghost w1 = w0 + u16_bytes(self.id);
        lay_u8(buffer, self.first_flags(), Ghost(m), Ghost(w1))?;
        let ghost w2 = w1 + seq![flags_hi(*self)];
        lay_u8(buffer, self.second_flags(), Ghost(m), Ghost(w2))?;
        let ghost w3 = w2 + seq![flags_lo(*self)];
        lay_u16(buffer, self.questions, Ghost(m), Ghost(w3))?;
        let ghost w4 = w3 + u16_bytes(self.questions);
        lay_u16(buffer, self.answers, Ghost(m), Ghost(w4))?;
        let ghost w5 = w4 + u16_bytes(self.answers);
        lay_u16(buffer, self.authoritative_entries, Ghost(m), Ghost(w5))?;
        let ghost w6 = w5 + u16_bytes(self.authoritative_entries);
        lay_u16(buffer, self.resource_entries, Ghost(m), Ghost(w6))?;
        assert(w6 + u16_bytes(self.resource_entries) =~= header_wire(*self));
        Ok(())
    }
}

/// Where the twelve bytes of a header stand, its id, its flag bytes and
/// its counts are read.
pub proof fn lemma_header_words(h: DnsHeader, data: Seq<u8>, pos: int)
    requires
        0 <= pos,
        pos + HEADER_SIZE <= data.len(),
        data.subrange(pos, pos + HEADER_SIZE) == header_wire(h),
    ensures
        word(data, pos) == h.id,
        data[pos + 2] == flags_hi(h),
        data[pos + 3] == flags_lo(h),
        word(data, pos + 4) == h.questions,
        word(data, pos + 6) == h.answers,
        word(data, pos + 8) == h.authoritative_entries,
        word(data, pos + 10) == h.resource_entries,
{
    let w = header_wire(h);
    assert(w.len() == 12);
    assert forall|i: int| 0 <= i < 12 implies data[pos + i] == w[i] by {
        assert(data.subrange(pos, pos + HEADER_SIZE)[i] == data[pos + i]);
    }
    assert(data[pos + 0] == w[0]);
    assert(w[0] == u16_bytes(h.id)[0] && w[1] == u16_bytes(h.id)[1]);
    assert(w[2] == flags_hi(h) && w[3] == flags_lo(h));
    assert(w[4] == u16_bytes(h.questions)[0] && w[5] == u16_bytes(h.questions)[1]);
    assert(w[6] == u16_bytes(h.answers)[0] && w[7] == u16_bytes(h.answers)[1]);
    assert(w[8] == u16_bytes(h.authoritative_entries)[0] && w[9] == u16_bytes(
        h.authoritative_entries,
    )[1]);
    assert(w[10] == u16_bytes(h.resource_entries)[0] && w[11] == u16_bytes(
        h.resource_entries,
    )[1]);
    lemma_word_of_bytes(h.id, data, pos);
    lemma_word_of_bytes(h.questions, data, pos + 4);
    lemma_word_of_bytes(h.answers, data, pos + 6);
    lemma_word_of_bytes(h.authoritative_entries, data, pos + 8);
    lemma_word_of_bytes(h.resource_entries, data, pos + 10);
}

/// Where the twelve bytes of a header stand, a header with its four counts
/// is read.
pub proof fn lemma_header_counts(h: DnsHeader, data: Seq<u8>, pos: int)
    requires
        0 <= pos,
        pos + HEADER_SIZE <= data.len(),
        data.subrange(pos, pos + HEADER_SIZE) == header_wire(h),
    ensures
        header_at(data, pos) is Ok,
        header_at(data, pos)->Ok_0.questions == h.questions,
        header_at(data, pos)->Ok_0.answers == h.answers,
        header_at(data, pos)->Ok_0.authoritative_entries == h.authoritative_entries,
        header_at(data, pos)->Ok_0.resource_entries == h.resource_entries,
{
    reveal(header_of);
    lemma_header_words(h, data, pos);
}

/// A header whose opcode has four bits, written and read again, is itself.
pub proof fn lemma_header_round_trip(h: DnsHeader, data: Seq<u8>, pos: int)
    requires
        h.opcode < 16,
        0 <= pos,
        pos + HEADER_SIZE <= data.len(),
        data.subrange(pos, pos + HEADER_SIZE) == header_wire(h),
    ensures
        header_at(data, pos) == Ok::<DnsHeader, BufferError>(h),
{
    lemma_header_words(h, data, pos);
    lemma_flags_round_trip(h);
}

/// Four bits and a number of four bits, packed into a byte with the
/// number in the middle, are read back from the byte.
pub proof fn lemma_unpack_hi(b0: int, b1: int, b2: int, mid: int, b7: int)
    requires
        0 <= b0 <= 1,
        0 <= b1 <= 1,
        0 <= b2 <= 1,
        0 <= mid < 16,
        0 <= b7 <= 1,
    ensures
        ({
            let a = b0 + 2 * b1 + 4 * b2 + 8 * mid + 128 * b7;
            &&& 0 <= a < 256
            &&& a % 2 == b0
            &&& a / 2 % 2 == b1
            &&& a / 4 % 2 == b2
            &&& a / 8 % 16 == mid
            &&& a / 128 == b7
        }),
{
}

/// A number of four bits and four bits, packed into a byte with the number
/// lowest, are read back from the byte.
pub proof fn lemma_unpack_lo(low: int, b4: int, b5: int, b6: int, b7: int)
    requires
        0 <= low < 16,
        0 <= b4 <= 1,
        0 <= b5 <= 1,
        0 <= b6 <= 1,
        0 <= b7 <= 1,
    ensures
        ({
            let b = low + 16 * b4 + 32 * b5 + 64 * b6 + 128 * b7;
            &&& 0 <= b < 256
            &&& b % 16 == low
            &&& b / 16 % 2 == b4
            &&& b / 32 % 2 == b5
            &&& b / 64 % 2 == b6
            &&& b / 128 == b7
        }),
{
}

/// The first flag byte of a header whose opcode has four bits gives back
/// the opcode and the four flags that it holds.
pub proof fn lemma_first_flags(h: DnsHeader)
    requires
        h.opcode < 16,
    ensures
        (flags_hi(h) % 2 == 1) == h.recursion_desired,
        (flags_hi(h) / 2 % 2 == 1) == h.truncated_message,
        (flags_hi(h) / 4 % 2 == 1) == h.authoritative_answer,
        flags_hi(h) / 8 % 16 == h.opcode,
        (flags_hi(h) / 128 == 1) == h.response,
{
    let b0 = bit(h.recursion_desired);
    let b1 = bit(h.truncated_message);
    let b2 = bit(h.authoritative_answer);
    let b7 = bit(h.response);
    lemma_unpack_hi(b0, b1, b2, h.opcode as int, b7);
    assert(flags_hi(h) == b0 + 2 * b1 + 4 * b2 + 8 * h.opcode + 128 * b7);
}

/// The second flag byte of a header gives back the result code and the
/// four flags that it holds.
pub proof fn lemma_second_flags(h: DnsHeader)
    ensures
        ResultCode::of_num(flags_lo(h) % 16) == h.rescode,
        (flags_lo(h) / 16 % 2 == 1) == h.checking_disabled,
        (flags_lo(h) / 32 % 2 == 1) == h.authed_data,
        (flags_lo(h) / 64 % 2 == 1) == h.z,
        (flags_lo(h) / 128 == 1) == h.recursion_available,
{
    let low = h.rescode.num() as int;
    let b4 = bit(h.checking_disabled);
    let b5 = bit(h.authed_data);
    let b6 = bit(h.z);
    let b7 = bit(h.recursion_available);
    crate::result_code::lemma_result_code_round_trip(h.rescode);
    lemma_unpack_lo(low, b4, b5, b6, b7);
    assert(flags_lo(h) == low + 16 * b4 + 32 * b5 + 64 * b6 + 128 * b7);
}

/// The flags of a header whose opcode has four bits, decoded from its two
/// flag bytes, are its own.
pub proof fn lemma_flags_round_trip(h: DnsHeader)
    requires
        h.opcode < 16,
    ensures
        header_of(
            h.id,
            flags_hi(h),
            flags_lo(h),
            h.questions,
            h.answers,
            h.authoritative_entries,
            h.resource_entries,
        ) == h,
{
    reveal(header_of);
    lemma_first_flags(h);
    lemma_second_flags(h);
}

} // verus!
