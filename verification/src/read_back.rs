//! A message that was written is read back as it was: the laws that tie
//! the writing of questions, records and whole messages to the reading of
//! them.

use crate::buffer::{dword, u16_at, u16_bytes, u32_bytes, word, BufferView};
use crate::dns_header::{header_at, header_wire, lemma_header_counts, lemma_header_round_trip};
use crate::dns_packet::{
    countable, counted, packet_at, packet_wire, packet_writable, questions_at, questions_wire,
    records_at, records_wire, sections_wire, PacketView,
};
use crate::dns_question::{question_at, question_wire, QuestionView};
use crate::dns_record::{
    named_wire, plain_name, record_at, record_head, record_wire, record_writable, segments_wire,
    RecordView,
};
use crate::error::BufferError;
use crate::name::{name_text, walk_name, MAX_JUMPS};
use crate::query_type::QueryType;
use crate::round_trip::{
    lemma_labels_text, lemma_proper_is_valid, lemma_walk_name_wire, proper_labels, text,
};
use crate::wire::{laid, lemma_laid_stands, valid_labels};
use vstd::prelude::*;
use vstd::utf8::encode_utf8;

verus! {

/// Whether the bytes `wire` stand at `pos` in `data`.
pub open spec fn stands(data: Seq<u8>, pos: int, wire: Seq<u8>) -> bool {
    0 <= pos && pos + wire.len() <= data.len() && data.subrange(pos, pos + wire.len()) == wire
}

/// Two runs of bytes stand one behind the other where they stand as one.
pub proof fn lemma_stands_split(data: Seq<u8>, pos: int, first: Seq<u8>, second: Seq<u8>)
    requires
        stands(data, pos, first + second),
    ensures
        stands(data, pos, first),
        stands(data, pos + first.len(), second),
{
    let both = first + second;
    assert(data.subrange(pos, pos + first.len()) =~= first) by {
        assert forall|i: int| 0 <= i < first.len() implies data[pos + i] == first[i] by {
            assert(data.subrange(pos, pos + both.len())[i] == both[i]);
        }
    }
    assert(data.subrange(pos + first.len(), pos + first.len() + second.len()) =~= second) by {
        assert forall|i: int| 0 <= i < second.len() implies data[pos + first.len() + i]
            == second[i] by {
            assert(data.subrange(pos, pos + both.len())[first.len() + i] == both[first.len() + i]);
        }
    }
}

/// Where the two bytes of a number stand, the number is read.
pub proof fn lemma_word_stands(data: Seq<u8>, pos: int, v: u16)
    requires
        stands(data, pos, u16_bytes(v)),
    ensures
        word(data, pos) == v,
        u16_at(data, pos) == Ok::<u16, BufferError>(v),
{
    let w = u16_bytes(v);
    assert(data.subrange(pos, pos + 2)[0] == w[0]);
    assert(data.subrange(pos, pos + 2)[1] == w[1]);
}

/// Where the four bytes of a number stand, the number is read.
pub proof fn lemma_dword_stands(data: Seq<u8>, pos: int, v: u32)
    requires
        stands(data, pos, u32_bytes(v)),
    ensures
        dword(data, pos) == v,
{
    let w = u32_bytes(v);
    assert(data.subrange(pos, pos + 4)[0] == w[0]);
    assert(data.subrange(pos, pos + 4)[1] == w[1]);
    assert(data.subrange(pos, pos + 4)[2] == w[2]);
    assert(data.subrange(pos, pos + 4)[3] == w[3]);
}

/// Whether a name in text is read back as it is written: its labels have
/// from 1 to 63 bytes each, and it is all ASCII with no capital letters.
pub open spec fn canonical(name: Seq<char>) -> bool {
    proper_labels(encode_utf8(name), 0) && text(encode_utf8(name)) == name
}

/// A name of ASCII characters without capital letters, whose labels have
/// from 1 to 63 bytes each, is canonical.
pub proof fn lemma_lower_ascii_is_canonical(name: Seq<char>)
    requires
        vstd::utf8::is_ascii_chars(name),
        forall|i: int| 0 <= i < name.len() ==> !('A' <= #[trigger] name[i] <= 'Z'),
        proper_labels(encode_utf8(name), 0),
    ensures
        canonical(name),
{
    vstd::utf8::is_ascii_chars_encode_utf8(name);
    let bytes = encode_utf8(name);
    assert(text(bytes) =~= name) by {
        assert forall|i: int| 0 <= i < name.len() implies crate::name::wire_char(bytes[i])
            == name[i] by {
            assert(name[i] as u8 == bytes[i]);
            assert('\0' <= name[i] <= '\u{7f}');
        }
    }
}

/// Where a canonical name stands, it is read, and the reader ends behind
/// it.
pub proof fn lemma_name_stands(data: Seq<u8>, pos: int, name: Seq<char>)
    requires
        canonical(name),
        stands(data, pos, plain_name(name)),
    ensures
        walk_name(data, pos, MAX_JUMPS as nat) is Ok,
        name_text(walk_name(data, pos, MAX_JUMPS as nat)->Ok_0.labels) == name,
        walk_name(data, pos, MAX_JUMPS as nat)->Ok_0.next == pos + plain_name(name).len(),
{
    let bytes = encode_utf8(name);
    lemma_walk_name_wire(data, pos, bytes, 0, MAX_JUMPS as nat);
    lemma_labels_text(bytes, 0);
    assert(bytes.skip(0) =~= bytes);
}

/// Whether a question is read back as it is written.
pub open spec fn question_canonical(q: QuestionView) -> bool {
    canonical(q.name) && QueryType::of_num(q.qtype.num()) == q.qtype
}

/// Where a canonical question stands, it is read, and the reader ends
/// behind it.
pub proof fn lemma_question_stands(data: Seq<u8>, pos: int, q: QuestionView)
    requires
        question_canonical(q),
        stands(data, pos, question_wire(q)),
    ensures
        question_at(data, pos) == Ok::<(QuestionView, int), BufferError>(
            (q, pos + question_wire(q).len()),
        ),
{
    let name = plain_name(q.name);
    let kind = u16_bytes(q.qtype.num());
    let class = u16_bytes(1);
    lemma_stands_split(data, pos, name + kind, class);
    lemma_stands_split(data, pos, name, kind);
    lemma_name_stands(data, pos, q.name);
    lemma_word_stands(data, pos + name.len(), q.qtype.num());
    lemma_word_stands(data, pos + name.len() + 2, 1);
}

/// Where what stands before the data of a record stands, it is read: the
/// name, the type, the time to live and the length of the data; and the
/// data begins behind it.
pub proof fn lemma_head_stands(
    data: Seq<u8>,
    pos: int,
    domain: Seq<char>,
    qtype: u16,
    ttl: u32,
    data_len: int,
)
    requires
        canonical(domain),
        stands(data, pos, record_head(domain, qtype, ttl, data_len)),
    ensures
        walk_name(data, pos, MAX_JUMPS as nat) is Ok,
        name_text(walk_name(data, pos, MAX_JUMPS as nat)->Ok_0.labels) == domain,
        ({
            let next = walk_name(data, pos, MAX_JUMPS as nat)->Ok_0.next;
            &&& next == pos + plain_name(domain).len()
            &&& next + 10 == pos + record_head(domain, qtype, ttl, data_len).len()
            &&& word(data, next) == qtype
            &&& dword(data, next + 4) == ttl
            &&& word(data, next + 8) == data_len as u16
        }),
{
    let name = plain_name(domain);
    let kind = u16_bytes(qtype);
    let class = u16_bytes(1);
    let life = u32_bytes(ttl);
    let size = u16_bytes(data_len as u16);
    lemma_stands_split(data, pos, name + kind + class + life, size);
    lemma_stands_split(data, pos, name + kind + class, life);
    lemma_stands_split(data, pos, name + kind, class);
    lemma_stands_split(data, pos, name, kind);
    lemma_name_stands(data, pos, domain);
    lemma_word_stands(data, pos + name.len(), qtype);
    lemma_dword_stands(data, pos + name.len() + 4, ttl);
    lemma_word_stands(data, pos + name.len() + 8, data_len as u16);
}

/// Where the eight groups of an IPv6 address stand, they are read.
pub proof fn lemma_segments_stand(data: Seq<u8>, pos: int, addr: Seq<u16>)
    requires
        addr.len() == 8,
        stands(data, pos, segments_wire(addr)),
    ensures
        Seq::new(8, |i: int| word(data, pos + 2 * i)) == addr,
{
    let g = |i: int| u16_bytes(addr[i]);
    lemma_stands_split(data, pos, g(0) + g(1) + g(2) + g(3) + g(4) + g(5) + g(6), g(7));
    lemma_stands_split(data, pos, g(0) + g(1) + g(2) + g(3) + g(4) + g(5), g(6));
    lemma_stands_split(data, pos, g(0) + g(1) + g(2) + g(3) + g(4), g(5));
    lemma_stands_split(data, pos, g(0) + g(1) + g(2) + g(3), g(4));
    lemma_stands_split(data, pos, g(0) + g(1) + g(2), g(3));
    lemma_stands_split(data, pos, g(0) + g(1), g(2));
    lemma_stands_split(data, pos, g(0), g(1));
    lemma_word_stands(data, pos, addr[0]);
    lemma_word_stands(data, pos + 2, addr[1]);
    lemma_word_stands(data, pos + 4, addr[2]);
    lemma_word_stands(data, pos + 6, addr[3]);
    lemma_word_stands(data, pos + 8, addr[4]);
    lemma_word_stands(data, pos + 10, addr[5]);
    lemma_word_stands(data, pos + 12, addr[6]);
    lemma_word_stands(data, pos + 14, addr[7]);
    assert(Seq::new(8, |i: int| word(data, pos + 2 * i)) =~= addr);
}

/// Whether a record is read back as it is written: it is of a type that is
/// understood, its names are canonical, and its address has as many parts
/// as an address has.
pub open spec fn record_canonical(r: RecordView) -> bool {
    match r {
        RecordView::UNKNOWN { .. } => false,
        RecordView::A { domain, addr, .. } => canonical(domain) && addr.len() == 4,
        RecordView::NS { domain, host, .. } => canonical(domain) && canonical(host),
        RecordView::CNAME { domain, host, .. } => canonical(domain) && canonical(host),
        RecordView::MX { domain, host, .. } => canonical(domain) && canonical(host),
        RecordView::AAAA { domain, addr, .. } => canonical(domain) && addr.len() == 8,
    }
}

/// Where an A record stands, it is read.
pub proof fn lemma_a_stands(data: Seq<u8>, pos: int, domain: Seq<char>, addr: Seq<u8>, ttl: u32)
    requires
        canonical(domain),
        addr.len() == 4,
        stands(data, pos, record_head(domain, 1, ttl, 4) + addr),
    ensures
        record_at(data, pos) == Ok::<(RecordView, int), BufferError>(
            (
                RecordView::A { domain, addr, ttl },
                pos + (record_head(domain, 1, ttl, 4) + addr).len(),
            ),
        ),
{
    let head = record_head(domain, 1, ttl, 4);
    lemma_stands_split(data, pos, head, addr);
    lemma_head_stands(data, pos, domain, 1, ttl, 4);
}

/// Where an AAAA record stands, it is read.
pub proof fn lemma_aaaa_stands(
    data: Seq<u8>,
    pos: int,
    domain: Seq<char>,
    addr: Seq<u16>,
    ttl: u32,
)
    requires
        canonical(domain),
        addr.len() == 8,
        stands(data, pos, record_head(domain, 28, ttl, 16) + segments_wire(addr)),
    ensures
        record_at(data, pos) == Ok::<(RecordView, int), BufferError>(
            (
                RecordView::AAAA { domain, addr, ttl },
                pos + (record_head(domain, 28, ttl, 16) + segments_wire(addr)).len(),
            ),
        ),
{
    let head = record_head(domain, 28, ttl, 16);
    lemma_stands_split(data, pos, head, segments_wire(addr));
    lemma_head_stands(data, pos, domain, 28, ttl, 16);
    lemma_segments_stand(data, pos + head.len(), addr);
}

/// Where an NS record stands, it is read.
pub proof fn lemma_ns_stands(data: Seq<u8>, pos: int, domain: Seq<char>, host: Seq<char>, ttl: u32)
    requires
        canonical(domain),
        canonical(host),
        stands(data, pos, named_wire(domain, 2, ttl, None, host)),
    ensures
        record_at(data, pos) == Ok::<(RecordView, int), BufferError>(
            (RecordView::NS { domain, host, ttl }, pos + named_wire(domain, 2, ttl, None, host).len()),
        ),
{
    let head = record_head(domain, 2, ttl, plain_name(host).len() as int);
    lemma_stands_split(data, pos, head, plain_name(host));
    lemma_head_stands(data, pos, domain, 2, ttl, plain_name(host).len() as int);
    lemma_name_stands(data, pos + head.len(), host);
}

/// Where a CNAME record stands, it is read.
pub proof fn lemma_cname_stands(
    data: Seq<u8>,
    pos: int,
    domain: Seq<char>,
    host: Seq<char>,
    ttl: u32,
)
    requires
        canonical(domain),
        canonical(host),
        stands(data, pos, named_wire(domain, 5, ttl, None, host)),
    ensures
        record_at(data, pos) == Ok::<(RecordView, int), BufferError>(
            (
                RecordView::CNAME { domain, host, ttl },
                pos + named_wire(domain, 5, ttl, None, host).len(),
            ),
        ),
{
    let head = record_head(domain, 5, ttl, plain_name(host).len() as int);
    lemma_stands_split(data, pos, head, plain_name(host));
    lemma_head_stands(data, pos, domain, 5, ttl, plain_name(host).len() as int);
    lemma_name_stands(data, pos + head.len(), host);
}

/// Where an MX record stands, it is read.
pub proof fn lemma_mx_stands(
    data: Seq<u8>,
    pos: int,
    domain: Seq<char>,
    priority: u16,
    host: Seq<char>,
    ttl: u32,
)
    requires
        canonical(domain),
        canonical(host),
        stands(data, pos, named_wire(domain, 15, ttl, Some(priority), host)),
    ensures
        record_at(data, pos) == Ok::<(RecordView, int), BufferError>(
            (
                RecordView::MX { domain, priority, host, ttl },
                pos + named_wire(domain, 15, ttl, Some(priority), host).len(),
            ),
        ),
{
    let head = record_head(domain, 15, ttl, 2 + plain_name(host).len() as int);
    lemma_stands_split(data, pos, head + u16_bytes(priority), plain_name(host));
    lemma_stands_split(data, pos, head, u16_bytes(priority));
    lemma_head_stands(data, pos, domain, 15, ttl, 2 + plain_name(host).len() as int);
    lemma_word_stands(data, pos + head.len(), priority);
    lemma_name_stands(data, pos + head.len() + 2, host);
}

/// Where a canonical record stands, it is read, and the reader ends behind
/// it.
pub proof fn lemma_record_stands(data: Seq<u8>, pos: int, r: RecordView)
    requires
        record_canonical(r),
        stands(data, pos, record_wire(r)),
    ensures
        record_at(data, pos) == Ok::<(RecordView, int), BufferError>(
            (r, pos + record_wire(r).len()),
        ),
{
    match r {
        RecordView::UNKNOWN { .. } => {},
        RecordView::A { domain, addr, ttl } => {
            lemma_a_stands(data, pos, domain, addr, ttl);
        },
        RecordView::NS { domain, host, ttl } => {
            lemma_ns_stands(data, pos, domain, host, ttl);
        },
        RecordView::CNAME { domain, host, ttl } => {
            lemma_cname_stands(data, pos, domain, host, ttl);
        },
        RecordView::MX { domain, priority, host, ttl } => {
            lemma_mx_stands(data, pos, domain, priority, host, ttl);
        },
        RecordView::AAAA { domain, addr, ttl } => {
            lemma_aaaa_stands(data, pos, domain, addr, ttl);
        },
    }
}

/// Where the records of a section stand, the first of them stand too.
pub proof fn lemma_first_records_stand(data: Seq<u8>, pos: int, records: Seq<RecordView>, n: int)
    requires
        0 <= n <= records.len(),
        stands(data, pos, records_wire(records)),
    ensures
        stands(data, pos, records_wire(records.take(n))),
    decreases records.len() - n,
{
    if n == records.len() {
        assert(records.take(n) =~= records);
    } else {
        lemma_first_records_stand(data, pos, records, n + 1);
        assert(records.take(n + 1).drop_last() =~= records.take(n));
        lemma_stands_split(
            data,
            pos,
            records_wire(records.take(n)),
            record_wire(records.take(n + 1).last()),
        );
    }
}

/// Where canonical records stand one after another, the first `n` of them
/// are read, and the reader ends behind them.
pub proof fn lemma_records_stand(data: Seq<u8>, pos: int, records: Seq<RecordView>, n: nat)
    requires
        n <= records.len(),
        forall|i: int| 0 <= i < records.len() ==> record_canonical(#[trigger] records[i]),
        stands(data, pos, records_wire(records)),
    ensures
        records_at(data, pos, n) == Ok::<(Seq<RecordView>, int), BufferError>(
            (records.take(n as int), pos + records_wire(records.take(n as int)).len()),
        ),
    decreases n,
{
    if n == 0 {
        assert(records.take(0) =~= Seq::<RecordView>::empty());
    } else {
        let before = records.take(n - 1);
        let upto = records.take(n as int);
        let last = records[n - 1];
        lemma_records_stand(data, pos, records, (n - 1) as nat);
        lemma_first_records_stand(data, pos, records, n as int);
        assert(upto.drop_last() =~= before);
        assert(upto.last() == last);
        lemma_stands_split(data, pos, records_wire(before), record_wire(last));
        lemma_record_stands(data, pos + records_wire(before).len(), last);
        assert(before.push(last) =~= upto);
    }
}

/// Where the questions of a message stand, the first of them stand too.
pub proof fn lemma_first_questions_stand(
    data: Seq<u8>,
    pos: int,
    questions: Seq<QuestionView>,
    n: int,
)
    requires
        0 <= n <= questions.len(),
        stands(data, pos, questions_wire(questions)),
    ensures
        stands(data, pos, questions_wire(questions.take(n))),
    decreases questions.len() - n,
{
    if n == questions.len() {
        assert(questions.take(n) =~= questions);
    } else {
        lemma_first_questions_stand(data, pos, questions, n + 1);
        assert(questions.take(n + 1).drop_last() =~= questions.take(n));
        lemma_stands_split(
            data,
            pos,
            questions_wire(questions.take(n)),
            question_wire(questions.take(n + 1).last()),
        );
    }
}

/// Where canonical questions stand one after another, the first `n` of
/// them are read, and the reader ends behind them.
pub proof fn lemma_questions_stand(data: Seq<u8>, pos: int, questions: Seq<QuestionView>, n: nat)
    requires
        n <= questions.len(),
        forall|i: int| 0 <= i < questions.len() ==> question_canonical(#[trigger] questions[i]),
        stands(data, pos, questions_wire(questions)),
    ensures
        questions_at(data, pos, n) == Ok::<(Seq<QuestionView>, int), BufferError>(
            (questions.take(n as int), pos + questions_wire(questions.take(n as int)).len()),
        ),
    decreases n,
{
    if n == 0 {
        assert(questions.take(0) =~= Seq::<QuestionView>::empty());
    } else {
        let before = questions.take(n - 1);
        let upto = questions.take(n as int);
        let last = questions[n - 1];
        lemma_questions_stand(data, pos, questions, (n - 1) as nat);
        lemma_first_questions_stand(data, pos, questions, n as int);
        assert(upto.drop_last() =~= before);
        assert(upto.last() == last);
        lemma_stands_split(data, pos, questions_wire(before), question_wire(last));
        lemma_question_stands(data, pos + questions_wire(before).len(), last);
        assert(before.push(last) =~= upto);
    }
}

/// Whether a message is read back as it is written: its opcode has four
/// bits, and its questions and records are canonical.
pub open spec fn packet_canonical(p: PacketView) -> bool {
    &&& p.header.opcode < 16
    &&& forall|i: int| 0 <= i < p.questions.len() ==> question_canonical(#[trigger] p.questions[i])
    &&& forall|i: int| 0 <= i < p.answers.len() ==> record_canonical(#[trigger] p.answers[i])
    &&& forall|i: int| 0 <= i < p.authorities.len() ==> record_canonical(#[trigger] p.authorities[i])
    &&& forall|i: int| 0 <= i < p.resources.len() ==> record_canonical(#[trigger] p.resources[i])
}

/// Where the four sections of a canonical message stand, they are read
/// one after another, and the reader ends behind them.
pub proof fn lemma_sections_stand(data: Seq<u8>, pos: int, p: PacketView)
    requires
        packet_canonical(p),
        stands(data, pos, sections_wire(p)),
    ensures
        ({
            let p1 = pos + questions_wire(p.questions).len();
            let p2 = p1 + records_wire(p.answers).len();
            let p3 = p2 + records_wire(p.authorities).len();
            let p4 = p3 + records_wire(p.resources).len();
            &&& questions_at(data, pos, p.questions.len()) == Ok::<
                (Seq<QuestionView>, int),
                BufferError,
            >((p.questions, p1))
            &&& records_at(data, p1, p.answers.len()) == Ok::<(Seq<RecordView>, int), BufferError>(
                (p.answers, p2),
            )
            &&& records_at(data, p2, p.authorities.len()) == Ok::<
                (Seq<RecordView>, int),
                BufferError,
            >((p.authorities, p3))
            &&& records_at(data, p3, p.resources.len()) == Ok::<
                (Seq<RecordView>, int),
                BufferError,
            >((p.resources, p4))
            &&& p4 == pos + sections_wire(p).len()
        }),
{
    reveal(sections_wire);
    let q = questions_wire(p.questions);
    let an = records_wire(p.answers);
    let ns = records_wire(p.authorities);
    let ar = records_wire(p.resources);
    lemma_stands_split(data, pos, q + an + ns, ar);
    lemma_stands_split(data, pos, q + an, ns);
    lemma_stands_split(data, pos, q, an);
    lemma_questions_stand(data, pos, p.questions, p.questions.len());
    assert(p.questions.take(p.questions.len() as int) =~= p.questions);
    let p1 = pos + q.len();
    lemma_records_stand(data, p1, p.answers, p.answers.len());
    assert(p.answers.take(p.answers.len() as int) =~= p.answers);
    let p2 = p1 + an.len();
    lemma_records_stand(data, p2, p.authorities, p.authorities.len());
    assert(p.authorities.take(p.authorities.len() as int) =~= p.authorities);
    let p3 = p2 + ns.len();
    lemma_records_stand(data, p3, p.resources, p.resources.len());
    assert(p.resources.take(p.resources.len() as int) =~= p.resources);
}

/// Message round trip. Where a canonical message stands as it was written,
/// with its counts set, that message is read, and the reader ends behind
/// it.
pub proof fn lemma_packet_stands(data: Seq<u8>, pos: int, p: PacketView)
    requires
        countable(p),
        packet_canonical(p),
        stands(data, pos, packet_wire(counted(p))),
    ensures
        packet_at(data, pos) == Ok::<(PacketView, int), BufferError>(
            (counted(p), pos + packet_wire(counted(p)).len()),
        ),
{
    let c = counted(p);
    let head = header_wire(c.header);
    assert(head.len() == 12);
    lemma_stands_split(data, pos, head, sections_wire(c));
    lemma_header_round_trip(c.header, data, pos);
    lemma_sections_stand(data, pos + 12, c);
}

/// Header counts match sections. Where a message stands as it was
/// written, whatever its names and records are, the header that is read
/// there announces as many questions, answers, authorities and additional
/// records as the message has.
pub proof fn lemma_counts_match_sections(data: Seq<u8>, pos: int, p: PacketView)
    requires
        countable(p),
        stands(data, pos, packet_wire(counted(p))),
    ensures
        header_at(data, pos) is Ok,
        header_at(data, pos)->Ok_0.questions == p.questions.len(),
        header_at(data, pos)->Ok_0.answers == p.answers.len(),
        header_at(data, pos)->Ok_0.authoritative_entries == p.authorities.len(),
        header_at(data, pos)->Ok_0.resource_entries == p.resources.len(),
{
    let c = counted(p);
    assert(header_wire(c.header).len() == 12);
    lemma_stands_split(data, pos, header_wire(c.header), sections_wire(c));
    lemma_header_counts(c.header, data, pos);
}

/// A canonical record can be written.
pub proof fn lemma_canonical_record_writable(r: RecordView)
    requires
        record_canonical(r),
    ensures
        record_writable(r),
{
    match r {
        RecordView::UNKNOWN { .. } => {},
        RecordView::A { domain, .. } => {
            lemma_proper_is_valid(encode_utf8(domain), 0);
        },
        RecordView::NS { domain, host, .. } => {
            lemma_proper_is_valid(encode_utf8(domain), 0);
            lemma_proper_is_valid(encode_utf8(host), 0);
        },
        RecordView::CNAME { domain, host, .. } => {
            lemma_proper_is_valid(encode_utf8(domain), 0);
            lemma_proper_is_valid(encode_utf8(host), 0);
        },
        RecordView::MX { domain, host, .. } => {
            lemma_proper_is_valid(encode_utf8(domain), 0);
            lemma_proper_is_valid(encode_utf8(host), 0);
        },
        RecordView::AAAA { domain, .. } => {
            lemma_proper_is_valid(encode_utf8(domain), 0);
        },
    }
}

/// A canonical message that fits behind the cursor of a fixed buffer can be
/// written there, and where it was written it is read back as it is,
/// with its counts set.
pub proof fn lemma_written_packet_reads(m: BufferView, p: PacketView)
    requires
        countable(p),
        packet_canonical(p),
        m.cursor + packet_wire(counted(p)).len() <= m.contents.len(),
    ensures
        packet_writable(p),
        packet_at(laid(m, packet_wire(counted(p))).contents, m.cursor as int) == Ok::<
            (PacketView, int),
            BufferError,
        >((counted(p), m.cursor + packet_wire(counted(p)).len())),
{
    let wire = packet_wire(counted(p));
    lemma_laid_stands(m, wire);
    lemma_packet_stands(laid(m, wire).contents, m.cursor as int, p);
    assert forall|i: int| 0 <= i < p.questions.len() implies valid_labels(
        encode_utf8(#[trigger] p.questions[i].name),
        0,
    ) by {
        lemma_proper_is_valid(encode_utf8(p.questions[i].name), 0);
    }
    assert forall|i: int| 0 <= i < p.answers.len() implies record_writable(
        #[trigger] p.answers[i],
    ) by {
        lemma_canonical_record_writable(p.answers[i]);
    }
    assert forall|i: int| 0 <= i < p.authorities.len() implies record_writable(
        #[trigger] p.authorities[i],
    ) by {
        lemma_canonical_record_writable(p.authorities[i]);
    }
    assert forall|i: int| 0 <= i < p.resources.len() implies record_writable(
        #[trigger] p.resources[i],
    ) by {
        lemma_canonical_record_writable(p.resources[i]);
    }
}

} // verus!
