//! Resource records: what the answer, authority and additional sections of
//! a message are made of.

use crate::address::{Ipv4, Ipv6};
use crate::buffer::{dword, u16_bytes, u32_bytes, word, BufferView, BytePacketBuffer, PacketBuffer};
use crate::error::BufferError;
use crate::name::{name_text, walk_name, MAX_JUMPS};
use crate::query_type::QueryType;
use crate::wire::{
    laid, lay_name, lay_u16, lay_u32, lay_u8, lemma_name_wire_len, lemma_patch_fixed, name_wire,
    valid_labels, writable,
};
use vstd::prelude::*;
use vstd::utf8::encode_utf8;

verus! {

/// One resource record. What a record of a type that is not understood
/// carried is not kept, only how long it was.
#[allow(non_camel_case_types)]
#[allow(inconsistent_fields)]
#[derive(Debug, Clone, PartialEq, Eq)]
pub enum DnsRecord {
    UNKNOWN { domain: String, qtype: u16, data_len: u16, ttl: u32 },
    A { domain: String, addr: Ipv4, ttl: u32 },
    NS { domain: String, host: String, ttl: u32 },
    CNAME { domain: String, host: String, ttl: u32 },
    MX { domain: String, priority: u16, host: String, ttl: u32 },
    AAAA { domain: String, addr: Ipv6, ttl: u32 },
}

/// A record as a value: names as sequences of characters, addresses as
/// sequences of numbers.
#[allow(non_camel_case_types)]
#[allow(inconsistent_fields)]
pub enum RecordView {
    UNKNOWN { domain: Seq<char>, qtype: u16, data_len: u16, ttl: u32 },
    A { domain: Seq<char>, addr: Seq<u8>, ttl: u32 },
    NS { domain: Seq<char>, host: Seq<char>, ttl: u32 },
    CNAME { domain: Seq<char>, host: Seq<char>, ttl: u32 },
    MX { domain: Seq<char>, priority: u16, host: Seq<char>, ttl: u32 },
    AAAA { domain: Seq<char>, addr: Seq<u16>, ttl: u32 },
}

impl View for DnsRecord {
    type V = RecordView;

    open spec fn view(&self) -> RecordView {
        match *self {
            DnsRecord::UNKNOWN { domain, qtype, data_len, ttl } => RecordView::UNKNOWN {
                domain: domain@,
                qtype,
                data_len,
                ttl,
            },
            DnsRecord::A { domain, addr, ttl } => RecordView::A { domain: domain@, addr: addr@, ttl },
            DnsRecord::NS { domain, host, ttl } => RecordView::NS {
                domain: domain@,
                host: host@,
                ttl,
            },
            DnsRecord::CNAME { domain, host, ttl } => RecordView::CNAME {
                domain: domain@,
                host: host@,
                ttl,
            },
            DnsRecord::MX { domain, priority, host, ttl } => RecordView::MX {
                domain: domain@,
                priority,
                host: host@,
                ttl,
            },
            DnsRecord::AAAA { domain, addr, ttl } => RecordView::AAAA {
                domain: domain@,
                addr: addr@,
                ttl,
            },
        }
    }
}

/// A name in text as it stands on the wire when nothing is compressed.
pub open spec fn plain_name(name: Seq<char>) -> Seq<u8> {
    name_wire(encode_utf8(name), 0)
}

/// What stands before the data of a record: its name, type, class IN, time
/// to live, and the length of the data.
pub open spec fn record_head(domain: Seq<char>, qtype: u16, ttl: u32, data_len: int) -> Seq<u8> {
    plain_name(domain) + u16_bytes(qtype) + u16_bytes(1) + u32_bytes(ttl) + u16_bytes(
        data_len as u16,
    )
}

/// The eight groups of an IPv6 address on the wire.
pub open spec fn segments_wire(addr: Seq<u16>) -> Seq<u8> {
    u16_bytes(addr[0]) + u16_bytes(addr[1]) + u16_bytes(addr[2]) + u16_bytes(addr[3]) + u16_bytes(
        addr[4],
    ) + u16_bytes(addr[5]) + u16_bytes(addr[6]) + u16_bytes(addr[7])
}

/// A record on the wire. A record of a type that is not understood is not
/// written at all.
pub open spec fn record_wire(r: RecordView) -> Seq<u8> {
    match r {
        RecordView::UNKNOWN { .. } => Seq::empty(),
        RecordView::A { domain, addr, ttl } => record_head(domain, 1, ttl, 4) + addr,
        RecordView::NS { domain, host, ttl } => record_head(
            domain,
            2,
            ttl,
            plain_name(host).len() as int,
        ) + plain_name(host),
        RecordView::CNAME { domain, host, ttl } => record_head(
            domain,
            5,
            ttl,
            plain_name(host).len() as int,
        ) + plain_name(host),
        RecordView::MX { domain, priority, host, ttl } => record_head(
            domain,
            15,
            ttl,
            2 + plain_name(host).len() as int,
        ) + u16_bytes(priority) + plain_name(host),
        RecordView::AAAA { domain, addr, ttl } => record_head(domain, 28, ttl, 16) + segments_wire(
            addr,
        ),
    }
}

/// Whether every name of a record has only labels that can be written.
pub open spec fn record_writable(r: RecordView) -> bool {
    match r {
        RecordView::UNKNOWN { .. } => true,
        RecordView::A { domain, .. } => valid_labels(encode_utf8(domain), 0),
        RecordView::NS { domain, host, .. } => valid_labels(encode_utf8(domain), 0) && valid_labels(
            encode_utf8(host),
            0,
        ),
        RecordView::CNAME { domain, host, .. } => valid_labels(encode_utf8(domain), 0)
            && valid_labels(encode_utf8(host), 0),
        RecordView::MX { domain, host, .. } => valid_labels(encode_utf8(domain), 0) && valid_labels(
            encode_utf8(host),
            0,
        ),
        RecordView::AAAA { domain, .. } => valid_labels(encode_utf8(domain), 0),
    }
}

/// The data of a record of type `qtype` that stands at `body`, made into a
/// record with what stood before it, and where the next thing stands. The
/// announced length `data_len` counts only for a type that is not
/// understood, whose data is skipped.
pub open spec fn rdata_at(
    data: Seq<u8>,
    domain: Seq<char>,
    qtype: u16,
    ttl: u32,
    data_len: u16,
    body: int,
) -> Result<(RecordView, int), BufferError> {
    match QueryType::of_num(qtype) {
        QueryType::A => if body + 4 <= data.len() {
            Ok((RecordView::A { domain, addr: data.subrange(body, body + 4), ttl }, body + 4))
        } else {
            Err(BufferError::EndOfBuffer)
        },
        QueryType::AAAA => if body + 16 <= data.len() {
            Ok(
                (
                    RecordView::AAAA {
                        domain,
                        addr: Seq::new(8, |i: int| word(data, body + 2 * i)),
                        ttl,
                    },
                    body + 16,
                ),
            )
        } else {
            Err(BufferError::EndOfBuffer)
        },
        QueryType::NS => match walk_name(data, body, MAX_JUMPS as nat) {
            Ok(h) => Ok((RecordView::NS { domain, host: name_text(h.labels), ttl }, h.next)),
            Err(e) => Err(e),
        },
        QueryType::CNAME => match walk_name(data, body, MAX_JUMPS as nat) {
            Ok(h) => Ok((RecordView::CNAME { domain, host: name_text(h.labels), ttl }, h.next)),
            Err(e) => Err(e),
        },
        QueryType::MX => if body + 2 <= data.len() {
            match walk_name(data, body + 2, MAX_JUMPS as nat) {
                Ok(h) => Ok(
                    (
                        RecordView::MX {
                            domain,
                            priority: word(data, body),
                            host: name_text(h.labels),
                            ttl,
                        },
                        h.next,
                    ),
                ),
                Err(e) => Err(e),
            }
        } else {
            Err(BufferError::EndOfBuffer)
        },
        QueryType::UNKNOWN(_) => Ok(
            (RecordView::UNKNOWN { domain, qtype, data_len, ttl }, body + data_len),
        ),
    }
}

/// The record that stands at `pos`, and where the next thing stands: a
/// name, a type, a class that is skipped, a time to live, the length of
/// the data, and the data.
pub open spec fn record_at(data: Seq<u8>, pos: int) -> Result<(RecordView, int), BufferError> {
    match walk_name(data, pos, MAX_JUMPS as nat) {
        Err(e) => Err(e),
        Ok(n) => if 0 <= n.next && n.next + 10 <= data.len() {
            rdata_at(
                data,
                name_text(n.labels),
                word(data, n.next),
                dword(data, n.next + 4),
                word(data, n.next + 8),
                n.next + 10,
            )
        } else {
            Err(BufferError::EndOfBuffer)
        },
    }
}

/// Replaces two of the bytes `done` that were laid down in a fixed buffer
/// from `m` on: those at `k` and behind it.
fn relay_u16(
    buffer: &mut BytePacketBuffer,
    pos: usize,
    val: u16,
    Ghost(m): Ghost<BufferView>,
    Ghost(done): Ghost<Seq<u8>>,
    Ghost(k): Ghost<int>,
) -> (r: Result<(), BufferError>)
    requires
        old(buffer)@ == laid(m, done),
        m.cursor + done.len() <= m.contents.len() <= usize::MAX,
        0 <= k,
        k + 2 <= done.len(),
        pos == m.cursor + k,
    ensures
        r is Ok,
        final(buffer)@ == laid(
            m,
            done.subrange(0, k) + u16_bytes(val) + done.subrange(k + 2, done.len() as int),
        ),
{
    proof {
        let hi = (val / 256) as u8;
        let lo = (val % 256) as u8;
        assert(u16_bytes(val) =~= seq![hi, lo]);
        lemma_patch_fixed(m, done, k, hi, lo);
        assert(done.update(k, hi).update(k + 1, lo) =~= done.subrange(0, k) + u16_bytes(val)
            + done.subrange(k + 2, done.len() as int));
    }
    buffer.set_u16(pos, val)
}

impl DnsRecord {
    /// Reads the record at the cursor.
    pub fn read(buffer: &mut BytePacketBuffer) -> (r: Result<DnsRecord, BufferError>)
        ensures
            final(buffer).buf == old(buffer).buf,
            match record_at(old(buffer)@.contents, old(buffer)@.cursor as int) {
                Ok((v, next)) => r matches Ok(rec) && rec@ == v && final(buffer)@.cursor == next,
                Err(e) => r matches Err(x) && x == e,
            },
    {
        let ghost data = buffer@.contents;
        let mut domain = String::new();
        buffer.read_qname(&mut domain)?;
        assert(domain@ =~= name_text(walk_name(data, old(buffer)@.cursor as int, MAX_JUMPS as nat)->Ok_0.labels));
        let qtype_num: u16 = buffer.read_u16()?;
        let _ = buffer.read_u16()?;
        let ttl: u32 = buffer.read_u32()?;
        let data_len: u16 = buffer.read_u16()?;
        let ghost body = buffer@.cursor as int;
        match QueryType::from_num(qtype_num) {
            QueryType::A => {
                let a: u8 = buffer.read()?;
                let b: u8 = buffer.read()?;
                let c: u8 = buffer.read()?;
                let d: u8 = buffer.read()?;
                let addr = Ipv4::new(a, b, c, d);
                assert(addr@ =~= data.subrange(body, body + 4));
                Ok(DnsRecord::A { domain, addr, ttl })
            },
            QueryType::AAAA => {
                let a: u16 = buffer.read_u16()?;
                let b: u16 = buffer.read_u16()?;
                let c: u16 = buffer.read_u16()?;
                let d: u16 = buffer.read_u16()?;
                let e: u16 = buffer.read_u16()?;
                let f: u16 = buffer.read_u16()?;
                let g: u16 = buffer.read_u16()?;
                let h: u16 = buffer.read_u16()?;
                let addr = Ipv6::new(a, b, c, d, e, f, g, h);
                assert(addr@ =~= Seq::new(8, |i: int| word(data, body + 2 * i)));
                Ok(DnsRecord::AAAA { domain, addr, ttl })
            },
            QueryType::NS => {
                let mut host = String::new();
                buffer.read_qname(&mut host)?;
                assert(host@ =~= name_text(walk_name(data, body, MAX_JUMPS as nat)->Ok_0.labels));
                Ok(DnsRecord::NS { domain, host, ttl })
            },
            QueryType::CNAME => {
                let mut host = String::new();
                buffer.read_qname(&mut host)?;
                assert(host@ =~= name_text(walk_name(data, body, MAX_JUMPS as nat)->Ok_0.labels));
                Ok(DnsRecord::CNAME { domain, host, ttl })
            },
            QueryType::MX => {
                let priority: u16 = buffer.read_u16()?;
                let mut host = String::new();
                buffer.read_qname(&mut host)?;
                assert(host@ =~= name_text(
                    walk_name(data, body + 2, MAX_JUMPS as nat)->Ok_0.labels,
                ));
                Ok(DnsRecord::MX { domain, priority, host, ttl })
            },
            QueryType::UNKNOWN(_) => {
                buffer.step(data_len as usize)?;
                Ok(DnsRecord::UNKNOWN { domain, qtype: qtype_num, data_len, ttl })
            },
        }
    }

    /// Whether every name of the record has only labels that can be
    /// written.
    pub fn writable(&self) -> (r: bool)
        ensures
            r == record_writable(self@),
    {
        match self {
            DnsRecord::UNKNOWN { .. } => true,
            DnsRecord::A { domain, .. } => writable(domain.as_str()),
            DnsRecord::NS { domain, host, .. } => writable(domain.as_str()) && writable(
                host.as_str(),
            ),
            DnsRecord::CNAME { domain, host, .. } => writable(domain.as_str()) && writable(
                host.as_str(),
            ),
            DnsRecord::MX { domain, host, .. } => writable(domain.as_str()) && writable(
                host.as_str(),
            ),
            DnsRecord::AAAA { domain, .. } => writable(domain.as_str()),
        }
    }

    /// Writes what stands before the data of a record, with `data_len` as
    /// the length of the data.
    fn lay_head(
        buffer: &mut BytePacketBuffer,
        domain: &str,
        qtype: u16,
        ttl: u32,
        data_len: u16,
        Ghost(m): Ghost<BufferView>,
        Ghost(done): Ghost<Seq<u8>>,
    ) -> (r: Result<(), BufferError>)
        requires
            old(buffer)@ == laid(m, done),
            m.cursor + done.len() <= m.contents.len() == 512,
            valid_labels(encode_utf8(domain@), 0),
        ensures
            m.cursor + done.len() + record_head(domain@, qtype, ttl, data_len as int).len() <= 512
                ==> r is Ok && final(buffer)@ == laid(
                m,
                done + record_head(domain@, qtype, ttl, data_len as int),
            ),
            m.cursor + done.len() + record_head(domain@, qtype, ttl, data_len as int).len() > 512
                ==> r == Err::<(), BufferError>(BufferError::EndOfBuffer),
    {
        let ghost w1 = done + plain_name(domain@);
        let ghost w2 = w1 + u16_bytes(qtype);
        let ghost w3 = w2 + u16_bytes(1);
        let ghost w4 = w3 + u32_bytes(ttl);
        lay_name(buffer, domain, Ghost(m), Ghost(done))?;
        lay_u16(buffer, qtype, Ghost(m), Ghost(w1))?;
        lay_u16(buffer, 1, Ghost(m), Ghost(w2))?;
        lay_u32(buffer, ttl, Ghost(m), Ghost(w3))?;
        lay_u16(buffer, data_len, Ghost(m), Ghost(w4))?;
        assert(w4 + u16_bytes(data_len) =~= done + record_head(domain@, qtype, ttl, data_len as int));
        Ok(())
    }

    /// Writes a record whose data ends in a name: the length of the data
    /// is left open, the data is written, and the length is filled in.
    fn lay_named(
        buffer: &mut BytePacketBuffer,
        domain: &str,
        qtype: u16,
        ttl: u32,
        priority: Option<u16>,
        host: &str,
        Ghost(m): Ghost<BufferView>,
        Ghost(done): Ghost<Seq<u8>>,
    ) -> (r: Result<(), BufferError>)
        requires
            old(buffer)@ == laid(m, done),
            m.cursor + done.len() <= m.contents.len() == 512,
            valid_labels(encode_utf8(domain@), 0),
            valid_labels(encode_utf8(host@), 0),
        ensures
            m.cursor + done.len() + named_wire(domain@, qtype, ttl, priority, host@).len() <= 512
                ==> r is Ok && final(buffer)@ == laid(
                m,
                done + named_wire(domain@, qtype, ttl, priority, host@),
            ),
            m.cursor + done.len() + named_wire(domain@, qtype, ttl, priority, host@).len() > 512
                ==> r == Err::<(), BufferError>(BufferError::EndOfBuffer),
    {
        let ghost head = record_head(domain@, qtype, ttl, 0);
        let ghost prio = match priority {
            Some(p) => u16_bytes(p),
            None => Seq::<u8>::empty(),
        };
        let ghost target = plain_name(host@);
        proof {
            lemma_name_wire_len(encode_utf8(host@), 0);
            lemma_name_wire_len(encode_utf8(domain@), 0);
        }
        DnsRecord::lay_head(buffer, domain, qtype, ttl, 0, Ghost(m), Ghost(done))?;
        let body: usize = buffer.pos();
        if let Some(p) = priority {
            lay_u16(buffer, p, Ghost(m), Ghost(done + head))?;
        }
        assert(done + head + prio =~= if priority is Some {
            done + head + u16_bytes(priority->Some_0)
        } else {
            done + head
        });
        lay_name(buffer, host, Ghost(m), Ghost(done + head + prio))?;
        let size: usize = buffer.pos() - body;
        let ghost all = done + head + prio + target;
        let ghost k = done.len() + head.len() - 2;
        relay_u16(buffer, body - 2, size as u16, Ghost(m), Ghost(all), Ghost(k))?;
        proof {
            let sized = record_head(domain@, qtype, ttl, size as int);
            assert(head.subrange(0, head.len() - 2) =~= sized.subrange(0, sized.len() - 2));
            assert(sized =~= sized.subrange(0, sized.len() - 2) + u16_bytes(size as u16));
            assert(all.subrange(0, k) + u16_bytes(size as u16) + all.subrange(
                k + 2,
                all.len() as int,
            ) =~= done + sized + prio + target);
            assert(done + sized + prio + target =~= done + named_wire(
                domain@,
                qtype,
                ttl,
                priority,
                host@,
            ));
        }
        Ok(())
    }

    /// Writes the record behind the bytes `done` that were laid down in
    /// the buffer from `m` on.
    pub(crate) fn lay(
        &self,
        buffer: &mut BytePacketBuffer,
        Ghost(m): Ghost<BufferView>,
        Ghost(done): Ghost<Seq<u8>>,
    ) -> (r: Result<(), BufferError>)
        requires
            old(buffer)@ == laid(m, done),
            m.cursor + done.len() <= m.contents.len() == 512,
            record_writable(self@),
        ensures
            m.cursor + done.len() + record_wire(self@).len() <= 512 ==> r is Ok
                && final(buffer)@ == laid(m, done + record_wire(self@)),
            m.cursor + done.len() + record_wire(self@).len() > 512 ==> r == Err::<(), BufferError>(
                BufferError::EndOfBuffer,
            ),
    {
        match self {
            DnsRecord::UNKNOWN { .. } => {
                assert(done + record_wire(self@) =~= done);
                Ok(())
            },
            DnsRecord::A { domain, addr, ttl } => {
                let ghost w0 = done + record_head(domain@, 1, *ttl, 4);
                let ghost w1 = w0 + seq![addr@[0]];
                let ghost w2 = w1 + seq![addr@[1]];
                let ghost w3 = w2 + seq![addr@[2]];
                DnsRecord::lay_head(buffer, domain.as_str(), 1, *ttl, 4, Ghost(m), Ghost(done))?;
                lay_u8(buffer, addr.octets[0], Ghost(m), Ghost(w0))?;
                lay_u8(buffer, addr.octets[1], Ghost(m), Ghost(w1))?;
                lay_u8(buffer, addr.octets[2], Ghost(m), Ghost(w2))?;
                lay_u8(buffer, addr.octets[3], Ghost(m), Ghost(w3))?;
                assert(w3 + seq![addr@[3]] =~= done + record_wire(self@));
                Ok(())
            },
            DnsRecord::NS { domain, host, ttl } => {
                assert(named_wire(domain@, 2, *ttl, None, host@) =~= record_wire(self@));
                DnsRecord::lay_named(
                    buffer,
                    domain.as_str(),
                    2,
                    *ttl,
                    None,
                    host.as_str(),
                    Ghost(m),
                    Ghost(done),
                )
            },
            DnsRecord::CNAME { domain, host, ttl } => {
                assert(named_wire(domain@, 5, *ttl, None, host@) =~= record_wire(self@));
                DnsRecord::lay_named(
                    buffer,
                    domain.as_str(),
                    5,
                    *ttl,
                    None,
                    host.as_str(),
                    Ghost(m),
                    Ghost(done),
                )
            },
            DnsRecord::MX { domain, priority, host, ttl } => {
                assert(named_wire(domain@, 15, *ttl, Some(*priority), host@) =~= record_wire(
                    self@,
                ));
                DnsRecord::lay_named(
                    buffer,
                    domain.as_str(),
                    15,
                    *ttl,
                    Some(*priority),
                    host.as_str(),
                    Ghost(m),
                    Ghost(done),
                )
            },
            DnsRecord::AAAA { domain, addr, ttl } => {
                let ghost mut w = done + record_head(domain@, 28, *ttl, 16);
                DnsRecord::lay_head(buffer, domain.as_str(), 28, *ttl, 16, Ghost(m), Ghost(done))?;
                assert(segments_wire(addr@).len() == 16);
                assert(w + segments_upto(addr@, 0) =~= w);
                let mut i: usize = 0;
                while i < 8
                    invariant
                        i <= 8,
                        buffer@ == laid(m, w),
                        m.cursor + w.len() <= m.contents.len() == 512,
                        w == done + record_head(domain@, 28, *ttl, 16) + segments_upto(
                            addr@,
                            i as int,
                        ),
                        w.len() == done.len() + record_head(domain@, 28, *ttl, 16).len() + 2 * i,
                        record_wire(self@).len() == record_head(domain@, 28, *ttl, 16).len() + 16,
                        self@ == (RecordView::AAAA { domain: domain@, addr: addr@, ttl: *ttl }),
                    decreases 8 - i,
                {
                    lay_u16(buffer, addr.segments[i], Ghost(m), Ghost(w))?;
                    proof {
                        assert(w + u16_bytes(addr@[i as int]) =~= done + record_head(
                            domain@,
                            28,
                            *ttl,
                            16,
                        ) + segments_upto(addr@, i + 1));
                        w = w + u16_bytes(addr@[i as int]);
                    }
                    i += 1;
                }
                proof {
                    lemma_segments_all(addr@);
                    assert(w =~= done + record_wire(self@));
                }
                Ok(())
            },
        }
    }

    /// Writes the record at the cursor and returns how many bytes it took.
    /// A name with a label of more than 63 bytes is refused before anything
    /// is written. A record of a type that is not understood takes no
    /// bytes.
    pub fn write(&self, buffer: &mut BytePacketBuffer) -> (r: Result<usize, BufferError>)
        ensures
            !record_writable(self@) ==> r == Err::<usize, BufferError>(
                BufferError::InvalidLabelLength,
            ) && final(buffer)@ == old(buffer)@,
            record_writable(self@) && old(buffer)@.cursor + record_wire(self@).len() <= 512 ==> r
                == Ok::<usize, BufferError>(record_wire(self@).len() as usize) && final(buffer)@
                == laid(old(buffer)@, record_wire(self@)),
            record_writable(self@) && old(buffer)@.cursor + record_wire(self@).len() > 512 ==> r
                == Err::<usize, BufferError>(BufferError::EndOfBuffer),
    {
        if !self.writable() {
            return Err(BufferError::InvalidLabelLength);
        }
        let start: usize = buffer.pos();
        if start > 512 {
            return Err(BufferError::EndOfBuffer);
        }
        let ghost m = buffer@;
        assert(buffer@.contents =~= laid(m, Seq::empty()).contents);
        assert(Seq::<u8>::empty() + record_wire(self@) =~= record_wire(self@));
        self.lay(buffer, Ghost(m), Ghost(Seq::empty()))?;
        Ok(buffer.pos() - start)
    }
}

/// A record whose data ends in a name, on the wire: NS and CNAME, and MX
/// with its priority before the name.
pub open spec fn named_wire(
    domain: Seq<char>,
    qtype: u16,
    ttl: u32,
    priority: Option<u16>,
    host: Seq<char>,
) -> Seq<u8> {
    match priority {
        Some(p) => record_head(domain, qtype, ttl, 2 + plain_name(host).len() as int) + u16_bytes(p)
            + plain_name(host),
        None => record_head(domain, qtype, ttl, plain_name(host).len() as int) + plain_name(host),
    }
}

/// The first `n` groups of an IPv6 address on the wire.
pub open spec fn segments_upto(addr: Seq<u16>, n: int) -> Seq<u8>
    decreases n,
{
    if n <= 0 {
        Seq::empty()
    } else {
        segments_upto(addr, n - 1) + u16_bytes(addr[n - 1])
    }
}

/// The eight groups one after another are the address on the wire.
pub proof fn lemma_segments_all(addr: Seq<u16>)
    ensures
        segments_upto(addr, 8) == segments_wire(addr),
{
    reveal_with_fuel(segments_upto, 9);
    assert(segments_upto(addr, 8) =~= segments_wire(addr));
}

} // verus!
