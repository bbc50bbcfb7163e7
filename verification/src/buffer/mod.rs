//! Buffers for reading and writing DNS packets.
//!
//! A packet buffer is a run of bytes with a cursor. Three kinds share one
//! contract: a fixed one of 512 bytes for UDP datagrams, a growable one that
//! also remembers where names were written so that later names can point
//! back at them, and one that pulls its bytes from a source as they are
//! asked for.

mod byte_packet_buffer;
mod label_index;
mod stream_packet_buffer;
mod vector_packet_buffer;

pub use byte_packet_buffer::{BytePacketBuffer, PACKET_SIZE};
pub use label_index::{entries_map, same_bytes, LabelIndex};
pub use stream_packet_buffer::{ByteSource, StreamPacketBuffer};
pub use vector_packet_buffer::VectorPacketBuffer;

use crate::error::BufferError;
use crate::name::{
    graft, label_len, lemma_boundary_behind_ascii, lemma_graft_label, lemma_graft_pointer,
    name_text, push_label, walk_name, write_name, NameRead, DOT, MAX_JUMPS, MAX_LABEL,
};
use crate::wire::{lemma_put_first, lemma_put_one};
use vstd::prelude::*;
use vstd::string::StringSliceAdditionalSpecFns;

verus! {

/// How a buffer treats reads past its end, writes, and saved labels.
pub enum Discipline {
    /// Fixed capacity: writes overwrite in place, nothing is remembered.
    Fixed,
    /// Writes append at the end, and label offsets are remembered.
    Growable,
    /// Bytes are pulled from a source on demand; writes are refused.
    Streamed,
}

/// What a buffer is, mathematically: its bytes, its cursor, and the offsets
/// at which name suffixes were written.
pub struct BufferView {
    pub contents: Seq<u8>,
    pub cursor: usize,
    pub labels: Map<Seq<u8>, usize>,
}

/// The byte at `pos`, if the contents reach that far.
pub open spec fn byte_at(contents: Seq<u8>, pos: int) -> Result<u8, BufferError> {
    if 0 <= pos < contents.len() {
        Ok(contents[pos])
    } else {
        Err(BufferError::EndOfBuffer)
    }
}

/// How the contents may differ after a read that needs the bytes before
/// `upto`: a streamed buffer may have pulled more bytes behind those it had,
/// but no more than the read needs; the others are unchanged.
pub open spec fn fetched(d: Discipline, before: Seq<u8>, after: Seq<u8>, upto: int) -> bool {
    if d == Discipline::Streamed {
        before.is_prefix_of(after) && (after.len() <= before.len() || after.len() <= upto)
    } else {
        after == before
    }
}

/// How the contents may differ after any number of reads: a streamed
/// buffer may have pulled more bytes behind those it had; the others are
/// unchanged.
pub open spec fn grown(d: Discipline, before: Seq<u8>, after: Seq<u8>) -> bool {
    if d == Discipline::Streamed {
        before.is_prefix_of(after)
    } else {
        after == before
    }
}

/// The buffer after one byte is written at the cursor.
pub open spec fn put(d: Discipline, m: BufferView, v: u8) -> Result<BufferView, BufferError> {
    match d {
        Discipline::Fixed => if m.cursor < m.contents.len() && m.cursor < usize::MAX {
            Ok(
                BufferView {
                    contents: m.contents.update(m.cursor as int, v),
                    cursor: (m.cursor + 1) as usize,
                    labels: m.labels,
                },
            )
        } else {
            Err(BufferError::EndOfBuffer)
        },
        Discipline::Growable => if m.cursor < usize::MAX {
            Ok(
                BufferView {
                    contents: m.contents.push(v),
                    cursor: (m.cursor + 1) as usize,
                    labels: m.labels,
                },
            )
        } else {
            Err(BufferError::EndOfBuffer)
        },
        Discipline::Streamed => Err(BufferError::ReadOnly),
    }
}

/// The buffer after `bytes` are written one after another.
pub open spec fn put_all(d: Discipline, m: BufferView, bytes: Seq<u8>) -> Result<
    BufferView,
    BufferError,
>
    decreases bytes.len(),
{
    if bytes.len() == 0 {
        Ok(m)
    } else {
        match put(d, m, bytes[0]) {
            Ok(m1) => put_all(d, m1, bytes.drop_first()),
            Err(e) => Err(e),
        }
    }
}

/// The buffer after the byte at `pos` is replaced, cursor untouched.
pub open spec fn patch(d: Discipline, m: BufferView, pos: int, v: u8) -> Result<
    BufferView,
    BufferError,
> {
    if d == Discipline::Streamed {
        Err(BufferError::ReadOnly)
    } else if 0 <= pos < m.contents.len() {
        Ok(BufferView { contents: m.contents.update(pos, v), cursor: m.cursor, labels: m.labels })
    } else {
        Err(BufferError::EndOfBuffer)
    }
}

/// The buffer after the bytes from `pos` on are replaced by `bytes`.
pub open spec fn patch_all(d: Discipline, m: BufferView, pos: int, bytes: Seq<u8>) -> Result<
    BufferView,
    BufferError,
>
    decreases bytes.len(),
{
    if bytes.len() == 0 {
        Ok(m)
    } else {
        match patch(d, m, pos, bytes[0]) {
            Ok(m1) => patch_all(d, m1, pos + 1, bytes.drop_first()),
            Err(e) => Err(e),
        }
    }
}

/// The label index after `key` is saved at `pos`: only a growable buffer
/// remembers.
pub open spec fn remember(d: Discipline, labels: Map<Seq<u8>, usize>, key: Seq<u8>, pos: usize) -> Map<
    Seq<u8>,
    usize,
> {
    if d == Discipline::Growable {
        labels.insert(key, pos)
    } else {
        labels
    }
}

/// The offset saved for `key`, if any.
pub open spec fn recall(labels: Map<Seq<u8>, usize>, key: Seq<u8>) -> Option<usize> {
    if labels.contains_key(key) {
        Some(labels[key])
    } else {
        None
    }
}

/// The two bytes of `v`, most significant first.
pub open spec fn u16_bytes(v: u16) -> Seq<u8> {
    seq![(v / 256) as u8, (v % 256) as u8]
}

/// The four bytes of `v`, most significant first.
pub open spec fn u32_bytes(v: u32) -> Seq<u8> {
    seq![
        (v / 0x100_0000) as u8,
        (v / 0x1_0000 % 256) as u8,
        (v / 0x100 % 256) as u8,
        (v % 256) as u8,
    ]
}

/// The 16-bit number that the two bytes at `pos` stand for.
pub open spec fn word(data: Seq<u8>, pos: int) -> u16 {
    (data[pos] * 256 + data[pos + 1]) as u16
}

/// The 32-bit number that the four bytes at `pos` stand for.
pub open spec fn dword(data: Seq<u8>, pos: int) -> u32 {
    (data[pos] * 0x100_0000 + data[pos + 1] * 0x1_0000 + data[pos + 2] * 0x100 + data[pos + 3]) as u32
}

/// The 16-bit number at `pos`, if the contents reach that far.
pub open spec fn u16_at(contents: Seq<u8>, pos: int) -> Result<u16, BufferError> {
    if 0 <= pos && pos + 2 <= contents.len() {
        Ok(word(contents, pos))
    } else {
        Err(BufferError::EndOfBuffer)
    }
}

/// The 32-bit number at `pos`, if the contents reach that far.
pub open spec fn u32_at(contents: Seq<u8>, pos: int) -> Result<u32, BufferError> {
    if 0 <= pos && pos + 4 <= contents.len() {
        Ok(dword(contents, pos))
    } else {
        Err(BufferError::EndOfBuffer)
    }
}

/// A byte-oriented cursor over a DNS message.
pub trait PacketBuffer: View<V = BufferView> + Sized {
    /// Which of the three kinds of buffer this is.
    spec fn discipline() -> Discipline;

    /// Returns the byte at the cursor and moves the cursor past it.
    fn read(&mut self) -> (r: Result<u8, BufferError>)
        ensures
            fetched(
                Self::discipline(),
                old(self)@.contents,
                final(self)@.contents,
                old(self)@.cursor + 1,
            ),
            final(self)@.labels == old(self)@.labels,
            r == byte_at(final(self)@.contents, old(self)@.cursor as int),
            final(self)@.cursor == (if r is Ok {
                old(self)@.cursor + 1
            } else {
                old(self)@.cursor as int
            }),
    ;

    /// Returns the byte at `pos`; the cursor stays.
    fn get(&mut self, pos: usize) -> (r: Result<u8, BufferError>)
        ensures
            fetched(Self::discipline(), old(self)@.contents, final(self)@.contents, pos + 1),
            final(self)@.labels == old(self)@.labels,
            final(self)@.cursor == old(self)@.cursor,
            r == byte_at(final(self)@.contents, pos as int),
    ;

    /// Lends the `len` bytes from `start` on; the cursor stays.
    fn get_range(&mut self, start: usize, len: usize) -> (r: Result<&[u8], BufferError>)
        ensures
            fetched(Self::discipline(), old(self)@.contents, final(self)@.contents, start + len),
            final(self)@.labels == old(self)@.labels,
            final(self)@.cursor == old(self)@.cursor,
            start + len <= final(self)@.contents.len() ==> r is Ok,
            r matches Ok(s) ==> start + len <= final(self)@.contents.len() && s@
                == final(self)@.contents.subrange(start as int, start + len),
            r matches Err(e) ==> e == BufferError::EndOfBuffer,
    ;

    /// Writes one byte at the cursor and moves the cursor past it.
    fn write(&mut self, val: u8) -> (r: Result<(), BufferError>)
        ensures
            match put(Self::discipline(), old(self)@, val) {
                Ok(m) => r is Ok && final(self)@ == m,
                Err(e) => r == Err::<(), BufferError>(e) && final(self)@ == old(self)@,
            },
    ;

    /// Replaces the byte at `pos`; the cursor stays.
    fn set(&mut self, pos: usize, val: u8) -> (r: Result<(), BufferError>)
        ensures
            match patch(Self::discipline(), old(self)@, pos as int, val) {
                Ok(m) => r is Ok && final(self)@ == m,
                Err(e) => r == Err::<(), BufferError>(e) && final(self)@ == old(self)@,
            },
    ;

    /// The cursor.
    fn pos(&self) -> (r: usize)
        ensures
            r == self@.cursor,
    ;

    /// Moves the cursor to `pos`.
    fn seek(&mut self, pos: usize) -> (r: Result<(), BufferError>)
        ensures
            r is Ok,
            final(self)@ == (BufferView { cursor: pos, ..old(self)@ }),
    ;

    /// Moves the cursor `steps` bytes forward, unless that position cannot
    /// be represented.
    fn step(&mut self, steps: usize) -> (r: Result<(), BufferError>)
        ensures
            old(self)@.cursor + steps <= usize::MAX ==> r is Ok && final(self)@ == (BufferView {
                cursor: (old(self)@.cursor + steps) as usize,
                ..old(self)@
            }),
            old(self)@.cursor + steps > usize::MAX ==> r == Err::<(), BufferError>(
                BufferError::EndOfBuffer,
            ) && final(self)@ == old(self)@,
    ;

    /// The offset at which the name suffix `label` was saved, if it was.
    fn find_label(&self, label: &str) -> (r: Option<usize>)
        ensures
            r == recall(self@.labels, label.spec_bytes()),
    ;

    /// Remembers that the name suffix `label` stands at `pos`.
    fn save_label(&mut self, label: &str, pos: usize)
        ensures
            final(self)@ == (BufferView {
                labels: remember(Self::discipline(), old(self)@.labels, label.spec_bytes(), pos),
                ..old(self)@
            }),
    ;

    /// A buffer never holds more bytes than can be counted.
    proof fn lemma_contents_fit(&self)
        ensures
            self@.contents.len() <= usize::MAX,
    ;

    /// Writes one byte at the cursor.
    fn write_u8(&mut self, val: u8) -> (r: Result<(), BufferError>)
        ensures
            match put(Self::discipline(), old(self)@, val) {
                Ok(m) => r is Ok && final(self)@ == m,
                Err(e) => r == Err::<(), BufferError>(e) && final(self)@ == old(self)@,
            },
    {
        self.write(val)
    }

    /// Replaces the two bytes at `pos` by `val`, most significant byte
    /// first.
    fn set_u16(&mut self, pos: usize, val: u16) -> (r: Result<(), BufferError>)
        ensures
            match patch_all(Self::discipline(), old(self)@, pos as int, u16_bytes(val)) {
                Ok(m) => r is Ok && final(self)@ == m,
                Err(e) => r == Err::<(), BufferError>(e),
            },
    {
        proof {
            self.lemma_contents_fit();
            reveal_with_fuel(patch_all, 3);
            assert(u16_bytes(val).drop_first() =~= seq![(val % 256) as u8]);
            assert(u16_bytes(val).drop_first().drop_first() =~= Seq::<u8>::empty());
        }
        self.set(pos, (val / 256) as u8)?;
        self.set(pos + 1, (val % 256) as u8)?;
        Ok(())
    }

    /// Writes `val` at the cursor, most significant byte first.
    fn write_u16(&mut self, val: u16) -> (r: Result<(), BufferError>)
        ensures
            match put_all(Self::discipline(), old(self)@, u16_bytes(val)) {
                Ok(m) => r is Ok && final(self)@ == m,
                Err(e) => r == Err::<(), BufferError>(e),
            },
    {
        proof {
            let hi = (val / 256) as u8;
            let lo = (val % 256) as u8;
            assert(u16_bytes(val) =~= seq![hi] + seq![lo]);
            lemma_put_first(Self::discipline(), self@, hi, seq![lo]);
            if let Ok(m1) = put(Self::discipline(), self@, hi) {
                lemma_put_one(Self::discipline(), m1, lo);
            }
        }
        self.write((val / 256) as u8)?;
        self.write((val % 256) as u8)?;
        Ok(())
    }

    /// Writes `val` at the cursor, most significant byte first.
    fn write_u32(&mut self, val: u32) -> (r: Result<(), BufferError>)
        ensures
            match put_all(Self::discipline(), old(self)@, u32_bytes(val)) {
                Ok(m) => r is Ok && final(self)@ == m,
                Err(e) => r == Err::<(), BufferError>(e),
            },
    {
        proof {
            lemma_put_u32(Self::discipline(), self@, val);
        }
        self.write((val / 0x100_0000) as u8)?;
        self.write((val / 0x1_0000 % 256) as u8)?;
        self.write((val / 0x100 % 256) as u8)?;
        self.write((val % 256) as u8)?;
        Ok(())
    }

    /// Writes `qname`, a name in text with dots between its labels, at the
    /// cursor. A label of more than 63 bytes is refused.
    #[verifier::loop_isolation(false)]
    fn write_qname(&mut self, qname: &str) -> (r: Result<(), BufferError>)
        ensures
            match write_name(Self::discipline(), old(self)@, qname.spec_bytes(), 0) {
                Ok(m) => r is Ok && final(self)@ == m,
                Err(e) => r == Err::<(), BufferError>(e),
            },
    {
        let bytes = qname.as_bytes();
        let n: usize = bytes.len();
        let mut start: usize = 0;
        proof {
            vstd::utf8::encode_utf8_valid_utf8(qname@);
            vstd::utf8::is_char_boundary_start_end_of_seq(bytes@);
        }
        loop
            invariant
                bytes@ == qname.spec_bytes(),
                n == bytes@.len(),
                start <= n,
                vstd::utf8::valid_utf8(bytes@),
                vstd::utf8::is_char_boundary(bytes@, start as int),
                write_name(Self::discipline(), old(self)@, bytes@, 0) == write_name(
                    Self::discipline(),
                    self@,
                    bytes@,
                    start as nat,
                ),
            decreases n - start,
        {
            let (_, suffix) = qname.split_at(start);
            assert(suffix.spec_bytes() == bytes@.skip(start as int));
            if let Some(prev) = self.find_label(suffix) {
                return self.write_u16(((prev % 0x4000) as u16) + 0xC000);
            }
            let at: usize = self.pos();
            self.save_label(suffix, at);
            let mut end: usize = start;
            while end < n && bytes[end] != DOT
                invariant
                    start <= end <= n,
                    n == bytes@.len(),
                    label_len(bytes@, start as nat) == (end - start) + label_len(bytes@, end as nat),
                decreases n - end,
            {
                end += 1;
            }
            if end - start > MAX_LABEL {
                return Err(BufferError::InvalidLabelLength);
            }
            let ghost saved = self@;
            let ghost len_byte = (end - start) as u8;
            let ghost label = bytes@.subrange(start as int, end as int);
            proof {
                lemma_put_first(Self::discipline(), saved, len_byte, label);
            }
            self.write_u8((end - start) as u8)?;
            let ghost headed = self@;
            let mut i: usize = start;
            assert(label.skip(0) =~= label);
            while i < end
                invariant
                    start <= i <= end <= n,
                    n == bytes@.len(),
                    label == bytes@.subrange(start as int, end as int),
                    put_all(Self::discipline(), headed, label) == put_all(
                        Self::discipline(),
                        self@,
                        label.skip(i - start),
                    ),
                decreases end - i,
            {
                assert(label.skip(i - start).drop_first() =~= label.skip(i + 1 - start));
                self.write_u8(bytes[i])?;
                i += 1;
            }
            if end == n {
                proof {
                    lemma_put_one(Self::discipline(), self@, 0u8);
                }
                return self.write_u8(0);
            }
            proof {
                vstd::utf8::is_char_boundary_iff_not_is_continuation_byte(bytes@, end as int);
                let dot = bytes@[end as int];
                assert(!vstd::utf8::is_continuation_byte(dot)) by (bit_vector)
                    requires
                        dot == 0x2Eu8,
                ;
                lemma_boundary_behind_ascii(bytes@, end as int);
            }
            start = end + 1;
        }
    }

    /// Reads the two bytes at the cursor as one number, most significant
    /// byte first.
    fn read_u16(&mut self) -> (r: Result<u16, BufferError>)
        ensures
            fetched(
                Self::discipline(),
                old(self)@.contents,
                final(self)@.contents,
                old(self)@.cursor + 2,
            ),
            final(self)@.labels == old(self)@.labels,
            r == u16_at(final(self)@.contents, old(self)@.cursor as int),
            r is Ok ==> final(self)@.cursor == old(self)@.cursor + 2,
    {
        let hi: u8 = self.read()?;
        let lo: u8 = self.read()?;
        Ok((hi as u16) * 256 + (lo as u16))
    }

    /// Reads the four bytes at the cursor as one number, most significant
    /// byte first.
    fn read_u32(&mut self) -> (r: Result<u32, BufferError>)
        ensures
            fetched(
                Self::discipline(),
                old(self)@.contents,
                final(self)@.contents,
                old(self)@.cursor + 4,
            ),
            final(self)@.labels == old(self)@.labels,
            r == u32_at(final(self)@.contents, old(self)@.cursor as int),
            r is Ok ==> final(self)@.cursor == old(self)@.cursor + 4,
    {
        let a: u8 = self.read()?;
        let b: u8 = self.read()?;
        let c: u8 = self.read()?;
        let d: u8 = self.read()?;
        Ok((a as u32) * 0x100_0000 + (b as u32) * 0x1_0000 + (c as u32) * 0x100 + (d as u32))
    }

    /// Reads the name at the cursor and appends it to `outstr` in text: its
    /// labels in lower case with dots between them. At most five pointers
    /// are followed. The cursor ends behind the name where it stands in the
    /// message: behind its closing zero, or behind its first pointer. A
    /// streamed buffer that holds all of the name pulls nothing.
    fn read_qname(&mut self, outstr: &mut String) -> (r: Result<(), BufferError>)
        ensures
            grown(Self::discipline(), old(self)@.contents, final(self)@.contents),
            walk_name(old(self)@.contents, old(self)@.cursor as int, MAX_JUMPS as nat) is Ok
                ==> final(self)@.contents == old(self)@.contents,
            final(self)@.labels == old(self)@.labels,
            match walk_name(final(self)@.contents, old(self)@.cursor as int, MAX_JUMPS as nat) {
                Ok(name) => r is Ok && final(outstr)@ == old(outstr)@ + name_text(name.labels)
                    && final(self)@.cursor == name.next,
                Err(e) => r == Err::<(), BufferError>(e),
            },
    {
        let ghost origin = self@.cursor as int;
        let ghost mut seen: Seq<Seq<u8>> = Seq::empty();
        let ghost mut resume: Option<int> = None;
        let mut pos: usize = self.pos();
        let mut jumps: usize = 0;
        let mut jumped = false;
        let mut dotted = false;
        assert(seen + Seq::<Seq<u8>>::empty() =~= seen);
        assert(old(outstr)@ + name_text(seen) =~= old(outstr)@);
        loop
            invariant_except_break
                grown(Self::discipline(), old(self)@.contents, self@.contents),
                walk_name(old(self)@.contents, origin, MAX_JUMPS as nat) is Ok ==> self@.contents
                    == old(self)@.contents,
                self@.labels == old(self)@.labels,
                jumps <= MAX_JUMPS,
                jumped == (resume is Some),
                dotted == (seen.len() > 0),
                self@.cursor == (match resume {
                    Some(p) => p,
                    None => origin,
                }),
                origin == old(self)@.cursor,
                outstr@ == old(outstr)@ + name_text(seen),
                forall|later: Seq<u8>| #![trigger walk_name(later, origin, MAX_JUMPS as nat)]
                    self@.contents.is_prefix_of(later) ==> walk_name(
                        later,
                        origin,
                        MAX_JUMPS as nat,
                    ) == graft(seen, resume, walk_name(later, pos as int, (MAX_JUMPS - jumps) as nat)),
            ensures
                grown(Self::discipline(), old(self)@.contents, self@.contents),
                walk_name(old(self)@.contents, origin, MAX_JUMPS as nat) is Ok ==> self@.contents
                    == old(self)@.contents,
                self@.labels == old(self)@.labels,
                walk_name(self@.contents, origin, MAX_JUMPS as nat) == Ok::<NameRead, BufferError>(
                    NameRead {
                        labels: seen,
                        next: match resume {
                            Some(p) => p,
                            None => pos as int,
                        },
                    },
                ),
                jumped == (resume is Some),
                self@.cursor == (match resume {
                    Some(p) => p,
                    None => origin,
                }),
                origin == old(self)@.cursor,
                outstr@ == old(outstr)@ + name_text(seen),
            decreases MAX_JUMPS - jumps, usize::MAX - pos,
        {
            let ghost before = self@.contents;
            let ghost hops = (MAX_JUMPS - jumps) as nat;
            let ghost held = walk_name(old(self)@.contents, origin, MAX_JUMPS as nat) is Ok;
            proof {
                assert(before.is_prefix_of(before));
                assert(held ==> walk_name(before, pos as int, hops) is Ok);
            }
            let len: u8 = self.get(pos)?;
            proof {
                self.lemma_contents_fit();
                assert(held ==> self@.contents == before);
            }
            if len >= 0xC0 {
                let ghost first = self@.contents;
                let b2: u8 = self.get(pos + 1)?;
                proof {
                    self.lemma_contents_fit();
                    assert(held ==> self@.contents == before);
                }
                if jumps >= MAX_JUMPS {
                    return Err(BufferError::TooManyJumps);
                }
                let ghost here = pos as int;
                let ghost was = resume;
                if !jumped {
                    self.seek(pos + 2)?;
                    proof {
                        resume = Some(pos + 2);
                    }
                }
                pos = ((len - 0xC0) as usize) * 256 + (b2 as usize);
                jumped = true;
                jumps += 1;
                assert forall|later: Seq<u8>| #![trigger walk_name(later, origin, MAX_JUMPS as nat)]
                    self@.contents.is_prefix_of(later) implies walk_name(
                    later,
                    origin,
                    MAX_JUMPS as nat,
                ) == graft(seen, resume, walk_name(later, pos as int, (MAX_JUMPS - jumps) as nat)) by {
                    assert(before.is_prefix_of(later));
                    assert(later[here] == len);
                    assert(later[here + 1] == b2);
                    lemma_graft_pointer(later, here, hops, seen, was);
                }
                continue;
            }
            pos += 1;
            if len == 0 {
                break;
            }
            if len > MAX_LABEL as u8 {
                return Err(BufferError::InvalidLabelLength);
            }
            let label = self.get_range(pos, len as usize)?;
            let ghost text = label@;
            push_label(outstr, label, dotted);
            dotted = true;
            proof {
                self.lemma_contents_fit();
                assert(held ==> self@.contents == before);
                let ghost grown_seen = seen.push(text);
                assert(grown_seen.drop_last() =~= seen);
                assert forall|later: Seq<u8>| #![trigger walk_name(later, origin, MAX_JUMPS as nat)]
                    self@.contents.is_prefix_of(later) implies walk_name(
                    later,
                    origin,
                    MAX_JUMPS as nat,
                ) == graft(grown_seen, resume, walk_name(later, pos + len, hops)) by {
                    assert(before.is_prefix_of(later));
                    assert(later[pos - 1] == len);
                    assert(later.subrange(pos as int, pos + len) =~= text);
                    lemma_graft_label(later, pos - 1, hops, seen, resume);
                }
                seen = grown_seen;
            }
            pos += len as usize;
        }
        if !jumped {
            self.seek(pos)?;
        }
        Ok(())
    }
}

/// Writing the four bytes of a number is writing them one by one.
pub proof fn lemma_put_u32(d: Discipline, m: BufferView, val: u32)
    ensures
        put_all(d, m, u32_bytes(val)) == match put(d, m, (val / 0x100_0000) as u8) {
            Ok(m1) => match put(d, m1, (val / 0x1_0000 % 256) as u8) {
                Ok(m2) => match put(d, m2, (val / 0x100 % 256) as u8) {
                    Ok(m3) => put(d, m3, (val % 256) as u8),
                    Err(e) => Err(e),
                },
                Err(e) => Err(e),
            },
            Err(e) => Err(e),
        },
{
    let a = (val / 0x100_0000) as u8;
    let b = (val / 0x1_0000 % 256) as u8;
    let c = (val / 0x100 % 256) as u8;
    let e = (val % 256) as u8;
    assert(u32_bytes(val) =~= seq![a] + seq![b, c, e]);
    assert(seq![b, c, e] =~= seq![b] + seq![c, e]);
    assert(seq![c, e] =~= seq![c] + seq![e]);
    lemma_put_first(d, m, a, seq![b, c, e]);
    if let Ok(m1) = put(d, m, a) {
        lemma_put_first(d, m1, b, seq![c, e]);
        if let Ok(m2) = put(d, m1, b) {
            lemma_put_first(d, m2, c, seq![e]);
            if let Ok(m3) = put(d, m2, c) {
                lemma_put_one(d, m3, e);
            }
        }
    }
}

} // verus!
