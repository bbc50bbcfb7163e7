//! Domain names on the wire: a run of length-prefixed labels closed by a
//! zero byte, where a two-byte pointer may stand for the rest of the name.

use crate::buffer::{put_all, recall, remember, u16_bytes, BufferView, Discipline};
use crate::error::BufferError;
use vstd::prelude::*;

verus! {

/// How many pointers a name may follow before it is given up as a loop.
pub const MAX_JUMPS: usize = 5;

/// The longest label that a length byte can announce.
pub const MAX_LABEL: usize = 63;

/// The byte that separates the labels of a name in text.
pub const DOT: u8 = 0x2E;

/// Whether a length byte is the first byte of a pointer: its two top bits
/// are set.
pub open spec fn is_pointer(b: u8) -> bool {
    b >= 0xC0
}

/// The offset that the two bytes of a pointer name: the low six bits of the
/// first, then the second.
pub open spec fn pointer_target(b1: u8, b2: u8) -> int {
    (b1 - 0xC0) * 256 + b2
}

/// The two bytes of a pointer to `offset`: the two top bits set, then the
/// low fourteen bits of the offset.
pub open spec fn pointer_bytes(offset: usize) -> Seq<u8> {
    u16_bytes((0xC000 + offset % 0x4000) as u16)
}

/// A byte of a label as it appears in text: ASCII in lower case, anything
/// else as the replacement character.
pub open spec fn wire_char(b: u8) -> char {
    if 0x41 <= b <= 0x5A {
        (b + 0x20) as char
    } else if b < 0x80 {
        b as char
    } else {
        '\u{FFFD}'
    }
}

/// A label in text.
pub open spec fn label_text(label: Seq<u8>) -> Seq<char> {
    Seq::new(label.len(), |i: int| wire_char(label[i]))
}

/// The labels of a name in text, joined by dots.
pub open spec fn name_text(labels: Seq<Seq<u8>>) -> Seq<char>
    decreases labels.len(),
{
    if labels.len() == 0 {
        Seq::empty()
    } else if labels.len() == 1 {
        label_text(labels[0])
    } else {
        name_text(labels.drop_last()) + seq!['.'] + label_text(labels.last())
    }
}

/// What reading a name yields: its labels, and where the reader goes on.
pub struct NameRead {
    pub labels: Seq<Seq<u8>>,
    pub next: int,
}

/// The name that starts at `pos`, read with at most `hops` pointers
/// followed. The reader goes on behind the closing zero, or behind the first
/// pointer if there is one.
pub open spec fn walk_name(data: Seq<u8>, pos: int, hops: nat) -> Result<NameRead, BufferError>
    decreases hops, data.len() - pos,
{
    if !(0 <= pos < data.len()) {
        Err(BufferError::EndOfBuffer)
    } else if is_pointer(data[pos]) {
        if pos + 1 >= data.len() {
            Err(BufferError::EndOfBuffer)
        } else if hops == 0 {
            Err(BufferError::TooManyJumps)
        } else {
            match walk_name(data, pointer_target(data[pos], data[pos + 1]), (hops - 1) as nat) {
                Ok(rest) => Ok(NameRead { labels: rest.labels, next: pos + 2 }),
                Err(e) => Err(e),
            }
        }
    } else if data[pos] == 0 {
        Ok(NameRead { labels: Seq::empty(), next: pos + 1 })
    } else if data[pos] > MAX_LABEL {
        Err(BufferError::InvalidLabelLength)
    } else if pos + 1 + data[pos] > data.len() {
        Err(BufferError::EndOfBuffer)
    } else {
        match walk_name(data, pos + 1 + data[pos], hops) {
            Ok(rest) => Ok(
                NameRead {
                    labels: seq![data.subrange(pos + 1, pos + 1 + data[pos])] + rest.labels,
                    next: rest.next,
                },
            ),
            Err(e) => Err(e),
        }
    }
}

/// A walk that has already seen the labels `seen` and goes on as `rest`;
/// `resume` is where the reader goes on if a pointer was already followed.
pub open spec fn graft(seen: Seq<Seq<u8>>, resume: Option<int>, rest: Result<NameRead, BufferError>) -> Result<
    NameRead,
    BufferError,
> {
    match rest {
        Ok(n) => Ok(
            NameRead {
                labels: seen + n.labels,
                next: match resume {
                    Some(p) => p,
                    None => n.next,
                },
            },
        ),
        Err(e) => Err(e),
    }
}

/// A walk that meets a pointer goes on at its target with one hop less,
/// and the reader will go on behind the first pointer that was met.
pub proof fn lemma_graft_pointer(
    data: Seq<u8>,
    pos: int,
    hops: nat,
    seen: Seq<Seq<u8>>,
    resume: Option<int>,
)
    requires
        0 <= pos,
        pos + 1 < data.len(),
        is_pointer(data[pos]),
        hops > 0,
    ensures
        graft(seen, resume, walk_name(data, pos, hops)) == graft(
            seen,
            Some(
                match resume {
                    Some(p) => p,
                    None => pos + 2,
                },
            ),
            walk_name(data, pointer_target(data[pos], data[pos + 1]), (hops - 1) as nat),
        ),
{
}

/// A walk that meets a label has seen one label more and goes on behind
/// it.
pub proof fn lemma_graft_label(
    data: Seq<u8>,
    pos: int,
    hops: nat,
    seen: Seq<Seq<u8>>,
    resume: Option<int>,
)
    requires
        0 <= pos < data.len(),
        1 <= data[pos] <= MAX_LABEL,
        pos + 1 + data[pos] <= data.len(),
    ensures
        graft(seen, resume, walk_name(data, pos, hops)) == graft(
            seen.push(data.subrange(pos + 1, pos + 1 + data[pos])),
            resume,
            walk_name(data, pos + 1 + data[pos], hops),
        ),
{
    let label = data.subrange(pos + 1, pos + 1 + data[pos]);
    if let Ok(n) = walk_name(data, pos + 1 + data[pos], hops) {
        assert(seen + (seq![label] + n.labels) =~= seen.push(label) + n.labels);
    }
}

/// How many bytes stand at `start` before the next dot or the end.
pub open spec fn label_len(name: Seq<u8>, start: nat) -> nat
    decreases name.len() - start,
{
    if start >= name.len() || name[start as int] == DOT {
        0
    } else {
        1 + label_len(name, start + 1)
    }
}

/// The buffer after the part of `name` from `start` on is written at the
/// cursor. A suffix that the buffer remembers is written as a pointer and
/// ends the name; any other is saved at the cursor and its first label is
/// written out, and behind the last label a zero.
pub open spec fn write_name(d: Discipline, m: BufferView, name: Seq<u8>, start: nat) -> Result<
    BufferView,
    BufferError,
>
    decreases name.len() - start,
{
    let suffix = name.skip(start as int);
    match recall(m.labels, suffix) {
        Some(prev) => put_all(d, m, pointer_bytes(prev)),
        None => {
            let len = label_len(name, start);
            let saved = BufferView { labels: remember(d, m.labels, suffix, m.cursor), ..m };
            if len > MAX_LABEL {
                Err(BufferError::InvalidLabelLength)
            } else {
                match put_all(
                    d,
                    saved,
                    seq![len as u8] + name.subrange(start as int, (start + len) as int),
                ) {
                    Err(e) => Err(e),
                    Ok(m2) => if start + len >= name.len() {
                        put_all(d, m2, seq![0u8])
                    } else {
                        write_name(d, m2, name, start + len + 1)
                    },
                }
            }
        },
    }
}

/// The byte behind a complete ASCII character starts a character, or is the
/// end.
pub proof fn lemma_boundary_behind_ascii(bytes: Seq<u8>, i: int)
    requires
        vstd::utf8::valid_utf8(bytes),
        0 <= i < bytes.len(),
        vstd::utf8::is_char_boundary(bytes, i),
        bytes[i] < 0x80,
    ensures
        vstd::utf8::is_char_boundary(bytes, i + 1),
    decreases bytes.len(),
{
    reveal_with_fuel(vstd::utf8::is_char_boundary, 2);
    reveal_with_fuel(vstd::utf8::valid_utf8, 2);
    let first = bytes[0];
    if i == 0 {
        assert(vstd::utf8::is_leading_byte_width_1(first)) by (bit_vector)
            requires
                first < 0x80,
        ;
    } else {
        let width = vstd::utf8::length_of_first_scalar(bytes);
        let tail = vstd::utf8::pop_first_scalar(bytes);
        assert(tail[i - width] == bytes[i]);
        lemma_boundary_behind_ascii(tail, i - width);
    }
}

/// `String::push`: the string afterwards is the string before with the
/// character at its end.
#[verifier::external_body]
pub(crate) fn push_char(s: &mut String, c: char)
    ensures
        final(s)@ == old(s)@.push(c),
{
    s.push(c)
}

/// A byte of a label as it appears in text.
pub fn to_wire_char(b: u8) -> (c: char)
    ensures
        c == wire_char(b),
{
    if 0x41 <= b && b <= 0x5A {
        (b + 0x20) as char
    } else if b < 0x80 {
        b as char
    } else {
        '\u{FFFD}'
    }
}

/// Appends a label to a name in text, behind a dot if the name already has
/// labels.
pub fn push_label(out: &mut String, label: &[u8], dotted: bool)
    ensures
        final(out)@ == old(out)@ + (if dotted {
            seq!['.']
        } else {
            Seq::empty()
        }) + label_text(label@),
{
    if dotted {
        push_char(out, '.');
    }
    let ghost base = out@;
    let mut i: usize = 0;
    while i < label.len()
        invariant
            i <= label@.len(),
            out@ == base + label_text(label@).take(i as int),
        decreases label@.len() - i,
    {
        push_char(out, to_wire_char(label[i]));
        assert(label_text(label@).take(i + 1) =~= label_text(label@).take(i as int).push(
            wire_char(label@[i as int]),
        ));
        i += 1;
    }
    assert(label_text(label@).take(i as int) =~= label_text(label@));
}

} // verus!
