//! What a run of writes leaves in a buffer, stated in one piece: the bytes
//! that were written, laid over what was there.

use crate::buffer::{
    patch, patch_all, put, put_all, remember, u16_bytes, u32_bytes, BufferView, BytePacketBuffer,
    Discipline, PacketBuffer,
};
use crate::error::BufferError;
use crate::name::{label_len, write_name, DOT, MAX_LABEL};
use vstd::prelude::*;
use vstd::string::StringSliceAdditionalSpecFns;

verus! {

/// `contents` with the bytes from `at` on replaced by `bytes`.
pub open spec fn overwrite(contents: Seq<u8>, at: int, bytes: Seq<u8>) -> Seq<u8> {
    Seq::new(
        contents.len(),
        |i: int|
            if at <= i < at + bytes.len() {
                bytes[i - at]
            } else {
                contents[i]
            },
    )
}

/// A fixed buffer after `bytes` were written at its cursor.
pub open spec fn laid(m: BufferView, bytes: Seq<u8>) -> BufferView {
    BufferView {
        contents: overwrite(m.contents, m.cursor as int, bytes),
        cursor: (m.cursor + bytes.len()) as usize,
        labels: m.labels,
    }
}

/// A growable buffer after `bytes` were written.
pub open spec fn appended(m: BufferView, bytes: Seq<u8>) -> BufferView {
    BufferView {
        contents: m.contents + bytes,
        cursor: (m.cursor + bytes.len()) as usize,
        labels: m.labels,
    }
}

/// Writing one byte is writing a run of one.
pub proof fn lemma_put_one(d: Discipline, m: BufferView, v: u8)
    ensures
        put_all(d, m, seq![v]) == put(d, m, v),
{
    reveal_with_fuel(put_all, 2);
    assert(seq![v].drop_first() =~= Seq::<u8>::empty());
}

/// Writing a run is writing its first byte and then the rest.
pub proof fn lemma_put_first(d: Discipline, m: BufferView, v: u8, rest: Seq<u8>)
    ensures
        put_all(d, m, seq![v] + rest) == match put(d, m, v) {
            Ok(m1) => put_all(d, m1, rest),
            Err(e) => Err(e),
        },
{
    assert((seq![v] + rest).drop_first() =~= rest);
}

/// What was laid down stands where the cursor was.
pub proof fn lemma_laid_stands(m: BufferView, bytes: Seq<u8>)
    requires
        m.cursor + bytes.len() <= m.contents.len(),
    ensures
        laid(m, bytes).contents.subrange(m.cursor as int, m.cursor + bytes.len()) == bytes,
{
    assert(laid(m, bytes).contents.subrange(m.cursor as int, m.cursor + bytes.len()) =~= bytes);
}

/// Writing two runs one after the other is writing them as one.
pub proof fn lemma_put_concat(d: Discipline, m: BufferView, a: Seq<u8>, b: Seq<u8>)
    ensures
        put_all(d, m, a + b) == match put_all(d, m, a) {
            Ok(m1) => put_all(d, m1, b),
            Err(e) => Err(e),
        },
    decreases a.len(),
{
    if a.len() == 0 {
        assert(a + b =~= b);
    } else {
        assert((a + b).drop_first() =~= a.drop_first() + b);
        if let Ok(m1) = put(d, m, a[0]) {
            lemma_put_concat(d, m1, a.drop_first(), b);
        }
    }
}

/// Writing leaves the saved labels alone.
pub proof fn lemma_put_keeps_labels(d: Discipline, m: BufferView, bytes: Seq<u8>)
    ensures
        put_all(d, m, bytes) matches Ok(m1) ==> m1.labels == m.labels,
    decreases bytes.len(),
{
    if bytes.len() > 0 {
        if let Ok(m1) = put(d, m, bytes[0]) {
            lemma_put_keeps_labels(d, m1, bytes.drop_first());
        }
    }
}

/// In a fixed buffer, a run of writes behind `done` succeeds exactly if it
/// fits, and then lays its bytes behind them.
pub proof fn lemma_put_all_fixed(m: BufferView, done: Seq<u8>, bytes: Seq<u8>)
    requires
        m.cursor + done.len() <= m.contents.len() <= usize::MAX,
    ensures
        put_all(Discipline::Fixed, laid(m, done), bytes) == (if m.cursor + done.len() + bytes.len()
            <= m.contents.len() {
            Ok::<BufferView, BufferError>(laid(m, done + bytes))
        } else {
            Err::<BufferView, BufferError>(BufferError::EndOfBuffer)
        }),
    decreases bytes.len(),
{
    if bytes.len() == 0 {
        assert(done + bytes =~= done);
    } else if m.cursor + done.len() < m.contents.len() {
        let next = done.push(bytes[0]);
        let m1 = put(Discipline::Fixed, laid(m, done), bytes[0])->Ok_0;
        assert(m1.contents =~= laid(m, next).contents);
        assert(m1 == laid(m, next));
        lemma_put_all_fixed(m, next, bytes.drop_first());
        assert(next + bytes.drop_first() =~= done + bytes);
    }
}

/// In a growable buffer whose cursor is at its end, a run of writes
/// appends its bytes.
pub proof fn lemma_put_all_growable(m: BufferView, bytes: Seq<u8>)
    requires
        m.cursor + bytes.len() <= usize::MAX,
    ensures
        put_all(Discipline::Growable, m, bytes) == Ok::<BufferView, BufferError>(
            appended(m, bytes),
        ),
    decreases bytes.len(),
{
    if bytes.len() == 0 {
        assert(m.contents + bytes =~= m.contents);
    } else {
        let m1 = put(Discipline::Growable, m, bytes[0])->Ok_0;
        lemma_put_all_growable(m1, bytes.drop_first());
        assert(m1.contents + bytes.drop_first() =~= m.contents + bytes);
    }
}

/// In a fixed buffer, replacing two of the bytes that were written is
/// having written the others with these two in their place.
pub proof fn lemma_patch_fixed(m: BufferView, done: Seq<u8>, k: int, hi: u8, lo: u8)
    requires
        m.cursor + done.len() <= m.contents.len() <= usize::MAX,
        0 <= k,
        k + 2 <= done.len(),
    ensures
        patch_all(Discipline::Fixed, laid(m, done), m.cursor + k, seq![hi, lo]) == Ok::<
            BufferView,
            BufferError,
        >(laid(m, done.update(k, hi).update(k + 1, lo))),
{
    reveal_with_fuel(patch_all, 3);
    let two = seq![hi, lo];
    assert(two.drop_first() =~= seq![lo]);
    assert(two.drop_first().drop_first() =~= Seq::<u8>::empty());
    let m1 = patch(Discipline::Fixed, laid(m, done), m.cursor + k, hi)->Ok_0;
    let m2 = patch(Discipline::Fixed, m1, m.cursor + k + 1, lo)->Ok_0;
    assert(m2.contents =~= laid(m, done.update(k, hi).update(k + 1, lo)).contents);
}

/// Whether every label of `name` from `start` on can be announced by a
/// length byte.
pub open spec fn valid_labels(name: Seq<u8>, start: nat) -> bool
    decreases name.len() - start,
{
    let len = label_len(name, start);
    len <= MAX_LABEL && (start + len < name.len() ==> valid_labels(name, start + len + 1))
}

/// The part of `name` from `start` on as it stands on the wire when nothing
/// is compressed: each label behind its length, and a closing zero.
pub open spec fn name_wire(name: Seq<u8>, start: nat) -> Seq<u8>
    decreases name.len() - start,
{
    let len = label_len(name, start);
    seq![len as u8] + name.subrange(start as int, (start + len) as int) + (if start + len
        >= name.len() {
        seq![0u8]
    } else {
        name_wire(name, start + len + 1)
    })
}

/// Whether one of the suffixes of `name` from `start` on, each starting
/// with a label, has an offset saved for it.
pub open spec fn any_suffix_saved(labels: Map<Seq<u8>, usize>, name: Seq<u8>, start: nat) -> bool
    decreases name.len() - start,
{
    let len = label_len(name, start);
    labels.contains_key(name.skip(start as int)) || (start + len < name.len() && any_suffix_saved(
        labels,
        name,
        start + len + 1,
    ))
}

/// The label index after the suffixes of `name` from `start` on were saved,
/// the first of them at `at`, each behind the label before it.
pub open spec fn noted(
    d: Discipline,
    labels: Map<Seq<u8>, usize>,
    name: Seq<u8>,
    start: nat,
    at: int,
) -> Map<Seq<u8>, usize>
    decreases name.len() - start,
{
    let len = label_len(name, start);
    let first = remember(d, labels, name.skip(start as int), at as usize);
    if start + len >= name.len() {
        first
    } else {
        noted(d, first, name, start + len + 1, at + 1 + len)
    }
}

/// A label never reaches past the end of its name.
pub proof fn lemma_label_len_bound(name: Seq<u8>, start: nat)
    requires
        start <= name.len(),
    ensures
        start + label_len(name, start) <= name.len(),
        start + label_len(name, start) < name.len() ==> name[(start + label_len(name, start)) as int]
            == DOT,
    decreases name.len() - start,
{
    if start < name.len() && name[start as int] != DOT {
        lemma_label_len_bound(name, start + 1);
    }
}

/// The wire form of a name is two bytes longer than its text, from where
/// it starts.
pub proof fn lemma_name_wire_len(name: Seq<u8>, start: nat)
    requires
        start <= name.len(),
    ensures
        name_wire(name, start).len() == name.len() - start + 2,
    decreases name.len() - start,
{
    lemma_label_len_bound(name, start);
    let len = label_len(name, start);
    if start + len < name.len() {
        lemma_name_wire_len(name, start + len + 1);
    }
}

/// Where no suffix of the name is remembered, the name is written out in
/// full, and a growable buffer then remembers each suffix where it stands.
pub proof fn lemma_write_name_flat(d: Discipline, m: BufferView, name: Seq<u8>, start: nat)
    requires
        start <= name.len(),
        valid_labels(name, start),
        !any_suffix_saved(m.labels, name, start),
    ensures
        write_name(d, m, name, start) == match put_all(d, m, name_wire(name, start)) {
            Ok(m1) => Ok(
                BufferView { labels: noted(d, m.labels, name, start, m.cursor as int), ..m1 },
            ),
            Err(e) => Err(e),
        },
    decreases name.len() - start,
{
    lemma_label_len_bound(name, start);
    let len = label_len(name, start);
    let suffix = name.skip(start as int);
    let label = name.subrange(start as int, (start + len) as int);
    let head = seq![len as u8] + label;
    let first = remember(d, m.labels, suffix, m.cursor);
    let saved = BufferView { labels: first, ..m };
    lemma_put_same(d, m, saved, head);
    lemma_put_keeps_labels(d, m, head);
    if start + len >= name.len() {
        lemma_put_concat(d, m, head, seq![0u8]);
        if let Ok(m2) = put_all(d, saved, head) {
            let plain = put_all(d, m, head)->Ok_0;
            lemma_put_same(d, plain, m2, seq![0u8]);
            lemma_put_keeps_labels(d, plain, seq![0u8]);
        }
    } else {
        let rest = name_wire(name, start + len + 1);
        lemma_put_concat(d, m, head, rest);
        if let Ok(m2) = put_all(d, saved, head) {
            let plain = put_all(d, m, head)->Ok_0;
            lemma_put_cursor(d, m, head);
            assert(!any_suffix_saved(m2.labels, name, start + len + 1)) by {
                lemma_suffixes_shorter(m.labels, suffix, m.cursor, d, name, start + len + 1);
            }
            lemma_write_name_flat(d, m2, name, start + len + 1);
            lemma_put_same(d, plain, m2, rest);
            lemma_put_keeps_labels(d, plain, rest);
        }
    }
}

/// What is written does not depend on the saved labels.
pub proof fn lemma_put_same(d: Discipline, m: BufferView, other: BufferView, bytes: Seq<u8>)
    requires
        other.contents == m.contents,
        other.cursor == m.cursor,
    ensures
        put_all(d, other, bytes) == match put_all(d, m, bytes) {
            Ok(m1) => Ok(BufferView { labels: other.labels, ..m1 }),
            Err(e) => Err(e),
        },
    decreases bytes.len(),
{
    if bytes.len() > 0 {
        if let Ok(m1) = put(d, m, bytes[0]) {
            let o1 = put(d, other, bytes[0])->Ok_0;
            lemma_put_same(d, m1, o1, bytes.drop_first());
        }
    }
}

/// A run of writes that succeeds moves the cursor by its length.
pub proof fn lemma_put_cursor(d: Discipline, m: BufferView, bytes: Seq<u8>)
    ensures
        put_all(d, m, bytes) matches Ok(m1) ==> m1.cursor == m.cursor + bytes.len(),
    decreases bytes.len(),
{
    if bytes.len() > 0 {
        if let Ok(m1) = put(d, m, bytes[0]) {
            lemma_put_cursor(d, m1, bytes.drop_first());
        }
    }
}

/// Saving a suffix does not make a shorter one saved.
proof fn lemma_suffixes_shorter(
    labels: Map<Seq<u8>, usize>,
    key: Seq<u8>,
    pos: usize,
    d: Discipline,
    name: Seq<u8>,
    start: nat,
)
    requires
        start <= name.len(),
        key.len() > name.len() - start,
        !any_suffix_saved(labels, name, start),
    ensures
        !any_suffix_saved(remember(d, labels, key, pos), name, start),
    decreases name.len() - start,
{
    lemma_label_len_bound(name, start);
    let len = label_len(name, start);
    assert(name.skip(start as int).len() != key.len());
    if start + len < name.len() {
        lemma_suffixes_shorter(labels, key, pos, d, name, start + len + 1);
    }
}

/// Writes one byte into a fixed buffer in which `done` was laid down from
/// `m` on.
pub(crate) fn lay_u8(
    buffer: &mut BytePacketBuffer,
    val: u8,
    Ghost(m): Ghost<BufferView>,
    Ghost(done): Ghost<Seq<u8>>,
) -> (r: Result<(), BufferError>)
    requires
        old(buffer)@ == laid(m, done),
        m.cursor + done.len() <= m.contents.len() <= usize::MAX,
    ensures
        m.cursor + done.len() + 1 <= m.contents.len() ==> r is Ok && final(buffer)@ == laid(
            m,
            done + seq![val],
        ),
        m.cursor + done.len() + 1 > m.contents.len() ==> r == Err::<(), BufferError>(
            BufferError::EndOfBuffer,
        ),
{
    proof {
        lemma_put_all_fixed(m, done, seq![val]);
        lemma_put_one(Discipline::Fixed, laid(m, done), val);
    }
    buffer.write_u8(val)
}

/// Writes two bytes into a fixed buffer in which `done` was laid down from
/// `m` on.
pub(crate) fn lay_u16(
    buffer: &mut BytePacketBuffer,
    val: u16,
    Ghost(m): Ghost<BufferView>,
    Ghost(done): Ghost<Seq<u8>>,
) -> (r: Result<(), BufferError>)
    requires
        old(buffer)@ == laid(m, done),
        m.cursor + done.len() <= m.contents.len() <= usize::MAX,
    ensures
        m.cursor + done.len() + 2 <= m.contents.len() ==> r is Ok && final(buffer)@ == laid(
            m,
            done + u16_bytes(val),
        ),
        m.cursor + done.len() + 2 > m.contents.len() ==> r == Err::<(), BufferError>(
            BufferError::EndOfBuffer,
        ),
{
    proof {
        lemma_put_all_fixed(m, done, u16_bytes(val));
    }
    buffer.write_u16(val)
}

/// Writes four bytes into a fixed buffer in which `done` was laid down from
/// `m` on.
pub(crate) fn lay_u32(
    buffer: &mut BytePacketBuffer,
    val: u32,
    Ghost(m): Ghost<BufferView>,
    Ghost(done): Ghost<Seq<u8>>,
) -> (r: Result<(), BufferError>)
    requires
        old(buffer)@ == laid(m, done),
        m.cursor + done.len() <= m.contents.len() <= usize::MAX,
    ensures
        m.cursor + done.len() + 4 <= m.contents.len() ==> r is Ok && final(buffer)@ == laid(
            m,
            done + u32_bytes(val),
        ),
        m.cursor + done.len() + 4 > m.contents.len() ==> r == Err::<(), BufferError>(
            BufferError::EndOfBuffer,
        ),
{
    proof {
        lemma_put_all_fixed(m, done, u32_bytes(val));
    }
    buffer.write_u32(val)
}

/// Writes a name whose labels are all short enough into a fixed buffer in
/// which `done` was laid down from `m` on.
pub(crate) fn lay_name(
    buffer: &mut BytePacketBuffer,
    qname: &str,
    Ghost(m): Ghost<BufferView>,
    Ghost(done): Ghost<Seq<u8>>,
) -> (r: Result<(), BufferError>)
    requires
        old(buffer)@ == laid(m, done),
        m.cursor + done.len() <= m.contents.len() <= usize::MAX,
        valid_labels(qname.spec_bytes(), 0),
    ensures
        m.cursor + done.len() + name_wire(qname.spec_bytes(), 0).len() <= m.contents.len() ==> r is Ok
            && final(buffer)@ == laid(m, done + name_wire(qname.spec_bytes(), 0)),
        m.cursor + done.len() + name_wire(qname.spec_bytes(), 0).len() > m.contents.len() ==> r
            == Err::<(), BufferError>(BufferError::EndOfBuffer),
{
    proof {
        let name = qname.spec_bytes();
        lemma_no_suffix_saved(name, 0);
        lemma_write_name_flat(Discipline::Fixed, laid(m, done), name, 0);
        lemma_put_all_fixed(m, done, name_wire(name, 0));
        lemma_noted_unsaved(laid(m, done).labels, name, 0, laid(m, done).cursor as int);
    }
    buffer.write_qname(qname)
}

/// Nothing is saved where no labels are.
pub proof fn lemma_no_suffix_saved(name: Seq<u8>, start: nat)
    ensures
        !any_suffix_saved(Map::<Seq<u8>, usize>::empty(), name, start),
    decreases name.len() - start,
{
    let len = label_len(name, start);
    if start + len < name.len() {
        lemma_no_suffix_saved(name, start + len + 1);
    }
}

/// A fixed buffer remembers nothing of the names written to it.
pub proof fn lemma_noted_unsaved(labels: Map<Seq<u8>, usize>, name: Seq<u8>, start: nat, at: int)
    ensures
        noted(Discipline::Fixed, labels, name, start, at) == labels,
    decreases name.len() - start,
{
    let len = label_len(name, start);
    if start + len < name.len() {
        lemma_noted_unsaved(labels, name, start + len + 1, at + 1 + len);
    }
}

/// Whether every label of `qname` is short enough to be written.
pub fn writable(qname: &str) -> (r: bool)
    ensures
        r == valid_labels(qname.spec_bytes(), 0),
{
    let bytes = qname.as_bytes();
    let n: usize = bytes.len();
    let mut start: usize = 0;
    let mut i: usize = 0;
    while i < n
        invariant
            bytes@ == qname.spec_bytes(),
            n == bytes@.len(),
            start <= i <= n,
            valid_labels(bytes@, 0) == valid_labels(bytes@, start as nat),
            label_len(bytes@, start as nat) == (i - start) + label_len(bytes@, i as nat),
        decreases n - i,
    {
        if bytes[i] == DOT {
            if i - start > MAX_LABEL {
                return false;
            }
            start = i + 1;
        }
        i += 1;
    }
    i - start <= MAX_LABEL
}

} // verus!
