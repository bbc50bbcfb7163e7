//! What is written can be read again: the laws that tie the writing of
//! names to the reading of them.

use crate::buffer::{recall, BufferView, Discipline};
use crate::error::BufferError;
use crate::name::{
    is_pointer, label_len, label_text, name_text, pointer_bytes, pointer_target, walk_name,
    wire_char, write_name, NameRead, DOT, MAX_JUMPS, MAX_LABEL,
};
use crate::wire::{
    any_suffix_saved, appended, laid, lemma_label_len_bound, lemma_name_wire_len,
    lemma_put_all_fixed, lemma_put_all_growable, lemma_write_name_flat, name_wire, noted,
    valid_labels,
};
use vstd::prelude::*;

verus! {

/// The labels of the part of `name` from `start` on: what stands between
/// its dots.
pub open spec fn labels_of(name: Seq<u8>, start: nat) -> Seq<Seq<u8>>
    decreases name.len() - start,
{
    let len = label_len(name, start);
    seq![name.subrange(start as int, (start + len) as int)] + (if start + len >= name.len() {
        Seq::empty()
    } else {
        labels_of(name, start + len + 1)
    })
}

/// Whether every label of `name` from `start` on has at least one byte and
/// at most 63.
pub open spec fn proper_labels(name: Seq<u8>, start: nat) -> bool
    decreases name.len() - start,
{
    let len = label_len(name, start);
    1 <= len <= MAX_LABEL && (start + len < name.len() ==> proper_labels(name, start + len + 1))
}

/// A name in text as it is read back: each byte as `wire_char` has it.
pub open spec fn text(name: Seq<u8>) -> Seq<char> {
    Seq::new(name.len(), |i: int| wire_char(name[i]))
}

/// Labels that are proper can be written.
pub proof fn lemma_proper_is_valid(name: Seq<u8>, start: nat)
    requires
        proper_labels(name, start),
    ensures
        valid_labels(name, start),
    decreases name.len() - start,
{
    let len = label_len(name, start);
    if start + len < name.len() {
        lemma_proper_is_valid(name, start + len + 1);
    }
}

/// Where a name with proper labels stands in full, reading finds its
/// labels and ends behind its closing zero.
pub proof fn lemma_walk_name_wire(data: Seq<u8>, at: int, name: Seq<u8>, start: nat, hops: nat)
    requires
        start <= name.len(),
        proper_labels(name, start),
        0 <= at,
        at + name_wire(name, start).len() <= data.len(),
        data.subrange(at, at + name_wire(name, start).len()) == name_wire(name, start),
    ensures
        walk_name(data, at, hops) == Ok::<NameRead, BufferError>(
            NameRead {
                labels: labels_of(name, start),
                next: at + name_wire(name, start).len(),
            },
        ),
    decreases name.len() - start,
{
    lemma_label_len_bound(name, start);
    lemma_name_wire_len(name, start);
    let len = label_len(name, start) as int;
    let wire = name_wire(name, start);
    let label = name.subrange(start as int, (start + len) as int);
    assert forall|i: int| 0 <= i < wire.len() implies data[at + i] == wire[i] by {
        assert(data.subrange(at, at + wire.len())[i] == data[at + i]);
    }
    assert(data[at + 0] == wire[0]);
    assert(wire[0] == len as u8);
    assert(data.subrange(at + 1, at + 1 + len) =~= label) by {
        assert forall|i: int| 0 <= i < len implies data[at + 1 + i] == label[i] by {
            assert(wire[1 + i] == label[i]);
        }
    }
    if start + len >= name.len() {
        assert(wire[1 + len] == 0u8);
        assert(data[at + 1 + len] == 0u8);
        assert(walk_name(data, at + 1 + len, hops) == Ok::<NameRead, BufferError>(
            NameRead { labels: Seq::empty(), next: at + 1 + len + 1 },
        ));
    } else {
        let rest = name_wire(name, (start + len + 1) as nat);
        lemma_name_wire_len(name, (start + len + 1) as nat);
        assert(data.subrange(at + 1 + len, at + 1 + len + rest.len()) =~= rest) by {
            assert forall|i: int| 0 <= i < rest.len() implies data[at + 1 + len + i] == rest[i] by {
                assert(wire[1 + len + i] == rest[i]);
            }
        }
        lemma_walk_name_wire(data, at + 1 + len, name, (start + len + 1) as nat, hops);
    }
}

/// A name of one label more is the label, a dot, and the name: the text of
/// `labels` with `first` before them.
pub proof fn lemma_name_text_front(first: Seq<u8>, labels: Seq<Seq<u8>>)
    ensures
        name_text(seq![first] + labels) == (if labels.len() == 0 {
            label_text(first)
        } else {
            label_text(first) + seq!['.'] + name_text(labels)
        }),
    decreases labels.len(),
{
    let all = seq![first] + labels;
    if labels.len() == 0 {
        assert(all =~= seq![first]);
    } else {
        assert(all.drop_last() =~= seq![first] + labels.drop_last());
        assert(all.last() == labels.last());
        lemma_name_text_front(first, labels.drop_last());
        if labels.len() == 1 {
            assert(labels.drop_last() =~= Seq::<Seq<u8>>::empty());
            assert(labels =~= seq![labels.last()]);
        } else {
            assert(label_text(first) + seq!['.'] + name_text(labels.drop_last()) + seq!['.']
                + label_text(labels.last()) =~= label_text(first) + seq!['.'] + (name_text(
                labels.drop_last(),
            ) + seq!['.'] + label_text(labels.last())));
        }
    }
}

/// The labels of a name, joined by dots, are the name.
pub proof fn lemma_labels_text(name: Seq<u8>, start: nat)
    requires
        start <= name.len(),
    ensures
        name_text(labels_of(name, start)) == text(name.skip(start as int)),
    decreases name.len() - start,
{
    lemma_label_len_bound(name, start);
    let len = label_len(name, start);
    let label = name.subrange(start as int, (start + len) as int);
    if start + len >= name.len() {
        lemma_name_text_front(label, Seq::empty());
        assert(label_text(label) =~= text(name.skip(start as int)));
    } else {
        let rest = labels_of(name, start + len + 1);
        lemma_name_text_front(label, rest);
        lemma_labels_text(name, start + len + 1);
        assert(rest.len() > 0);
        assert(label_text(label) + seq!['.'] + text(name.skip((start + len + 1) as int)) =~= text(
            name.skip(start as int),
        ));
    }
}

/// Name round trip. A name whose labels have from 1 to 63 bytes each,
/// written where it fits into a fixed buffer, or at the end of a growable
/// one that has none of its suffixes saved, is read back from where it was
/// written as the same name, its ASCII letters in lower case, and the
/// reader ends where the writer ended.
pub proof fn lemma_name_round_trip(d: Discipline, m: BufferView, name: Seq<u8>)
    requires
        proper_labels(name, 0),
        !any_suffix_saved(m.labels, name, 0),
        d == Discipline::Fixed ==> m.cursor + name.len() + 2 <= m.contents.len() <= usize::MAX,
        d == Discipline::Growable ==> m.cursor == m.contents.len() && m.cursor + name.len() + 2
            <= usize::MAX,
        d != Discipline::Streamed,
    ensures
        write_name(d, m, name, 0) is Ok,
        walk_name(write_name(d, m, name, 0)->Ok_0.contents, m.cursor as int, MAX_JUMPS as nat)
            == Ok::<NameRead, BufferError>(
            NameRead {
                labels: labels_of(name, 0),
                next: write_name(d, m, name, 0)->Ok_0.cursor as int,
            },
        ),
        name_text(labels_of(name, 0)) == text(name),
{
    let wire = name_wire(name, 0);
    lemma_proper_is_valid(name, 0);
    lemma_write_name_flat(d, m, name, 0);
    lemma_name_wire_len(name, 0);
    lemma_labels_text(name, 0);
    assert(name.skip(0) =~= name);
    if d == Discipline::Fixed {
        assert(m.contents =~= laid(m, Seq::empty()).contents);
        assert(m == laid(m, Seq::empty()));
        lemma_put_all_fixed(m, Seq::empty(), wire);
        assert(Seq::<u8>::empty() + wire =~= wire);
        let after = laid(m, wire);
        assert(after.contents.subrange(m.cursor as int, m.cursor + wire.len()) =~= wire);
        lemma_walk_name_wire(after.contents, m.cursor as int, name, 0, MAX_JUMPS as nat);
    } else {
        lemma_put_all_growable(m, wire);
        let after = appended(m, wire);
        assert(after.contents.subrange(m.cursor as int, m.cursor + wire.len()) =~= wire);
        lemma_walk_name_wire(after.contents, m.cursor as int, name, 0, MAX_JUMPS as nat);
    }
}

/// Whether the offset saved for a name suffix is one that a pointer can
/// name and at which the suffix is read with at most `hops` pointers
/// followed.
pub open spec fn entry_ok(data: Seq<u8>, key: Seq<u8>, offset: usize, hops: nat) -> bool {
    &&& offset < 0x4000
    &&& walk_name(data, offset as int, hops) is Ok
    &&& walk_name(data, offset as int, hops)->Ok_0.labels == labels_of(key, 0)
}

/// Whether every saved offset is one at which its suffix is read.
pub open spec fn sound(data: Seq<u8>, labels: Map<Seq<u8>, usize>, hops: nat) -> bool {
    forall|key: Seq<u8>| #[trigger] labels.contains_key(key) ==> entry_ok(data, key, labels[key], hops)
}

/// Whether a label of `name`, from the one at `start` on, starts at `s`.
pub open spec fn label_start(name: Seq<u8>, start: nat, s: nat) -> bool
    decreases name.len() - start,
{
    s == start || (start + label_len(name, start) < name.len() && label_start(
        name,
        start + label_len(name, start) + 1,
        s,
    ))
}

/// A name that is read stays the same when bytes are added behind it.
pub proof fn lemma_walk_extends(data: Seq<u8>, later: Seq<u8>, pos: int, hops: nat)
    requires
        data.is_prefix_of(later),
        walk_name(data, pos, hops) is Ok,
    ensures
        walk_name(later, pos, hops) == walk_name(data, pos, hops),
    decreases hops, data.len() - pos,
{
    assert(later[pos] == data[pos]);
    if is_pointer(data[pos]) {
        assert(later[pos + 1] == data[pos + 1]);
        lemma_walk_extends(
            data,
            later,
            crate::name::pointer_target(data[pos], data[pos + 1]),
            (hops - 1) as nat,
        );
    } else if data[pos] != 0 {
        let len = data[pos] as int;
        lemma_walk_extends(data, later, pos + 1 + len, hops);
        assert(later.subrange(pos + 1, pos + 1 + len) =~= data.subrange(pos + 1, pos + 1 + len));
    }
}

/// A name that is read with some pointers followed is read the same when
/// more may be followed.
pub proof fn lemma_walk_more_hops(data: Seq<u8>, pos: int, hops: nat, more: nat)
    requires
        walk_name(data, pos, hops) is Ok,
        hops <= more,
    ensures
        walk_name(data, pos, more) == walk_name(data, pos, hops),
    decreases hops, data.len() - pos,
{
    if is_pointer(data[pos]) {
        lemma_walk_more_hops(
            data,
            crate::name::pointer_target(data[pos], data[pos + 1]),
            (hops - 1) as nat,
            (more - 1) as nat,
        );
    } else if data[pos] != 0 {
        lemma_walk_more_hops(data, pos + 1 + data[pos], hops, more);
    }
}

/// The length of a label depends only on what stands from it on.
pub proof fn lemma_label_len_skip(name: Seq<u8>, start: nat, t: nat)
    requires
        start + t <= name.len(),
    ensures
        label_len(name, start + t) == label_len(name.skip(start as int), t),
    decreases name.len() - start - t,
{
    let tail = name.skip(start as int);
    if start + t < name.len() && name[(start + t) as int] != DOT {
        lemma_label_len_skip(name, start, t + 1);
    }
}

/// The labels of a name from some byte on depend only on what stands from
/// that byte on.
pub proof fn lemma_labels_skip(name: Seq<u8>, start: nat, t: nat)
    requires
        start + t <= name.len(),
    ensures
        labels_of(name, start + t) == labels_of(name.skip(start as int), t),
    decreases name.len() - start - t,
{
    let tail = name.skip(start as int);
    lemma_label_len_skip(name, start, t);
    lemma_label_len_bound(name, start + t);
    let len = label_len(name, start + t);
    assert(name.subrange((start + t) as int, (start + t + len) as int) =~= tail.subrange(
        t as int,
        (t + len) as int,
    ));
    if start + t + len < name.len() {
        lemma_labels_skip(name, start, t + len + 1);
    }
}

/// Saved offsets that are sound stay so when bytes are added and more
/// pointers may be followed.
pub proof fn lemma_sound_extends(
    data: Seq<u8>,
    later: Seq<u8>,
    labels: Map<Seq<u8>, usize>,
    hops: nat,
    more: nat,
)
    requires
        data.is_prefix_of(later),
        sound(data, labels, hops),
        hops <= more,
    ensures
        sound(later, labels, more),
{
    assert forall|key: Seq<u8>| #[trigger] labels.contains_key(key) implies entry_ok(
        later,
        key,
        labels[key],
        more,
    ) by {
        lemma_walk_extends(data, later, labels[key] as int, hops);
        lemma_walk_more_hops(later, labels[key] as int, hops, more);
    }
}

/// What holds of a growable buffer behind the writing of a name: it has
/// grown at its end by no more than the name in full, the name is read
/// where it was written, every offset that was saved meanwhile is one at
/// which its suffix is read, and a suffix that was saved before has cut the
/// writing short.
pub open spec fn written_well(
    m: BufferView,
    base: Map<Seq<u8>, usize>,
    name: Seq<u8>,
    start: nat,
    hops: nat,
    after: BufferView,
) -> bool {
    &&& m.contents.is_prefix_of(after.contents)
    &&& after.cursor == after.contents.len()
    &&& after.cursor <= m.cursor + (name.len() - start) + 2
    &&& walk_name(after.contents, m.cursor as int, hops + 1) == Ok::<NameRead, BufferError>(
        NameRead { labels: labels_of(name, start), next: after.cursor as int },
    )
    &&& forall|key: Seq<u8>| #[trigger]
        after.labels.contains_key(key) ==> (m.labels.contains_key(key) && after.labels[key]
            == m.labels[key]) || entry_ok(after.contents, key, after.labels[key], hops + 1)
    &&& forall|s: nat| #[trigger]
        label_start(name, start, s) && base.contains_key(name.skip(s as int)) ==> after.cursor
            <= m.cursor + (s - start) + 2
}

/// A name with proper labels, written at the end of a growable buffer
/// whose saved offsets are sound, is read back where it was written, with
/// one pointer more followed than the saved offsets need. `base` is what
/// was saved before the name was begun; what was saved for the labels of
/// the name that were already written are longer suffixes than those to
/// come.
pub proof fn lemma_written_name_reads(
    m: BufferView,
    base: Map<Seq<u8>, usize>,
    name: Seq<u8>,
    start: nat,
    hops: nat,
)
    requires
        start <= name.len(),
        proper_labels(name, start),
        m.cursor == m.contents.len(),
        m.cursor + (name.len() - start) + 2 <= 0x4000,
        sound(m.contents, base, hops),
        forall|key: Seq<u8>|
            key.len() <= name.len() - start ==> #[trigger] recall(m.labels, key) == recall(
                base,
                key,
            ),
    ensures
        write_name(Discipline::Growable, m, name, start) is Ok,
        written_well(
            m,
            base,
            name,
            start,
            hops,
            write_name(Discipline::Growable, m, name, start)->Ok_0,
        ),
    decreases name.len() - start,
{
    let d = Discipline::Growable;
    let suffix = name.skip(start as int);
    lemma_label_len_bound(name, start);
    lemma_labels_skip(name, start, 0);
    assert(recall(m.labels, suffix) == recall(base, suffix));
    match recall(m.labels, suffix) {
        Some(prev) => {
            let two = pointer_bytes(prev);
            let after = appended(m, two);
            lemma_put_all_growable(m, two);
            assert(base.contains_key(suffix));
            assert(entry_ok(m.contents, suffix, prev, hops));
            let hi = two[0];
            let lo = two[1];
            assert(is_pointer(hi) && pointer_target(hi, lo) == prev);
            assert(after.contents[m.cursor as int] == hi);
            assert(after.contents[m.cursor + 1] == lo);
            lemma_walk_extends(m.contents, after.contents, prev as int, hops);
            assert forall|s: nat| #[trigger] label_start(name, start, s) implies start <= s by {
                lemma_label_start_bound(name, start, s);
            }
        },
        None => {
            let len = label_len(name, start);
            let label = name.subrange(start as int, (start + len) as int);
            let head = seq![len as u8] + label;
            let saved = BufferView { labels: m.labels.insert(suffix, m.cursor), ..m };
            lemma_put_all_growable(saved, head);
            let m2 = appended(saved, head);
            if start + len >= name.len() {
                let after = appended(m2, seq![0u8]);
                lemma_put_all_growable(m2, seq![0u8]);
                assert(after.contents =~= m.contents + name_wire(name, start));
                lemma_name_wire_len(name, start);
                assert(after.contents.subrange(
                    m.cursor as int,
                    m.cursor + name_wire(name, start).len(),
                ) =~= name_wire(name, start));
                lemma_walk_name_wire(after.contents, m.cursor as int, name, start, hops + 1);
                assert forall|s: nat| #[trigger]
                    label_start(name, start, s) && base.contains_key(
                        name.skip(s as int),
                    ) implies after.cursor <= m.cursor + (s - start) + 2 by {
                    assert(s == start);
                }
            } else {
                let next = (start + len + 1) as nat;
                lemma_sound_extends(m.contents, m2.contents, base, hops, hops);
                assert forall|key: Seq<u8>| key.len() <= name.len() - next implies #[trigger] recall(
                    m2.labels,
                    key,
                ) == recall(base, key) by {
                    assert(recall(m.labels, key) == recall(base, key));
                }
                lemma_written_name_reads(m2, base, name, next, hops);
                let after = write_name(d, m2, name, next)->Ok_0;
                assert(after.contents[m.cursor as int] == m2.contents[m.cursor as int]);
                assert(m2.contents[m.cursor as int] == len as u8);
                assert(after.contents.subrange(m.cursor + 1, m.cursor + 1 + len) =~= label) by {
                    assert forall|i: int| 0 <= i < len implies after.contents[m.cursor + 1 + i]
                        == label[i] by {
                        assert(m2.contents[m.cursor + 1 + i] == label[i]);
                    }
                }
                assert(walk_name(after.contents, m.cursor as int, hops + 1) == Ok::<
                    NameRead,
                    BufferError,
                >(NameRead { labels: labels_of(name, start), next: after.cursor as int }));
                assert forall|key: Seq<u8>| #[trigger] after.labels.contains_key(key) implies (
                m.labels.contains_key(key) && after.labels[key] == m.labels[key]) || entry_ok(
                    after.contents,
                    key,
                    after.labels[key],
                    hops + 1,
                ) by {
                    if !entry_ok(after.contents, key, after.labels[key], hops + 1) {
                        assert(m2.labels.contains_key(key));
                        if key == suffix {
                            assert(after.labels[key] == m.cursor);
                        }
                    }
                }
                assert forall|s: nat| #[trigger]
                    label_start(name, start, s) && base.contains_key(
                        name.skip(s as int),
                    ) implies after.cursor <= m.cursor + (s - start) + 2 by {
                    assert(s != start);
                    assert(label_start(name, next, s));
                    lemma_label_start_bound(name, next, s);
                }
            }
        },
    }
}

/// A label starts no earlier than the label it is counted from.
pub proof fn lemma_label_start_bound(name: Seq<u8>, start: nat, s: nat)
    requires
        start <= name.len(),
        label_start(name, start, s),
    ensures
        start <= s <= name.len(),
    decreases name.len() - start,
{
    lemma_label_len_bound(name, start);
    if s != start {
        lemma_label_start_bound(name, start + label_len(name, start) + 1, s);
    }
}

/// Saving the suffixes of a name keeps what was saved before.
pub proof fn lemma_noted_keeps(
    labels: Map<Seq<u8>, usize>,
    name: Seq<u8>,
    start: nat,
    at: int,
    key: Seq<u8>,
)
    requires
        labels.contains_key(key),
    ensures
        noted(Discipline::Growable, labels, name, start, at).contains_key(key),
    decreases name.len() - start,
{
    let len = label_len(name, start);
    if start + len < name.len() {
        lemma_noted_keeps(
            labels.insert(name.skip(start as int), at as usize),
            name,
            start + len + 1,
            at + 1 + len,
            key,
        );
    }
}

/// A growable buffer that has written a name in full has saved every
/// suffix of it that starts with a label.
pub proof fn lemma_noted_contains(
    labels: Map<Seq<u8>, usize>,
    name: Seq<u8>,
    start: nat,
    at: int,
    s: nat,
)
    requires
        label_start(name, start, s),
    ensures
        noted(Discipline::Growable, labels, name, start, at).contains_key(name.skip(s as int)),
    decreases name.len() - start,
{
    let len = label_len(name, start);
    let first = labels.insert(name.skip(start as int), at as usize);
    if s == start {
        if start + len < name.len() {
            lemma_noted_keeps(first, name, start + len + 1, at + 1 + len, name.skip(s as int));
        }
    } else {
        lemma_noted_contains(first, name, start + len + 1, at + 1 + len, s);
    }
}

/// Compression correctness. Two names with proper labels are written one
/// after the other at the end of a growable buffer that has nothing saved,
/// within the reach of a pointer. Then both are read back where they were
/// written, each as itself with its ASCII letters in lower case; and where
/// the second name shares a suffix with the first, it takes no more bytes
/// than its labels before that suffix and two for the pointer.
pub proof fn lemma_second_name_compressed(m: BufferView, first: Seq<u8>, second: Seq<u8>)
    requires
        proper_labels(first, 0),
        proper_labels(second, 0),
        m.labels == Map::<Seq<u8>, usize>::empty(),
        m.cursor == m.contents.len(),
        m.cursor + first.len() + second.len() + 4 <= 0x4000,
    ensures
        write_name(Discipline::Growable, m, first, 0) is Ok,
        write_name(
            Discipline::Growable,
            write_name(Discipline::Growable, m, first, 0)->Ok_0,
            second,
            0,
        ) is Ok,
        ({
            let one = write_name(Discipline::Growable, m, first, 0)->Ok_0;
            let two = write_name(Discipline::Growable, one, second, 0)->Ok_0;
            &&& walk_name(two.contents, m.cursor as int, MAX_JUMPS as nat) == Ok::<
                NameRead,
                BufferError,
            >(NameRead { labels: labels_of(first, 0), next: one.cursor as int })
            &&& walk_name(two.contents, one.cursor as int, MAX_JUMPS as nat) == Ok::<
                NameRead,
                BufferError,
            >(NameRead { labels: labels_of(second, 0), next: two.cursor as int })
            &&& name_text(labels_of(first, 0)) == text(first)
            &&& name_text(labels_of(second, 0)) == text(second)
            &&& forall|t: nat, s: nat|
                #![trigger label_start(first, 0, t), label_start(second, 0, s)]
                label_start(first, 0, t) && label_start(second, 0, s) && first.skip(t as int)
                    == second.skip(s as int) ==> two.cursor - one.cursor <= s + 2
        }),
{
    let d = Discipline::Growable;
    let none = Map::<Seq<u8>, usize>::empty();
    lemma_written_name_reads(m, none, first, 0, 0);
    let one = write_name(d, m, first, 0)->Ok_0;
    assert(sound(one.contents, one.labels, 1));
    lemma_written_name_reads(one, one.labels, second, 0, 1);
    let two = write_name(d, one, second, 0)->Ok_0;
    lemma_walk_extends(one.contents, two.contents, m.cursor as int, 1);
    lemma_walk_more_hops(two.contents, m.cursor as int, 1, MAX_JUMPS as nat);
    lemma_walk_more_hops(two.contents, one.cursor as int, 2, MAX_JUMPS as nat);
    lemma_labels_text(first, 0);
    lemma_labels_text(second, 0);
    assert(first.skip(0) =~= first);
    assert(second.skip(0) =~= second);
    lemma_proper_is_valid(first, 0);
    crate::wire::lemma_no_suffix_saved(first, 0);
    lemma_write_name_flat(d, m, first, 0);
    assert forall|t: nat, s: nat|
        #![trigger label_start(first, 0, t), label_start(second, 0, s)]
        label_start(first, 0, t) && label_start(second, 0, s) && first.skip(t as int)
            == second.skip(s as int) implies two.cursor - one.cursor <= s + 2 by {
        lemma_noted_contains(none, first, 0, m.cursor as int, t);
        assert(one.labels.contains_key(second.skip(s as int)));
    }
}

} // verus!
