//! The index of name suffixes that a growable buffer keeps while a message
//! is written, so that a later name can point back at an earlier one.

use super::recall;
use vstd::prelude::*;

verus! {

/// Whether two byte strings are the same.
pub fn same_bytes(a: &[u8], b: &[u8]) -> (r: bool)
    ensures
        r == (a@ == b@),
{
    if a.len() != b.len() {
        return false;
    }
    let mut i: usize = 0;
    while i < a.len()
        invariant
            i <= a@.len(),
            a@.len() == b@.len(),
            a@.take(i as int) == b@.take(i as int),
        decreases a@.len() - i,
    {
        if a[i] != b[i] {
            return false;
        }
        assert(a@.take(i + 1) == a@.take(i as int).push(a@[i as int]));
        assert(b@.take(i + 1) == b@.take(i as int).push(b@[i as int]));
        i += 1;
    }
    assert(a@ == a@.take(a@.len() as int));
    assert(b@ == b@.take(b@.len() as int));
    true
}

/// The map that a list of saved entries stands for: a later entry for a key
/// replaces an earlier one.
pub open spec fn entries_map(entries: Seq<(Seq<u8>, usize)>) -> Map<Seq<u8>, usize>
    decreases entries.len(),
{
    if entries.len() == 0 {
        Map::empty()
    } else {
        entries_map(entries.drop_last()).insert(entries.last().0, entries.last().1)
    }
}

/// A map from name suffix to the offset at which it was first written.
pub struct LabelIndex {
    entries: Vec<(Vec<u8>, usize)>,
}

impl LabelIndex {
    /// The saved entries, oldest first.
    pub closed spec fn saved(&self) -> Seq<(Seq<u8>, usize)> {
        Seq::new(self.entries@.len(), |i: int| (self.entries@[i].0@, self.entries@[i].1))
    }

    /// An index that holds nothing.
    pub fn new() -> (r: LabelIndex)
        ensures
            r@ == Map::<Seq<u8>, usize>::empty(),
    {
        let r = LabelIndex { entries: Vec::new() };
        assert(r.saved() =~= Seq::empty());
        r
    }

    /// The offset saved for `key`, if any.
    pub fn get(&self, key: &[u8]) -> (r: Option<usize>)
        ensures
            r == recall(self@, key@),
    {
        let mut i: usize = self.entries.len();
        assert(self.saved().take(i as int) == self.saved());
        while i > 0
            invariant
                i <= self.entries@.len(),
                recall(self@, key@) == recall(entries_map(self.saved().take(i as int)), key@),
            decreases i,
        {
            let ghost upto = self.saved().take(i as int);
            assert(upto.drop_last() == self.saved().take(i - 1));
            assert(upto.last() == self.saved()[i - 1]);
            i -= 1;
            if same_bytes(self.entries[i].0.as_slice(), key) {
                return Some(self.entries[i].1);
            }
        }
        None
    }

    /// Saves `pos` for `key`, in place of what was saved for it before.
    pub fn insert(&mut self, key: &[u8], pos: usize)
        ensures
            final(self)@ == old(self)@.insert(key@, pos),
    {
        self.entries.push((vstd::slice::slice_to_vec(key), pos));
        assert(self.saved().drop_last() == old(self).saved());
    }
}

impl View for LabelIndex {
    type V = Map<Seq<u8>, usize>;

    closed spec fn view(&self) -> Map<Seq<u8>, usize> {
        entries_map(self.saved())
    }
}

impl Default for LabelIndex {
    fn default() -> (r: Self)
        ensures
            r@ == Map::<Seq<u8>, usize>::empty(),
    {
        LabelIndex::new()
    }
}

} // verus!
