//! The bookkeeping map from a line's identity to its resolved value.
//!
//! A line is identified by its `id` and `priority` fields, so the engine
//! never needs the whole record as a key. Entries keep insertion order, and
//! inserting an identity again overwrites the earlier value.

use vstd::prelude::*;

use crate::decimal::Dec;

verus! {

/// One resolved line: its identity and the decimal value it carries.
#[derive(Clone, Copy, PartialEq, Eq, Structural, Debug)]
pub struct Entry {
    /// The line's id.
    pub id: i32,
    /// The line's priority.
    pub priority: i16,
    /// The value resolved for the line so far.
    pub value: Dec,
}

impl Entry {
    /// Whether this entry is for the given line identity.
    pub open spec fn is_key(self, id: i32, priority: i16) -> bool {
        self.id == id && self.priority == priority
    }
}

/// The sum of all entry values, in `10^-28` units.
pub open spec fn sum_units(s: Seq<Entry>) -> int
    decreases s.len(),
{
    if s.len() == 0 {
        0
    } else {
        sum_units(s.drop_last()) + s.last().value.units()
    }
}

/// Appending an entry adds its value to the sum.
pub proof fn lemma_sum_push(s: Seq<Entry>, e: Entry)
    ensures
        sum_units(s.push(e)) == sum_units(s) + e.value.units(),
{
    assert(s.push(e).last() == e);
    assert(s.push(e).drop_last() =~= s);
}

/// Replacing one entry moves the sum by the difference of the values.
pub proof fn lemma_sum_update(s: Seq<Entry>, i: int, e: Entry)
    requires
        0 <= i < s.len(),
    ensures
        sum_units(s.update(i, e)) == sum_units(s) - s[i].value.units() + e.value.units(),
    decreases s.len(),
{
    if i == s.len() - 1 {
        assert(s.update(i, e).drop_last() =~= s.drop_last());
        assert(s.update(i, e).last() == e);
    } else {
        assert(s.update(i, e).drop_last() =~= s.drop_last().update(i, e));
        assert(s.update(i, e).last() == s.last());
        lemma_sum_update(s.drop_last(), i, e);
    }
}

/// Whether an entry sequence holds an identity.
pub open spec fn has_key(s: Seq<Entry>, id: i32, priority: i16) -> bool {
    exists|i: int| 0 <= i < s.len() && (#[trigger] s[i]).is_key(id, priority)
}

/// The first index of an entry sequence holding an identity.
pub open spec fn key_index(s: Seq<Entry>, id: i32, priority: i16) -> int {
    choose|i: int| 0 <= i < s.len() && (#[trigger] s[i]).is_key(id, priority)
}

/// An insertion into an entry sequence: the first entry with the same
/// identity is replaced in place; a fresh identity is appended at the end.
pub open spec fn seq_insert(s: Seq<Entry>, e: Entry) -> Seq<Entry>
    decreases s.len(),
{
    if s.len() == 0 {
        seq![e]
    } else if s.first().is_key(e.id, e.priority) {
        seq![e] + s.drop_first()
    } else {
        seq![s.first()] + seq_insert(s.drop_first(), e)
    }
}

/// Inserting at the first index holding the identity is an update there.
pub proof fn lemma_seq_insert_found(s: Seq<Entry>, e: Entry, i: int)
    requires
        0 <= i < s.len(),
        s[i].is_key(e.id, e.priority),
        forall|j: int| 0 <= j < i ==> !(#[trigger] s[j]).is_key(e.id, e.priority),
    ensures
        seq_insert(s, e) =~= s.update(i, e),
    decreases s.len(),
{
    if i == 0 {
        assert(seq_insert(s, e) =~= s.update(0, e));
    } else {
        assert(forall|j: int|
            0 <= j < i - 1 ==> s.drop_first()[j] == (#[trigger] s[j + 1]));
        lemma_seq_insert_found(s.drop_first(), e, i - 1);
        assert(seq_insert(s, e) =~= s.update(i, e));
    }
}

/// Inserting a fresh identity appends the entry.
pub proof fn lemma_seq_insert_fresh(s: Seq<Entry>, e: Entry)
    requires
        forall|j: int| 0 <= j < s.len() ==> !(#[trigger] s[j]).is_key(e.id, e.priority),
    ensures
        seq_insert(s, e) =~= s.push(e),
    decreases s.len(),
{
    if s.len() > 0 {
        lemma_seq_insert_fresh(s.drop_first(), e);
        assert(seq_insert(s, e) =~= s.push(e));
    }
}

/// The map from a line's identity to its resolved decimal value, as a
/// vector of entries in insertion order.
#[derive(Debug)]
pub struct LineValueMap {
    /// The entries, in insertion order.
    pub entries: Vec<Entry>,
}

impl View for LineValueMap {
    type V = Seq<Entry>;

    open spec fn view(&self) -> Seq<Entry> {
        self.entries@
    }
}

impl LineValueMap {
    /// Every value is a well-formed decimal and no line identity repeats.
    pub open spec fn inv(self) -> bool {
        &&& forall|i: int| 0 <= i < self@.len() ==> (#[trigger] self@[i]).value.wf()
        &&& forall|i: int, j: int|
            0 <= i < j < self@.len() ==> !(#[trigger] self@[i]).is_key(
                (#[trigger] self@[j]).id,
                self@[j].priority,
            )
    }

    /// Whether some entry carries the given identity.
    pub open spec fn spec_contains(self, id: i32, priority: i16) -> bool {
        has_key(self@, id, priority)
    }

    /// An empty map.
    pub fn new() -> (r: LineValueMap)
        ensures
            r@ =~= Seq::<Entry>::empty(),
            r.inv(),
    {
        LineValueMap { entries: Vec::new() }
    }

    /// How many lines have a value.
    pub fn len(&self) -> (r: usize)
        ensures
            r == self@.len(),
    {
        self.entries.len()
    }

    /// The entry at a position, in insertion order.
    pub fn at(&self, i: usize) -> (r: Entry)
        requires
            i < self@.len(),
        ensures
            r == self@[i as int],
    {
        self.entries[i]
    }

    /// The first index holding the given identity, if any.
    pub(crate) fn find(&self, id: i32, priority: i16) -> (r: Option<usize>)
        ensures
            match r {
                Some(i) => i < self@.len() && self@[i as int].is_key(id, priority) && forall|
                    j: int,
                |
                    0 <= j < i ==> !(#[trigger] self@[j]).is_key(id, priority),
                None => !self.spec_contains(id, priority),
            },
    {
        let mut i: usize = 0;
        while i < self.entries.len()
            invariant
                i <= self@.len(),
                forall|j: int| 0 <= j < i ==> !(#[trigger] self@[j]).is_key(id, priority),
            decreases self@.len() - i,
        {
            if self.entries[i].id == id && self.entries[i].priority == priority {
                return Some(i);
            }
            i = i + 1;
        }
        None
    }

    /// The value resolved for a line identity, if any.
    pub fn get(&self, id: i32, priority: i16) -> (r: Option<Dec>)
        ensures
            match r {
                Some(v) => exists|i: int|
                    0 <= i < self@.len() && (#[trigger] self@[i]).is_key(id, priority)
                        && self@[i].value == v,
                None => !self.spec_contains(id, priority),
            },
    {
        match self.find(id, priority) {
            Some(i) => Some(self.entries[i].value),
            None => None,
        }
    }

    /// Record a value for a line identity: a later insertion silently
    /// overwrites an earlier entry with the same identity.
    pub fn insert(&mut self, id: i32, priority: i16, value: Dec)
        requires
            old(self).inv(),
            value.wf(),
        ensures
            final(self).inv(),
            final(self)@ == seq_insert(old(self)@, Entry { id, priority, value }),
            final(self).spec_contains(id, priority),
    {
        let e = Entry { id, priority, value };
        match self.find(id, priority) {
            Some(i) => {
                proof {
                    lemma_seq_insert_found(self@, e, i as int);
                }
                self.entries.set(i, e);
                proof {
                    assert(self@[i as int].is_key(id, priority));
                    assert forall|j: int| 0 <= j < self@.len() implies (
                    #[trigger] self@[j]).value.wf() by {
                        if j != i {
                            assert(old(self)@[j] == self@[j]);
                        }
                    }
                    assert forall|a: int, b: int| 0 <= a < b < self@.len() implies !(
                    #[trigger] self@[a]).is_key((#[trigger] self@[b]).id, self@[b].priority) by {
                        assert(old(self)@[a].id == self@[a].id && old(self)@[a].priority
                            == self@[a].priority);
                        assert(old(self)@[b].id == self@[b].id && old(self)@[b].priority
                            == self@[b].priority);
                    }
                }
            },
            None => {
                proof {
                    lemma_seq_insert_fresh(self@, e);
                }
                self.entries.push(e);
                proof {
                    assert(self@[self@.len() - 1].is_key(id, priority));
                    assert forall|j: int| 0 <= j < self@.len() implies (
                    #[trigger] self@[j]).value.wf() by {
                        if j < self@.len() - 1 {
                            assert(old(self)@[j] == self@[j]);
                        }
                    }
                    assert forall|a: int, b: int| 0 <= a < b < self@.len() implies !(
                    #[trigger] self@[a]).is_key((#[trigger] self@[b]).id, self@[b].priority) by {
                        if b < self@.len() - 1 {
                            assert(old(self)@[a] == self@[a] && old(self)@[b] == self@[b]);
                        } else {
                            assert(old(self)@[a] == self@[a]);
                            assert(!old(self).spec_contains(id, priority));
                        }
                    }
                }
            },
        }
    }

    /// An independent copy of the map.
    pub fn duplicate(&self) -> (r: LineValueMap)
        ensures
            r@ == self@,
    {
        let mut entries: Vec<Entry> = Vec::new();
        let mut i: usize = 0;
        while i < self.entries.len()
            invariant
                i <= self@.len(),
                entries@ == self@.subrange(0, i as int),
            decreases self@.len() - i,
        {
            entries.push(self.entries[i]);
            proof {
                assert(entries@ =~= self@.subrange(0, i + 1));
            }
            i = i + 1;
        }
        proof {
            assert(self@.subrange(0, self@.len() as int) =~= self@);
        }
        LineValueMap { entries }
    }

    /// The value at an index, replaced.
    pub fn set_value_at(&mut self, i: usize, value: Dec)
        requires
            old(self).inv(),
            i < old(self)@.len(),
            value.wf(),
        ensures
            final(self).inv(),
            final(self)@ =~= old(self)@.update(
                i as int,
                Entry { id: old(self)@[i as int].id, priority: old(self)@[i as int].priority, value },
            ),
    {
        let e = Entry { id: self.entries[i].id, priority: self.entries[i].priority, value };
        self.entries.set(i, e);
    }
}

} // verus!
