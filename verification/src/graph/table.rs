//! keyed storage for the graph: a table from node ids to values.
//!
//! inserting a key that is already present replaces its value in place; the
//! table holds each key once and remembers the order in which keys first
//! arrived.

use vstd::prelude::*;

use crate::graph::id::NodeId;

verus! {

/// The map that a list of insertions builds, later insertions replacing
/// earlier ones with the same key.
pub open spec fn inserted<V>(entries: Seq<(NodeId, V)>) -> Map<Seq<char>, V>
    decreases entries.len(),
{
    if entries.len() == 0 {
        Map::empty()
    } else {
        inserted(entries.drop_last()).insert(entries.last().0@, entries.last().1)
    }
}

/// A key is present exactly when some insertion used it.
pub proof fn lemma_inserted_contains<V>(entries: Seq<(NodeId, V)>, k: Seq<char>)
    ensures
        inserted(entries).contains_key(k) <==> exists|i: int|
            0 <= i < entries.len() && (#[trigger] entries[i]).0@ == k,
    decreases entries.len(),
{
    if entries.len() > 0 {
        let rest = entries.drop_last();
        lemma_inserted_contains(rest, k);
        if inserted(entries).contains_key(k) && entries.last().0@ != k {
            let i = choose|i: int| 0 <= i < rest.len() && (#[trigger] rest[i]).0@ == k;
            assert(entries[i] == rest[i]);
        }
        if exists|i: int| 0 <= i < entries.len() && (#[trigger] entries[i]).0@ == k {
            let i = choose|i: int| 0 <= i < entries.len() && (#[trigger] entries[i]).0@ == k;
            if i < entries.len() - 1 {
                assert(rest[i] == entries[i]);
            }
        }
    }
}

/// The value of a key is the one of its last insertion.
pub proof fn lemma_inserted_last<V>(entries: Seq<(NodeId, V)>, i: int)
    requires
        0 <= i < entries.len(),
        forall|j: int| i < j < entries.len() ==> (#[trigger] entries[j]).0@ != entries[i].0@,
    ensures
        inserted(entries).contains_key(entries[i].0@),
        inserted(entries)[entries[i].0@] == entries[i].1,
    decreases entries.len(),
{
    if i < entries.len() - 1 {
        let rest = entries.drop_last();
        assert forall|j: int| i < j < rest.len() implies (#[trigger] rest[j]).0@ != rest[i].0@ by {
            assert(rest[j] == entries[j]);
        }
        lemma_inserted_last(rest, i);
        assert(entries.last() == entries[entries.len() - 1]);
    }
}

/// The keys that a list of insertions used, in order.
pub open spec fn inserted_keys<V>(entries: Seq<(NodeId, V)>) -> Seq<Seq<char>> {
    entries.map_values(|e: (NodeId, V)| e.0@)
}

/// Replacing the value of a key that occurs once replaces it in the map.
proof fn lemma_inserted_update<V>(entries: Seq<(NodeId, V)>, i: int, entry: (NodeId, V))
    requires
        0 <= i < entries.len(),
        inserted_keys(entries).no_duplicates(),
        entry.0@ == entries[i].0@,
    ensures
        inserted(entries.update(i, entry)) == inserted(entries).insert(entry.0@, entry.1),
    decreases entries.len(),
{
    let updated = entries.update(i, entry);
    if i == entries.len() - 1 {
        assert(updated.drop_last() =~= entries.drop_last());
        assert(inserted(updated) =~= inserted(entries).insert(entry.0@, entry.1));
    } else {
        let rest = entries.drop_last();
        assert(inserted_keys(rest) =~= inserted_keys(entries).drop_last());
        lemma_inserted_update(rest, i, entry);
        assert(updated.drop_last() =~= rest.update(i, entry));
        assert(inserted_keys(entries)[i] != inserted_keys(entries)[entries.len() - 1]);
        assert(inserted(updated) =~= inserted(entries).insert(entry.0@, entry.1));
    }
}

/// A list of insertions with distinct keys holds as many keys as insertions.
proof fn lemma_inserted_len<V>(entries: Seq<(NodeId, V)>)
    requires
        inserted_keys(entries).no_duplicates(),
    ensures
        inserted(entries).dom().finite(),
        inserted(entries).dom().len() == entries.len(),
    decreases entries.len(),
{
    if entries.len() > 0 {
        let rest = entries.drop_last();
        assert(inserted_keys(rest) =~= inserted_keys(entries).drop_last());
        lemma_inserted_len(rest);
        lemma_inserted_contains(rest, entries.last().0@);
        if inserted(rest).contains_key(entries.last().0@) {
            let i = choose|i: int| 0 <= i < rest.len() && (#[trigger] rest[i]).0@ == entries.last().0@;
            assert(inserted_keys(entries)[i] == inserted_keys(entries)[entries.len() - 1]);
        }
    }
}

/// a table from node ids to values
pub struct IdMap<V> {
    entries: Vec<(NodeId, V)>,
}

impl<V> IdMap<V> {
    /// Each key is held once.
    #[verifier::type_invariant]
    spec fn keys_distinct(self) -> bool {
        inserted_keys(self.entries@).no_duplicates()
    }

    /// The contents of the table.
    pub closed spec fn view(&self) -> Map<Seq<char>, V> {
        inserted(self.entries@)
    }

    /// The keys in the order in which they first arrived.
    pub closed spec fn key_order(&self) -> Seq<Seq<char>> {
        inserted_keys(self.entries@)
    }

    /// Every key ever inserted is present, and only those.
    pub proof fn lemma_keys(&self)
        ensures
            forall|k: Seq<char>|
                self.view().contains_key(k) <==> #[trigger] self.key_order().contains(k),
    {
        assert forall|k: Seq<char>|
            self.view().contains_key(k) <==> #[trigger] self.key_order().contains(k) by {
            lemma_inserted_contains(self.entries@, k);
            if self.key_order().contains(k) {
                let i = choose|i: int| 0 <= i < self.key_order().len() && self.key_order()[i] == k;
                assert(self.entries@[i].0@ == k);
            }
            if self.view().contains_key(k) {
                let i = choose|i: int|
                    0 <= i < self.entries@.len() && (#[trigger] self.entries@[i]).0@ == k;
                assert(self.key_order()[i] == k);
            }
        }
    }

    /// an empty table
    pub fn new() -> (t: Self)
        ensures
            t.view() == Map::<Seq<char>, V>::empty(),
            t.key_order() == Seq::<Seq<char>>::empty(),
    {
        let t = IdMap { entries: Vec::new() };
        assert(t.key_order() =~= Seq::<Seq<char>>::empty());
        t
    }

    /// number of keys held
    pub fn len(&self) -> (n: usize)
        ensures
            n == self.key_order().len(),
            n == self.view().dom().len(),
    {
        proof {
            use_type_invariant(self);
            lemma_inserted_len(self.entries@);
        }
        self.entries.len()
    }

    /// the `i`-th key to arrive
    pub fn key_at(&self, i: usize) -> (id: NodeId)
        requires
            i < self.key_order().len(),
        ensures
            id@ == self.key_order()[i as int],
    {
        self.entries[i].0
    }

    /// look a key up
    pub fn get(&self, id: &NodeId) -> (v: Option<&V>)
        ensures
            match v {
                Some(v) => self.view().contains_key(id@) && *v == self.view()[id@],
                None => !self.view().contains_key(id@),
            },
    {
        let mut i = self.entries.len();
        while i > 0
            invariant
                i <= self.entries@.len(),
                forall|j: int| i <= j < self.entries@.len() ==> (#[trigger] self.entries@[j]).0@ != id@,
            decreases i,
        {
            i = i - 1;
            if self.entries[i].0 == *id {
                proof {
                    lemma_inserted_last(self.entries@, i as int);
                }
                return Some(&self.entries[i].1);
            }
        }
        proof {
            lemma_inserted_contains(self.entries@, id@);
        }
        None
    }

    /// whether a key is present
    pub fn contains_key(&self, id: &NodeId) -> (b: bool)
        ensures
            b == self.view().contains_key(id@),
    {
        self.get(id).is_some()
    }

    /// insert or replace the value of `id`; says whether `id` was present
    pub fn insert(&mut self, id: NodeId, value: V) -> (was_present: bool)
        ensures
            final(self).view() == old(self).view().insert(id@, value),
            final(self).key_order() == (if was_present {
                old(self).key_order()
            } else {
                old(self).key_order().push(id@)
            }),
            was_present == old(self).view().contains_key(id@),
    {
        proof {
            use_type_invariant(&*self);
        }
        let mut entries: Vec<(NodeId, V)> = Vec::new();
        std::mem::swap(&mut entries, &mut self.entries);
        let ghost before = entries@;
        assert(before == old(self).entries@);
        let n = entries.len();
        let mut i: usize = 0;
        while i < n
            invariant
                n == entries@.len(),
                i <= n,
                entries@ == before,
                before == old(self).entries@,
                inserted_keys(before).no_duplicates(),
                forall|j: int| 0 <= j < i ==> (#[trigger] entries@[j]).0@ != id@,
            decreases n - i,
        {
            if entries[i].0 == id {
                let ghost e = (id, value);
                proof {
                    lemma_inserted_update(before, i as int, e);
                    lemma_inserted_contains(before, id@);
                    assert(before[i as int].0@ == id@);
                    assert(inserted_keys(before.update(i as int, e)) =~= inserted_keys(before));
                }
                entries.set(i, (id, value));
                assert(entries@ == before.update(i as int, e));
                self.entries = entries;
                return true;
            }
            i = i + 1;
        }
        proof {
            lemma_inserted_contains(before, id@);
            assert forall|j: int| 0 <= j < inserted_keys(before).len() implies inserted_keys(before)[j]
                != id@ by {
                assert(before[j].0@ != id@);
            }
        }
        entries.push((id, value));
        proof {
            assert(entries@.drop_last() =~= before);
            assert(inserted_keys(entries@) =~= inserted_keys(before).push(id@));
        }
        self.entries = entries;
        false
    }
}

} // verus!
