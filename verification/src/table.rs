//! Key-indexed storage: the arena that owns the items, and side tables over
//! the same keys.

use crate::key::DocKey;
use vstd::pervasive::unreached;
use vstd::prelude::*;

verus! {

/// The rows of `slots` that are present, by key.
pub open spec fn present<V>(slots: Seq<Option<V>>) -> Map<DocKey, V> {
    Map::new(
        |k: DocKey| k.index() < slots.len() && slots[k.index() as int] is Some,
        |k: DocKey| slots[k.index() as int]->0,
    )
}

/// Filling or replacing one slot adds that key's row and touches no other.
pub proof fn lemma_present_update<V>(slots: Seq<Option<V>>, key: DocKey, value: V)
    requires
        key.index() < slots.len(),
    ensures
        present(slots.update(key.index() as int, Some(value))) == present(slots).insert(
            key,
            value,
        ),
{
    assert forall|k: DocKey| k != key implies k.index() != key.index() by {
        DocKey::lemma_index_injective(k, key);
    }
    assert(present(slots.update(key.index() as int, Some(value))) =~= present(slots).insert(
        key,
        value,
    ));
}

/// Emptying one slot drops that key's row and touches no other.
pub proof fn lemma_present_clear<V>(slots: Seq<Option<V>>, key: DocKey)
    requires
        key.index() < slots.len(),
    ensures
        present(slots.update(key.index() as int, None)) == present(slots).remove(key),
{
    assert forall|k: DocKey| k != key implies k.index() != key.index() by {
        DocKey::lemma_index_injective(k, key);
    }
    assert(present(slots.update(key.index() as int, None)) =~= present(slots).remove(key));
}

/// Growing by an empty slot changes no row.
pub proof fn lemma_present_push_none<V>(slots: Seq<Option<V>>)
    ensures
        present(slots.push(None)) == present(slots),
{
    assert(present(slots.push(None)) =~= present(slots));
}

/// The item store: owns every value, and names each by a key of its own.
///
/// Inserting allocates a key that was never in use before. Removing a value
/// retires its key for good.
pub struct Arena<V> {
    slots: Vec<Option<V>>,
}

impl<V> View for Arena<V> {
    type V = Map<DocKey, V>;

    closed spec fn view(&self) -> Map<DocKey, V> {
        present(self.slots@)
    }
}

impl<V> Arena<V> {
    /// The slot number that the next insertion will use. Every key handed
    /// out so far lies below it.
    pub closed spec fn next(&self) -> nat {
        self.slots@.len()
    }

    /// Every key in use lies below `next`.
    pub proof fn lemma_keys_below_next(&self)
        ensures
            forall|k: DocKey| self@.contains_key(k) ==> k.index() < self.next(),
    {
    }

    pub fn new() -> (arena: Arena<V>)
        ensures
            arena@ == Map::<DocKey, V>::empty(),
            arena.next() == 0,
    {
        let arena = Arena { slots: Vec::new() };
        assert(arena@ =~= Map::<DocKey, V>::empty());
        arena
    }

    /// Stores `value` under a fresh key and returns the key.
    pub fn insert(&mut self, value: V) -> (key: DocKey)
        ensures
            key.index() == old(self).next(),
            !old(self)@.contains_key(key),
            final(self).next() == old(self).next() + 1,
            final(self)@ == old(self)@.insert(key, value),
    {
        let key = DocKey::from_slot(self.slots.len());
        proof {
            lemma_present_update(self.slots@.push(None), key, value);
            lemma_present_push_none(self.slots@);
            assert(self.slots@.push(None).update(key.index() as int, Some(value))
                =~= self.slots@.push(Some(value)));
        }
        self.slots.push(Some(value));
        key
    }

    pub fn get(&self, key: DocKey) -> (value: Option<&V>)
        ensures
            match value {
                Some(v) => self@.contains_key(key) && *v == self@[key],
                None => !self@.contains_key(key),
            },
    {
        let slot = key.slot();
        if slot < self.slots.len() {
            self.slots[slot].as_ref()
        } else {
            None
        }
    }

    /// The value under `key`, for changing in place.
    pub fn get_mut(&mut self, key: DocKey) -> (value: &mut V)
        requires
            old(self)@.contains_key(key),
        ensures
            *value == old(self)@[key],
            final(self)@ == old(self)@.insert(key, *final(value)),
            final(self).next() == old(self).next(),
    {
        let slot = key.slot();
        proof {
            assert forall|v: V| #[trigger]
                present(self.slots@.update(key.index() as int, Some(v))) == present(
                    self.slots@,
                ).insert(key, v) by {
                lemma_present_update(self.slots@, key, v);
            }
        }
        match &mut self.slots[slot] {
            Some(v) => v,
            None => unreached(),
        }
    }

    /// Drops the value under `key`, if there is one, and returns it.
    pub fn remove(&mut self, key: DocKey) -> (value: Option<V>)
        ensures
            value == (if old(self)@.contains_key(key) {
                Some(old(self)@[key])
            } else {
                None
            }),
            final(self)@ == old(self)@.remove(key),
            final(self).next() == old(self).next(),
    {
        let slot = key.slot();
        if slot < self.slots.len() {
            proof {
                lemma_present_clear(self.slots@, key);
            }
            self.slots[slot].take()
        } else {
            assert(self@.remove(key) =~= self@);
            None
        }
    }
}

/// A side table over the keys of an arena: at most one row per key.
///
/// The table knows nothing of the arena. Whoever drops a value from the arena
/// is responsible for the rows kept here under its key.
pub struct SideTable<V> {
    slots: Vec<Option<V>>,
}

impl<V> View for SideTable<V> {
    type V = Map<DocKey, V>;

    closed spec fn view(&self) -> Map<DocKey, V> {
        present(self.slots@)
    }
}

impl<V> SideTable<V> {
    pub fn new() -> (table: SideTable<V>)
        ensures
            table@ == Map::<DocKey, V>::empty(),
    {
        let table = SideTable { slots: Vec::new() };
        assert(table@ =~= Map::<DocKey, V>::empty());
        table
    }

    pub fn contains_key(&self, key: DocKey) -> (found: bool)
        ensures
            found == self@.contains_key(key),
    {
        let slot = key.slot();
        slot < self.slots.len() && self.slots[slot].is_some()
    }

    /// Sets the row of `key`, replacing the one that was there.
    pub fn insert(&mut self, key: DocKey, value: V)
        ensures
            final(self)@ == old(self)@.insert(key, value),
    {
        let slot = key.slot();
        while self.slots.len() <= slot
            invariant
                present(self.slots@) == present(old(self).slots@),
                slot == key.index(),
            decreases slot + 1 - self.slots.len(),
        {
            proof {
                lemma_present_push_none(self.slots@);
            }
            self.slots.push(None);
        }
        proof {
            lemma_present_update(self.slots@, key, value);
        }
        self.slots[slot] = Some(value);
    }

    pub fn get(&self, key: DocKey) -> (value: Option<&V>)
        ensures
            match value {
                Some(v) => self@.contains_key(key) && *v == self@[key],
                None => !self@.contains_key(key),
            },
    {
        let slot = key.slot();
        if slot < self.slots.len() {
            self.slots[slot].as_ref()
        } else {
            None
        }
    }

    /// The row of `key`, for changing in place.
    pub fn get_mut(&mut self, key: DocKey) -> (value: &mut V)
        requires
            old(self)@.contains_key(key),
        ensures
            *value == old(self)@[key],
            final(self)@ == old(self)@.insert(key, *final(value)),
    {
        let slot = key.slot();
        proof {
            assert forall|v: V| #[trigger]
                present(self.slots@.update(key.index() as int, Some(v))) == present(
                    self.slots@,
                ).insert(key, v) by {
                lemma_present_update(self.slots@, key, v);
            }
        }
        match &mut self.slots[slot] {
            Some(v) => v,
            None => unreached(),
        }
    }

    /// Drops the row of `key`, if there is one.
    pub fn remove(&mut self, key: DocKey)
        ensures
            final(self)@ == old(self)@.remove(key),
    {
        let slot = key.slot();
        if slot < self.slots.len() {
            proof {
                lemma_present_clear(self.slots@, key);
            }
            self.slots[slot] = None;
        } else {
            assert(self@.remove(key) =~= self@);
        }
    }
}

} // verus!
