//! Entries of an arena: the place of one key, looked up once and then read,
//! changed, filled or emptied.
use vstd::prelude::*;

use crate::arena::EpochSparseArena;
use crate::key::Key;

verus! {

/// The entry of a key that resolves in the arena.
pub struct OccupiedEntry<'a, K: Key, V> {
    pub key: K,
    pub dense_index: usize,
    pub arena: &'a mut EpochSparseArena<K, V>,
}

/// The entry of a key that does not resolve in the arena.
pub struct VacantEntry<'a, K: Key, V> {
    pub key: K,
    pub arena: &'a mut EpochSparseArena<K, V>,
}

/// The entry of a key, occupied or vacant.
pub enum Entry<'a, K: Key, V> {
    Occupied(OccupiedEntry<'a, K, V>),
    Vacant(VacantEntry<'a, K, V>),
}

impl<'a, K: Key, V> OccupiedEntry<'a, K, V> {
    /// The arena as the entry sees it.
    pub open spec fn spec_arena(&self) -> EpochSparseArena<K, V> {
        *self.arena
    }

    /// The key resolves in the arena to the entry's dense index.
    pub open spec fn spec_valid(&self) -> bool {
        &&& self.spec_arena().wf()
        &&& self.spec_arena().spec_lookup(self.key) == Some(self.dense_index as nat)
    }

    /// The value stored under the entry's key.
    pub open spec fn spec_value(&self) -> V {
        self.spec_arena()@[self.key]
    }

    /// The key of the entry.
    pub fn key(&self) -> (key: K)
        ensures
            key == self.key,
    {
        self.key
    }

    /// The value of the entry.
    pub fn get(&self) -> (value: &V)
        requires
            self.spec_valid(),
        ensures
            *value == self.spec_value(),
    {
        proof {
            self.spec_arena().lemma_lookup(self.key);
        }
        self.arena.index(self.key)
    }

    /// The value of the entry, for change.
    pub fn get_mut(&mut self) -> (value: &mut V)
        requires
            old(self).spec_valid(),
        ensures
            *value == old(self).spec_value(),
            final(self).key == old(self).key,
            final(self).dense_index == old(self).dense_index,
            final(self).spec_valid(),
            final(self).spec_arena().dense_values_view() == old(self).spec_arena().dense_values_view().update(
                old(self).dense_index as int,
                *final(value),
            ),
            final(self).spec_arena().dense_keys_view() == old(self).spec_arena().dense_keys_view(),
            final(self).spec_arena().sparse_view() == old(self).spec_arena().sparse_view(),
            final(self).spec_arena().vacant_view() == old(self).spec_arena().vacant_view(),
            *final(final(self).arena) == *final(old(self).arena),
    {
        proof {
            self.spec_arena().lemma_lookup(self.key);
        }
        self.arena.index_mut(self.key)
    }
    /// The value of the entry, for change, for as long as the arena is
    /// borrowed.
    pub fn into_mut(self) -> (value: &'a mut V)
        requires
            self.spec_valid(),
        ensures
            *value == self.spec_value(),
            (*final(self.arena)).wf(),
            (*final(self.arena)).dense_values_view() == self.spec_arena().dense_values_view().update(
                self.dense_index as int,
                *final(value),
            ),
            (*final(self.arena)).dense_keys_view() == self.spec_arena().dense_keys_view(),
            (*final(self.arena)).sparse_view() == self.spec_arena().sparse_view(),
            (*final(self.arena)).vacant_view() == self.spec_arena().vacant_view(),
    {
        proof {
            self.spec_arena().lemma_lookup(self.key);
        }
        let OccupiedEntry { key, dense_index: _, arena } = self;
        arena.index_mut(key)
    }

    /// Stores `value` in the entry and hands back the value it held.
    pub fn insert(&mut self, value: V) -> (previous: V)
        requires
            old(self).spec_valid(),
        ensures
            previous == old(self).spec_value(),
            final(self).key == old(self).key,
            final(self).dense_index == old(self).dense_index,
            final(self).spec_valid(),
            final(self).spec_value() == value,
            final(self).spec_arena().dense_values_view() == old(self).spec_arena().dense_values_view().update(
                old(self).dense_index as int,
                value,
            ),
            final(self).spec_arena().dense_keys_view() == old(self).spec_arena().dense_keys_view(),
            final(self).spec_arena().sparse_view() == old(self).spec_arena().sparse_view(),
            final(self).spec_arena().vacant_view() == old(self).spec_arena().vacant_view(),
            final(self).spec_arena()@ == old(self).spec_arena()@.insert(old(self).key, value),
            *final(final(self).arena) == *final(old(self).arena),
    {
        proof {
            self.spec_arena().lemma_lookup(self.key);
        }
        let ghost before = self.spec_arena();
        let ghost stored = value;
        let mut held = value;
        let slot = self.arena.index_mut(self.key);
        core::mem::swap(slot, &mut held);
        proof {
            let value = stored;
            let after = self.spec_arena();
            before.lemma_view_domain();
            assert forall|k: K| #[trigger] after@.contains_key(k) == before@.insert(self.key, value).contains_key(k)
                && (after@.contains_key(k) ==> after@[k] == before@.insert(self.key, value)[k]) by {
                before.lemma_lookup(k);
            }
            assert(after@ =~= before@.insert(self.key, value));
        }
        held
    }

    /// Removes the entry from the arena, keeping the order of the others,
    /// and hands back its value.
    pub fn remove(self) -> (value: V)
        requires
            self.spec_valid(),
            self.spec_arena().spec_can_vacate(),
        ensures
            value == self.spec_value(),
            (*final(self.arena)).wf(),
            self.spec_arena().spec_removed(&*final(self.arena), self.key, self.dense_index as nat),
            (*final(self.arena))@ == self.spec_arena()@.remove(self.key),
    {
        proof {
            self.spec_arena().lemma_lookup(self.key);
        }
        let OccupiedEntry { key, dense_index: _, arena } = self;
        arena.remove(key).unwrap()
    }

    /// Removes the entry from the arena, moving the last entry into its
    /// place, and hands back its value.
    pub fn swap_remove(self) -> (value: V)
        requires
            self.spec_valid(),
            self.spec_arena().spec_can_vacate(),
        ensures
            value == self.spec_value(),
            (*final(self.arena)).wf(),
            self.spec_arena().spec_swap_removed(&*final(self.arena), self.key, self.dense_index as nat),
            (*final(self.arena))@ == self.spec_arena()@.remove(self.key),
    {
        proof {
            self.spec_arena().lemma_lookup(self.key);
        }
        let OccupiedEntry { key, dense_index: _, arena } = self;
        arena.swap_remove(key).unwrap()
    }
}

impl<'a, K: Key, V> VacantEntry<'a, K, V> {
    /// The arena as the entry sees it.
    pub open spec fn spec_arena(&self) -> EpochSparseArena<K, V> {
        *self.arena
    }

    /// The key does not resolve in the arena.
    pub open spec fn spec_valid(&self) -> bool {
        &&& self.spec_arena().wf()
        &&& self.spec_arena().spec_lookup(self.key) is None
    }

    /// The key of the entry.
    pub fn key(&self) -> (key: K)
        ensures
            key == self.key,
    {
        self.key
    }

    /// Stores `value` under the entry's key at the end of the dense array and
    /// hands back the stored value for change.  The key's slot must be free
    /// for it: beyond the sparse array, or vacant and not newer than the key.
    pub fn insert(self, value: V) -> (stored: &'a mut V)
        requires
            self.spec_valid(),
            self.spec_arena().spec_slot_free(self.key),
            self.spec_arena().spec_insert_fits(self.key),
        ensures
            *stored == value,
            (*final(self.arena)).wf(),
            self.spec_arena().spec_opened(&*final(self.arena), self.key, *final(stored)),
    {
        let ghost before = self.spec_arena();
        let VacantEntry { key, arena } = self;
        let n = arena.len();
        arena.insert(key, value);
        let ghost opened = *arena;
        proof {
            before.lemma_view_domain();
            K::lemma_index_of_nat(n as nat);
            opened.lemma_lookup(key);
        }
        let stored = arena.index_mut(key);
        proof {
            lemma_push_then_set(before.dense_values_view(), value, *final(stored));
        }
        stored
    }

    /// Stores `value` under the entry's key at the end of the dense array and
    /// hands back the entry, now occupied.  The key's slot must be free for
    /// it, as for `insert`.
    pub fn insert_entry(self, value: V) -> (entry: OccupiedEntry<'a, K, V>)
        requires
            self.spec_valid(),
            self.spec_arena().spec_slot_free(self.key),
            self.spec_arena().spec_insert_fits(self.key),
        ensures
            entry.key == self.key,
            entry.dense_index == self.spec_arena().spec_len(),
            entry.spec_valid(),
            entry.spec_value() == value,
            self.spec_arena().spec_opened(&entry.spec_arena(), self.key, value),
            entry.spec_arena()@ == self.spec_arena()@.insert(self.key, value),
            *final(entry.arena) == *final(self.arena),
    {
        let ghost before = self.spec_arena();
        let VacantEntry { key, arena } = self;
        let n = arena.len();
        arena.insert(key, value);
        proof {
            K::lemma_index_of_nat(n as nat);
            arena.lemma_lookup(key);
            before.lemma_opened_view(&*arena, key, value);
        }
        OccupiedEntry { key, dense_index: n, arena }
    }
}

impl<'a, K: Key, V> Entry<'a, K, V> {
    /// The key of the entry.
    pub open spec fn spec_key(&self) -> K {
        match self {
            Entry::Occupied(entry) => entry.key,
            Entry::Vacant(entry) => entry.key,
        }
    }

    /// The arena as the entry sees it.
    pub open spec fn spec_arena(&self) -> EpochSparseArena<K, V> {
        match self {
            Entry::Occupied(entry) => entry.spec_arena(),
            Entry::Vacant(entry) => entry.spec_arena(),
        }
    }

    /// An occupied entry's key resolves to its dense index; a vacant entry's
    /// key does not resolve.
    pub open spec fn spec_valid(&self) -> bool {
        match self {
            Entry::Occupied(entry) => entry.spec_valid(),
            Entry::Vacant(entry) => entry.spec_valid(),
        }
    }

    /// Whether the key resolves.
    pub fn is_occupied(&self) -> (occupied: bool)
        ensures
            occupied == self is Occupied,
    {
        match self {
            Entry::Occupied(_) => true,
            Entry::Vacant(_) => false,
        }
    }

    /// Whether the key does not resolve.
    pub fn is_vacant(&self) -> (vacant: bool)
        ensures
            vacant == self is Vacant,
    {
        match self {
            Entry::Occupied(_) => false,
            Entry::Vacant(_) => true,
        }
    }

    /// The key of the entry.
    pub fn key(&self) -> (key: K)
        ensures
            key == self.spec_key(),
    {
        match self {
            Entry::Occupied(entry) => entry.key(),
            Entry::Vacant(entry) => entry.key(),
        }
    }

    /// The value of an occupied entry.
    pub fn get(&self) -> (value: Option<&V>)
        requires
            self.spec_valid(),
        ensures
            value is Some == self is Occupied,
            self matches Entry::Occupied(entry) ==> *value->0 == entry.spec_value(),
    {
        match self {
            Entry::Occupied(entry) => Some(entry.get()),
            Entry::Vacant(_) => None,
        }
    }

    /// The value of an occupied entry, for change.
    pub fn get_mut(&mut self) -> (value: Option<&mut V>)
        requires
            old(self).spec_valid(),
        ensures
            value is Some == (*old(self) is Occupied),
            *old(self) is Vacant ==> *final(self) == *old(self),
            *old(self) matches Entry::Occupied(entry) ==> {
                let changed = (*final(self))->Occupied_0;
                &&& *final(self) is Occupied
                &&& *value->0 == entry.spec_value()
                &&& changed.key == entry.key
                &&& changed.dense_index == entry.dense_index
                &&& changed.spec_valid()
                &&& changed.spec_arena().dense_values_view() == entry.spec_arena().dense_values_view().update(
                    entry.dense_index as int,
                    *final(value->0),
                )
                &&& changed.spec_arena().dense_keys_view() == entry.spec_arena().dense_keys_view()
                &&& changed.spec_arena().sparse_view() == entry.spec_arena().sparse_view()
                &&& changed.spec_arena().vacant_view() == entry.spec_arena().vacant_view()
                &&& *final(changed.arena) == *final(entry.arena)
            },
    {
        match self {
            Entry::Occupied(entry) => Some(entry.get_mut()),
            Entry::Vacant(_) => None,
        }
    }

    /// The value of the entry for change, storing `default` first if the
    /// entry is vacant (its key's slot must then be free for it).
    pub fn or_insert(self, default: V) -> (value: &'a mut V)
        requires
            self.spec_valid(),
            self is Vacant ==> self.spec_arena().spec_slot_free(self.spec_key())
                && self.spec_arena().spec_insert_fits(self.spec_key()),
        ensures
            self matches Entry::Occupied(entry) ==> {
                &&& *value == entry.spec_value()
                &&& (*final(entry.arena)).wf()
                &&& (*final(entry.arena)).dense_values_view() == entry.spec_arena().dense_values_view().update(
                    entry.dense_index as int,
                    *final(value),
                )
                &&& (*final(entry.arena)).dense_keys_view() == entry.spec_arena().dense_keys_view()
                &&& (*final(entry.arena)).sparse_view() == entry.spec_arena().sparse_view()
                &&& (*final(entry.arena)).vacant_view() == entry.spec_arena().vacant_view()
            },
            self matches Entry::Vacant(entry) ==> {
                &&& *value == default
                &&& (*final(entry.arena)).wf()
                &&& entry.spec_arena().spec_opened(&*final(entry.arena), entry.key, *final(value))
            },
    {
        match self {
            Entry::Occupied(entry) => entry.into_mut(),
            Entry::Vacant(entry) => entry.insert(default),
        }
    }

    /// The value of the entry for change, storing the value that `default`
    /// makes first if the entry is vacant (its key's slot must then be free
    /// for it); `default` is called only then.
    pub fn or_insert_with<F: FnOnce() -> V>(self, default: F) -> (value: &'a mut V)
        requires
            self.spec_valid(),
            self is Vacant ==> self.spec_arena().spec_slot_free(self.spec_key())
                && self.spec_arena().spec_insert_fits(self.spec_key()) && call_requires(default, ()),
        ensures
            self matches Entry::Occupied(entry) ==> {
                &&& *value == entry.spec_value()
                &&& (*final(entry.arena)).wf()
                &&& (*final(entry.arena)).dense_values_view() == entry.spec_arena().dense_values_view().update(
                    entry.dense_index as int,
                    *final(value),
                )
                &&& (*final(entry.arena)).dense_keys_view() == entry.spec_arena().dense_keys_view()
                &&& (*final(entry.arena)).sparse_view() == entry.spec_arena().sparse_view()
                &&& (*final(entry.arena)).vacant_view() == entry.spec_arena().vacant_view()
            },
            self matches Entry::Vacant(entry) ==> {
                &&& call_ensures(default, (), *value)
                &&& (*final(entry.arena)).wf()
                &&& entry.spec_arena().spec_opened(&*final(entry.arena), entry.key, *final(value))
            },
    {
        match self {
            Entry::Occupied(entry) => entry.into_mut(),
            Entry::Vacant(entry) => entry.insert(default()),
        }
    }

    /// The value of the entry for change, storing the default value first if
    /// the entry is vacant (its key's slot must then be free for it).
    pub fn or_default(self) -> (value: &'a mut V) where V: Default
        requires
            self.spec_valid(),
            self is Vacant ==> self.spec_arena().spec_slot_free(self.spec_key())
                && self.spec_arena().spec_insert_fits(self.spec_key()),
        ensures
            self matches Entry::Occupied(entry) ==> {
                &&& *value == entry.spec_value()
                &&& (*final(entry.arena)).wf()
                &&& (*final(entry.arena)).dense_values_view() == entry.spec_arena().dense_values_view().update(
                    entry.dense_index as int,
                    *final(value),
                )
                &&& (*final(entry.arena)).dense_keys_view() == entry.spec_arena().dense_keys_view()
                &&& (*final(entry.arena)).sparse_view() == entry.spec_arena().sparse_view()
                &&& (*final(entry.arena)).vacant_view() == entry.spec_arena().vacant_view()
            },
            self matches Entry::Vacant(entry) ==> {
                &&& (*final(entry.arena)).wf()
                &&& entry.spec_arena().spec_opened(&*final(entry.arena), entry.key, *final(value))
            },
    {
        match self {
            Entry::Occupied(entry) => entry.into_mut(),
            Entry::Vacant(entry) => entry.insert(V::default()),
        }
    }

    /// Stores `value` under the entry's key, in place if the entry is
    /// occupied and at the end of the dense array if it is vacant (its key's
    /// slot must then be free for it), and hands back the occupied entry.
    pub fn insert_entry(self, value: V) -> (entry: OccupiedEntry<'a, K, V>)
        requires
            self.spec_valid(),
            self is Vacant ==> self.spec_arena().spec_slot_free(self.spec_key())
                && self.spec_arena().spec_insert_fits(self.spec_key()),
        ensures
            entry.key == self.spec_key(),
            entry.spec_valid(),
            entry.spec_value() == value,
            entry.spec_arena()@ == self.spec_arena()@.insert(self.spec_key(), value),
            self matches Entry::Occupied(occupied) ==> {
                &&& entry.dense_index == occupied.dense_index
                &&& *final(entry.arena) == *final(occupied.arena)
            },
            self matches Entry::Vacant(vacant) ==> {
                &&& entry.dense_index == vacant.spec_arena().spec_len()
                &&& vacant.spec_arena().spec_opened(&entry.spec_arena(), vacant.key, value)
                &&& *final(entry.arena) == *final(vacant.arena)
            },
    {
        match self {
            Entry::Occupied(mut entry) => {
                entry.insert(value);
                entry
            },
            Entry::Vacant(entry) => entry.insert_entry(value),
        }
    }
}

/// Setting the element just pushed is pushing the new element.
pub(crate) proof fn lemma_push_then_set<T>(s: Seq<T>, pushed: T, set: T)
    ensures
        s.push(pushed).update(s.len() as int, set) == s.push(set),
{
    assert(s.push(pushed).update(s.len() as int, set) =~= s.push(set));
}

} // verus!
