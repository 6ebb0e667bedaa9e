//! Entries of a set: the place of one key, looked up once and then read,
//! changed, filled or emptied.
use vstd::prelude::*;

use crate::entry::lemma_push_then_set;
use crate::item::sparse::default::DefaultSparseItem;
use crate::item::sparse::traits::SparseItem;
use crate::key::Key;
use crate::set::EpochSparseSet;

verus! {

/// The entry of a key that resolves in the set.
pub struct OccupiedEntry<'a, K: Key, V, S: SparseItem<Index = K::SparseIndex, Epoch = K::Epoch> = DefaultSparseItem<K>> {
    pub key: K,
    pub dense_index: usize,
    pub set: &'a mut EpochSparseSet<K, V, S>,
}

/// The entry of a key that does not resolve in the set.
pub struct VacantEntry<'a, K: Key, V, S: SparseItem<Index = K::SparseIndex, Epoch = K::Epoch> = DefaultSparseItem<K>> {
    pub key: K,
    pub set: &'a mut EpochSparseSet<K, V, S>,
}

/// The entry of a key, occupied or vacant.
pub enum Entry<'a, K: Key, V, S: SparseItem<Index = K::SparseIndex, Epoch = K::Epoch> = DefaultSparseItem<K>> {
    Occupied(OccupiedEntry<'a, K, V, S>),
    Vacant(VacantEntry<'a, K, V, S>),
}

impl<'a, K: Key, V, S: SparseItem<Index = K::SparseIndex, Epoch = K::Epoch>> OccupiedEntry<'a, K, V, S> {
    /// The set as the entry sees it.
    pub open spec fn spec_set(&self) -> EpochSparseSet<K, V, S> {
        *self.set
    }

    /// The key resolves in the set to the entry's dense index.
    pub open spec fn spec_valid(&self) -> bool {
        &&& self.spec_set().wf()
        &&& self.spec_set().spec_lookup(self.key) == Some(self.dense_index as nat)
    }

    /// The value stored under the entry's key.
    pub open spec fn spec_value(&self) -> V {
        self.spec_set()@[self.key]
    }

    /// The key of the entry.
    pub fn key(&self) -> (key: K)
        ensures
            key == self.key,
    {
        self.key
    }

    /// The value of the entry.
    pub fn get(&self) -> (value: &V)
        requires
            self.spec_valid(),
        ensures
            *value == self.spec_value(),
    {
        proof {
            self.spec_set().lemma_lookup(self.key);
        }
        self.set.index(self.key)
    }

    /// The value of the entry, for change.
    pub fn get_mut(&mut self) -> (value: &mut V)
        requires
            old(self).spec_valid(),
        ensures
            *value == old(self).spec_value(),
            final(self).key == old(self).key,
            final(self).dense_index == old(self).dense_index,
            final(self).spec_valid(),
            final(self).spec_set().dense_values_view() == old(self).spec_set().dense_values_view().update(
                old(self).dense_index as int,
                *final(value),
            ),
            final(self).spec_set().dense_keys_view() == old(self).spec_set().dense_keys_view(),
            final(self).spec_set().sparse_view() == old(self).spec_set().sparse_view(),
            *final(final(self).set) == *final(old(self).set),
    {
        proof {
            self.spec_set().lemma_lookup(self.key);
        }
        self.set.index_mut(self.key)
    }
    /// The value of the entry, for change, for as long as the set is
    /// borrowed.
    pub fn into_mut(self) -> (value: &'a mut V)
        requires
            self.spec_valid(),
        ensures
            *value == self.spec_value(),
            (*final(self.set)).wf(),
            (*final(self.set)).dense_values_view() == self.spec_set().dense_values_view().update(
                self.dense_index as int,
                *final(value),
            ),
            (*final(self.set)).dense_keys_view() == self.spec_set().dense_keys_view(),
            (*final(self.set)).sparse_view() == self.spec_set().sparse_view(),
    {
        proof {
            self.spec_set().lemma_lookup(self.key);
        }
        let OccupiedEntry { key, dense_index: _, set } = self;
        set.index_mut(key)
    }

    /// Stores `value` in the entry and hands back the value it held.
    pub fn insert(&mut self, value: V) -> (previous: V)
        requires
            old(self).spec_valid(),
        ensures
            previous == old(self).spec_value(),
            final(self).key == old(self).key,
            final(self).dense_index == old(self).dense_index,
            final(self).spec_valid(),
            final(self).spec_value() == value,
            final(self).spec_set().dense_values_view() == old(self).spec_set().dense_values_view().update(
                old(self).dense_index as int,
                value,
            ),
            final(self).spec_set().dense_keys_view() == old(self).spec_set().dense_keys_view(),
            final(self).spec_set().sparse_view() == old(self).spec_set().sparse_view(),
            final(self).spec_set()@ == old(self).spec_set()@.insert(old(self).key, value),
            *final(final(self).set) == *final(old(self).set),
    {
        proof {
            self.spec_set().lemma_lookup(self.key);
        }
        let ghost before = self.spec_set();
        let ghost stored = value;
        let mut held = value;
        let slot = self.set.index_mut(self.key);
        core::mem::swap(slot, &mut held);
        proof {
            let value = stored;
            let after = self.spec_set();
            before.lemma_view_domain();
            assert forall|k: K| #[trigger] after@.contains_key(k) == before@.insert(self.key, value).contains_key(k)
                && (after@.contains_key(k) ==> after@[k] == before@.insert(self.key, value)[k]) by {
                before.lemma_lookup(k);
            }
            assert(after@ =~= before@.insert(self.key, value));
        }
        held
    }

    /// Removes the entry from the set, keeping the order of the others,
    /// and hands back its value.
    pub fn remove(self) -> (value: V)
        requires
            self.spec_valid(),
        ensures
            value == self.spec_value(),
            (*final(self.set)).wf(),
            self.spec_set().spec_removed(&*final(self.set), self.key, self.dense_index as nat),
            (*final(self.set))@ == self.spec_set()@.remove(self.key),
    {
        proof {
            self.spec_set().lemma_lookup(self.key);
        }
        let OccupiedEntry { key, dense_index: _, set } = self;
        set.remove(key).unwrap()
    }

    /// Removes the entry from the set, moving the last entry into its
    /// place, and hands back its value.
    pub fn swap_remove(self) -> (value: V)
        requires
            self.spec_valid(),
        ensures
            value == self.spec_value(),
            (*final(self.set)).wf(),
            self.spec_set().spec_swap_removed(&*final(self.set), self.key, self.dense_index as nat),
            (*final(self.set))@ == self.spec_set()@.remove(self.key),
    {
        proof {
            self.spec_set().lemma_lookup(self.key);
        }
        let OccupiedEntry { key, dense_index: _, set } = self;
        set.swap_remove(key).unwrap()
    }
}

impl<'a, K: Key, V, S: SparseItem<Index = K::SparseIndex, Epoch = K::Epoch>> VacantEntry<'a, K, V, S> {
    /// The set as the entry sees it.
    pub open spec fn spec_set(&self) -> EpochSparseSet<K, V, S> {
        *self.set
    }

    /// The key does not resolve in the set.
    pub open spec fn spec_valid(&self) -> bool {
        &&& self.spec_set().wf()
        &&& self.spec_set().spec_lookup(self.key) is None
    }

    /// The key of the entry.
    pub fn key(&self) -> (key: K)
        ensures
            key == self.key,
    {
        self.key
    }

    /// Stores `value` under the entry's key at the end of the dense array and
    /// hands back the stored value for change.  The key's slot must be free
    /// for it: beyond the sparse array, or vacant and not newer than the key.
    pub fn insert(self, value: V) -> (stored: &'a mut V)
        requires
            self.spec_valid(),
            self.spec_set().spec_slot_free(self.key),
            self.spec_set().spec_insert_fits(self.key),
        ensures
            *stored == value,
            (*final(self.set)).wf(),
            self.spec_set().spec_opened(&*final(self.set), self.key, *final(stored)),
    {
        let ghost before = self.spec_set();
        let VacantEntry { key, set } = self;
        let n = set.len();
        set.insert(key, value);
        let ghost opened = *set;
        proof {
            before.lemma_view_domain();
            K::lemma_index_of_nat(n as nat);
            opened.lemma_lookup(key);
        }
        let stored = set.index_mut(key);
        proof {
            lemma_push_then_set(before.dense_values_view(), value, *final(stored));
        }
        stored
    }

    /// Stores `value` under the entry's key at the end of the dense array and
    /// hands back the entry, now occupied.  The key's slot must be free for
    /// it, as for `insert`.
    pub fn insert_entry(self, value: V) -> (entry: OccupiedEntry<'a, K, V, S>)
        requires
            self.spec_valid(),
            self.spec_set().spec_slot_free(self.key),
            self.spec_set().spec_insert_fits(self.key),
        ensures
            entry.key == self.key,
            entry.dense_index == self.spec_set().spec_len(),
            entry.spec_valid(),
            entry.spec_value() == value,
            self.spec_set().spec_opened(&entry.spec_set(), self.key, value),
            entry.spec_set()@ == self.spec_set()@.insert(self.key, value),
            *final(entry.set) == *final(self.set),
    {
        let ghost before = self.spec_set();
        let VacantEntry { key, set } = self;
        let n = set.len();
        set.insert(key, value);
        proof {
            K::lemma_index_of_nat(n as nat);
            set.lemma_lookup(key);
            before.lemma_opened_view(&*set, key, value);
        }
        OccupiedEntry { key, dense_index: n, set }
    }
}

impl<'a, K: Key, V, S: SparseItem<Index = K::SparseIndex, Epoch = K::Epoch>> Entry<'a, K, V, S> {
    /// The key of the entry.
    pub open spec fn spec_key(&self) -> K {
        match self {
            Entry::Occupied(entry) => entry.key,
            Entry::Vacant(entry) => entry.key,
        }
    }

    /// The set as the entry sees it.
    pub open spec fn spec_set(&self) -> EpochSparseSet<K, V, S> {
        match self {
            Entry::Occupied(entry) => entry.spec_set(),
            Entry::Vacant(entry) => entry.spec_set(),
        }
    }

    /// An occupied entry's key resolves to its dense index; a vacant entry's
    /// key does not resolve.
    pub open spec fn spec_valid(&self) -> bool {
        match self {
            Entry::Occupied(entry) => entry.spec_valid(),
            Entry::Vacant(entry) => entry.spec_valid(),
        }
    }

    /// Whether the key resolves.
    pub fn is_occupied(&self) -> (occupied: bool)
        ensures
            occupied == self is Occupied,
    {
        match self {
            Entry::Occupied(_) => true,
            Entry::Vacant(_) => false,
        }
    }

    /// Whether the key does not resolve.
    pub fn is_vacant(&self) -> (vacant: bool)
        ensures
            vacant == self is Vacant,
    {
        match self {
            Entry::Occupied(_) => false,
            Entry::Vacant(_) => true,
        }
    }

    /// The key of the entry.
    pub fn key(&self) -> (key: K)
        ensures
            key == self.spec_key(),
    {
        match self {
            Entry::Occupied(entry) => entry.key(),
            Entry::Vacant(entry) => entry.key(),
        }
    }

    /// The value of an occupied entry.
    pub fn get(&self) -> (value: Option<&V>)
        requires
            self.spec_valid(),
        ensures
            value is Some == self is Occupied,
            self matches Entry::Occupied(entry) ==> *value->0 == entry.spec_value(),
    {
        match self {
            Entry::Occupied(entry) => Some(entry.get()),
            Entry::Vacant(_) => None,
        }
    }

    /// The value of an occupied entry, for change.
    pub fn get_mut(&mut self) -> (value: Option<&mut V>)
        requires
            old(self).spec_valid(),
        ensures
            value is Some == (*old(self) is Occupied),
            *old(self) is Vacant ==> *final(self) == *old(self),
            *old(self) matches Entry::Occupied(entry) ==> {
                let changed = (*final(self))->Occupied_0;
                &&& *final(self) is Occupied
                &&& *value->0 == entry.spec_value()
                &&& changed.key == entry.key
                &&& changed.dense_index == entry.dense_index
                &&& changed.spec_valid()
                &&& changed.spec_set().dense_values_view() == entry.spec_set().dense_values_view().update(
                    entry.dense_index as int,
                    *final(value->0),
                )
                &&& changed.spec_set().dense_keys_view() == entry.spec_set().dense_keys_view()
                &&& changed.spec_set().sparse_view() == entry.spec_set().sparse_view()
                &&& *final(changed.set) == *final(entry.set)
            },
    {
        match self {
            Entry::Occupied(entry) => Some(entry.get_mut()),
            Entry::Vacant(_) => None,
        }
    }

    /// The value of the entry for change, storing `default` first if the
    /// entry is vacant (its key's slot must then be free for it).
    pub fn or_insert(self, default: V) -> (value: &'a mut V)
        requires
            self.spec_valid(),
            self is Vacant ==> self.spec_set().spec_slot_free(self.spec_key())
                && self.spec_set().spec_insert_fits(self.spec_key()),
        ensures
            self matches Entry::Occupied(entry) ==> {
                &&& *value == entry.spec_value()
                &&& (*final(entry.set)).wf()
                &&& (*final(entry.set)).dense_values_view() == entry.spec_set().dense_values_view().update(
                    entry.dense_index as int,
                    *final(value),
                )
                &&& (*final(entry.set)).dense_keys_view() == entry.spec_set().dense_keys_view()
                &&& (*final(entry.set)).sparse_view() == entry.spec_set().sparse_view()
            },
            self matches Entry::Vacant(entry) ==> {
                &&& *value == default
                &&& (*final(entry.set)).wf()
                &&& entry.spec_set().spec_opened(&*final(entry.set), entry.key, *final(value))
            },
    {
        match self {
            Entry::Occupied(entry) => entry.into_mut(),
            Entry::Vacant(entry) => entry.insert(default),
        }
    }

    /// The value of the entry for change, storing the value that `default`
    /// makes first if the entry is vacant (its key's slot must then be free
    /// for it); `default` is called only then.
    pub fn or_insert_with<F: FnOnce() -> V>(self, default: F) -> (value: &'a mut V)
        requires
            self.spec_valid(),
            self is Vacant ==> self.spec_set().spec_slot_free(self.spec_key())
                && self.spec_set().spec_insert_fits(self.spec_key()) && call_requires(default, ()),
        ensures
            self matches Entry::Occupied(entry) ==> {
                &&& *value == entry.spec_value()
                &&& (*final(entry.set)).wf()
                &&& (*final(entry.set)).dense_values_view() == entry.spec_set().dense_values_view().update(
                    entry.dense_index as int,
                    *final(value),
                )
                &&& (*final(entry.set)).dense_keys_view() == entry.spec_set().dense_keys_view()
                &&& (*final(entry.set)).sparse_view() == entry.spec_set().sparse_view()
            },
            self matches Entry::Vacant(entry) ==> {
                &&& call_ensures(default, (), *value)
                &&& (*final(entry.set)).wf()
                &&& entry.spec_set().spec_opened(&*final(entry.set), entry.key, *final(value))
            },
    {
        match self {
            Entry::Occupied(entry) => entry.into_mut(),
            Entry::Vacant(entry) => entry.insert(default()),
        }
    }

    /// The value of the entry for change, storing the default value first if
    /// the entry is vacant (its key's slot must then be free for it).
    pub fn or_default(self) -> (value: &'a mut V) where V: Default
        requires
            self.spec_valid(),
            self is Vacant ==> self.spec_set().spec_slot_free(self.spec_key())
                && self.spec_set().spec_insert_fits(self.spec_key()),
        ensures
            self matches Entry::Occupied(entry) ==> {
                &&& *value == entry.spec_value()
                &&& (*final(entry.set)).wf()
                &&& (*final(entry.set)).dense_values_view() == entry.spec_set().dense_values_view().update(
                    entry.dense_index as int,
                    *final(value),
                )
                &&& (*final(entry.set)).dense_keys_view() == entry.spec_set().dense_keys_view()
                &&& (*final(entry.set)).sparse_view() == entry.spec_set().sparse_view()
            },
            self matches Entry::Vacant(entry) ==> {
                &&& (*final(entry.set)).wf()
                &&& entry.spec_set().spec_opened(&*final(entry.set), entry.key, *final(value))
            },
    {
        match self {
            Entry::Occupied(entry) => entry.into_mut(),
            Entry::Vacant(entry) => entry.insert(V::default()),
        }
    }

    /// Stores `value` under the entry's key, in place if the entry is
    /// occupied and at the end of the dense array if it is vacant (its key's
    /// slot must then be free for it), and hands back the occupied entry.
    pub fn insert_entry(self, value: V) -> (entry: OccupiedEntry<'a, K, V, S>)
        requires
            self.spec_valid(),
            self is Vacant ==> self.spec_set().spec_slot_free(self.spec_key())
                && self.spec_set().spec_insert_fits(self.spec_key()),
        ensures
            entry.key == self.spec_key(),
            entry.spec_valid(),
            entry.spec_value() == value,
            entry.spec_set()@ == self.spec_set()@.insert(self.spec_key(), value),
            self matches Entry::Occupied(occupied) ==> {
                &&& entry.dense_index == occupied.dense_index
                &&& *final(entry.set) == *final(occupied.set)
            },
            self matches Entry::Vacant(vacant) ==> {
                &&& entry.dense_index == vacant.spec_set().spec_len()
                &&& vacant.spec_set().spec_opened(&entry.spec_set(), vacant.key, value)
                &&& *final(entry.set) == *final(vacant.set)
            },
    {
        match self {
            Entry::Occupied(mut entry) => {
                entry.insert(value);
                entry
            },
            Entry::Vacant(entry) => entry.insert_entry(value),
        }
    }
}

} // verus!
