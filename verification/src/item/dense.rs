//! Items of the dense array: a key beside its value.
use vstd::prelude::*;

verus! {

/// An entry of the dense array, owned.
#[derive(Debug, Clone, Copy, PartialEq, Eq, PartialOrd, Ord, Hash, Default)]
pub struct DenseItem<K, V> {
    pub key: K,
    pub value: V,
}

impl<K, V> DenseItem<K, V> {
    pub fn new(key: K, value: V) -> (item: Self)
        ensures
            item.key == key,
            item.value == value,
    {
        Self { key, value }
    }

    /// The key and the value, borrowed.
    pub fn as_refs(&self) -> (refs: DenseRefs<'_, K, V>)
        ensures
            *refs.key == self.key,
            *refs.value == self.value,
    {
        DenseRefs::new(&self.key, &self.value)
    }

    /// The key and the value, borrowed for change.
    pub fn as_refs_mut(&mut self) -> (refs: DenseRefsMut<'_, K, V>)
        ensures
            *refs.key == old(self).key,
            *refs.value == old(self).value,
            final(self).key == *final(refs.key),
            final(self).value == *final(refs.value),
    {
        DenseRefsMut::new(&mut self.key, &mut self.value)
    }

    /// The key and the value.
    pub fn into_parts(self) -> (parts: (K, V))
        ensures
            parts == (self.key, self.value),
    {
        (self.key, self.value)
    }
}

/// An entry of the dense array, borrowed.
#[derive(Debug)]
pub struct DenseRefs<'a, K, V> {
    pub key: &'a K,
    pub value: &'a V,
}

impl<'a, K, V> DenseRefs<'a, K, V> {
    pub fn new(key: &'a K, value: &'a V) -> (refs: Self)
        ensures
            *refs.key == *key,
            *refs.value == *value,
    {
        Self { key, value }
    }

    pub fn into_parts(self) -> (parts: (&'a K, &'a V))
        ensures
            *parts.0 == *self.key,
            *parts.1 == *self.value,
    {
        (self.key, self.value)
    }
}

/// An entry of the dense array, borrowed for change.
#[derive(Debug)]
pub struct DenseRefsMut<'a, K, V> {
    pub key: &'a mut K,
    pub value: &'a mut V,
}

impl<'a, K, V> DenseRefsMut<'a, K, V> {
    pub fn new(key: &'a mut K, value: &'a mut V) -> (refs: Self)
        ensures
            *refs.key == *old(key),
            *refs.value == *old(value),
            *final(key) == *final(refs.key),
            *final(value) == *final(refs.value),
    {
        Self { key, value }
    }

    pub fn into_parts(self) -> (parts: (&'a mut K, &'a mut V))
        ensures
            *parts.0 == *old(self.key),
            *parts.1 == *old(self.value),
            *final(parts.0) == *final(self.key),
            *final(parts.1) == *final(self.value),
    {
        (self.key, self.value)
    }

    /// The same entry, borrowed for reading only.
    pub fn into_refs(self) -> (refs: DenseRefs<'a, K, V>)
        ensures
            *refs.key == *old(self.key),
            *refs.value == *old(self.value),
    {
        DenseRefs::new(&*self.key, &*self.value)
    }
}

} // verus!
