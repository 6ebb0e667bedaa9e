//! Items of the sparse array.
pub mod default;
pub mod traits;
use vstd::prelude::*;

use crate::key::Key;

verus! {

/// What a slot of the sparse array holds: the dense index of an entry, or the
/// next slot of the list of vacant slots.
#[derive(Debug, Clone, Copy, PartialEq, Eq, PartialOrd, Ord, Hash)]
pub enum SparseItemKind<I> {
    Occupied { dense_index: I },
    Vacant { next_vacant: I },
}

impl<I> SparseItemKind<I> {
    pub fn occupied(dense_index: I) -> (kind: Self)
        ensures
            kind == (SparseItemKind::Occupied { dense_index }),
    {
        Self::Occupied { dense_index }
    }

    pub fn vacant(next_vacant: I) -> (kind: Self)
        ensures
            kind == (SparseItemKind::Vacant { next_vacant }),
    {
        Self::Vacant { next_vacant }
    }

    pub fn is_occupied(&self) -> (occupied: bool)
        ensures
            occupied == (*self is Occupied),
    {
        matches!(self, Self::Occupied { .. })
    }

    pub fn is_vacant(&self) -> (vacant: bool)
        ensures
            vacant == (*self is Vacant),
    {
        matches!(self, Self::Vacant { .. })
    }

    pub fn dense_index(&self) -> (index: Option<&I>)
        ensures
            *self is Occupied ==> index is Some && *index->0 == self->dense_index,
            *self is Vacant ==> index is None,
    {
        match self {
            Self::Occupied { dense_index } => Some(dense_index),
            Self::Vacant { .. } => None,
        }
    }

    pub fn dense_index_mut(&mut self) -> (index: Option<&mut I>)
        ensures
            *old(self) is Occupied ==> index is Some && *index->0 == old(self)->dense_index
                && *final(self) == (SparseItemKind::Occupied { dense_index: *final(index->0) }),
            *old(self) is Vacant ==> index is None && *final(self) == *old(self),
    {
        match self {
            Self::Occupied { dense_index } => Some(dense_index),
            Self::Vacant { .. } => None,
        }
    }

    pub fn into_dense_index(self) -> (index: Option<I>)
        ensures
            self is Occupied ==> index == Some(self->dense_index),
            self is Vacant ==> index is None,
    {
        match self {
            Self::Occupied { dense_index } => Some(dense_index),
            Self::Vacant { .. } => None,
        }
    }

    pub fn next_vacant(&self) -> (index: Option<&I>)
        ensures
            *self is Vacant ==> index is Some && *index->0 == self->next_vacant,
            *self is Occupied ==> index is None,
    {
        match self {
            Self::Occupied { .. } => None,
            Self::Vacant { next_vacant } => Some(next_vacant),
        }
    }

    pub fn next_vacant_mut(&mut self) -> (index: Option<&mut I>)
        ensures
            *old(self) is Vacant ==> index is Some && *index->0 == old(self)->next_vacant
                && *final(self) == (SparseItemKind::Vacant { next_vacant: *final(index->0) }),
            *old(self) is Occupied ==> index is None && *final(self) == *old(self),
    {
        match self {
            Self::Occupied { .. } => None,
            Self::Vacant { next_vacant } => Some(next_vacant),
        }
    }

    pub fn into_next_vacant(self) -> (index: Option<I>)
        ensures
            self is Vacant ==> index == Some(self->next_vacant),
            self is Occupied ==> index is None,
    {
        match self {
            Self::Occupied { .. } => None,
            Self::Vacant { next_vacant } => Some(next_vacant),
        }
    }
}

/// A slot of the sparse array: its kind and the epoch of the slot.
#[derive(Debug, Clone, Copy, PartialEq, Eq)]
pub struct SparseItem<K: Key> {
    pub kind: SparseItemKind<K::SparseIndex>,
    pub epoch: K::Epoch,
}

impl<K: Key> SparseItem<K> {
    pub fn new(kind: SparseItemKind<K::SparseIndex>, epoch: K::Epoch) -> (item: Self)
        ensures
            item == (SparseItem::<K> { kind, epoch }),
    {
        Self { kind, epoch }
    }

    pub fn occupied(dense_index: K::SparseIndex, epoch: K::Epoch) -> (item: Self)
        ensures
            item == (SparseItem::<K> { kind: SparseItemKind::Occupied { dense_index }, epoch }),
    {
        let kind = SparseItemKind::occupied(dense_index);
        Self::new(kind, epoch)
    }

    pub fn vacant(next_vacant: K::SparseIndex, epoch: K::Epoch) -> (item: Self)
        ensures
            item == (SparseItem::<K> { kind: SparseItemKind::Vacant { next_vacant }, epoch }),
    {
        let kind = SparseItemKind::vacant(next_vacant);
        Self::new(kind, epoch)
    }

    pub fn is_occupied(&self) -> (occupied: bool)
        ensures
            occupied == (self.kind is Occupied),
    {
        self.kind.is_occupied()
    }

    pub fn is_vacant(&self) -> (vacant: bool)
        ensures
            vacant == (self.kind is Vacant),
    {
        self.kind.is_vacant()
    }

    pub fn kind(&self) -> (kind: &SparseItemKind<K::SparseIndex>)
        ensures
            *kind == self.kind,
    {
        &self.kind
    }

    pub fn kind_mut(&mut self) -> (kind: &mut SparseItemKind<K::SparseIndex>)
        ensures
            *kind == old(self).kind,
            *final(self) == (SparseItem::<K> { kind: *final(kind), epoch: old(self).epoch }),
    {
        &mut self.kind
    }

    pub fn into_kind(self) -> (kind: SparseItemKind<K::SparseIndex>)
        ensures
            kind == self.kind,
    {
        self.kind
    }

    pub fn dense_index(&self) -> (index: Option<&K::SparseIndex>)
        ensures
            self.kind is Occupied ==> index is Some && *index->0 == self.kind->dense_index,
            self.kind is Vacant ==> index is None,
    {
        self.kind.dense_index()
    }

    pub fn dense_index_mut(&mut self) -> (index: Option<&mut K::SparseIndex>)
        ensures
            old(self).kind is Occupied ==> index is Some && *index->0 == old(
                self,
            ).kind->dense_index && *final(self) == (SparseItem::<K> {
                kind: SparseItemKind::Occupied { dense_index: *final(index->0) },
                epoch: old(self).epoch,
            }),
            old(self).kind is Vacant ==> index is None && *final(self) == *old(self),
    {
        self.kind.dense_index_mut()
    }

    pub fn into_dense_index(self) -> (index: Option<K::SparseIndex>)
        ensures
            self.kind is Occupied ==> index == Some(self.kind->dense_index),
            self.kind is Vacant ==> index is None,
    {
        self.kind.into_dense_index()
    }

    pub fn next_vacant(&self) -> (index: Option<&K::SparseIndex>)
        ensures
            self.kind is Vacant ==> index is Some && *index->0 == self.kind->next_vacant,
            self.kind is Occupied ==> index is None,
    {
        self.kind.next_vacant()
    }

    pub fn next_vacant_mut(&mut self) -> (index: Option<&mut K::SparseIndex>)
        ensures
            old(self).kind is Vacant ==> index is Some && *index->0 == old(
                self,
            ).kind->next_vacant && *final(self) == (SparseItem::<K> {
                kind: SparseItemKind::Vacant { next_vacant: *final(index->0) },
                epoch: old(self).epoch,
            }),
            old(self).kind is Occupied ==> index is None && *final(self) == *old(self),
    {
        self.kind.next_vacant_mut()
    }

    pub fn into_next_vacant(self) -> (index: Option<K::SparseIndex>)
        ensures
            self.kind is Vacant ==> index == Some(self.kind->next_vacant),
            self.kind is Occupied ==> index is None,
    {
        self.kind.into_next_vacant()
    }
}

} // verus!
