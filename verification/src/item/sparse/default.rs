//! The default item of a sparse array, which the `SparseItem` and
//! `ArenaSparseItem` traits describe.
use vstd::prelude::*;

use crate::asserts::unwrap_into_index;
use crate::item::sparse::traits::{ArenaSparseItem, SparseIndexKind, SparseItem};
use crate::key::Key;

verus! {

/// What a slot of the sparse array holds: the dense index of an entry, or the
/// next slot of the list of vacant slots.
#[derive(Debug, Clone, Copy, PartialEq, Eq, PartialOrd, Ord, Hash)]
pub enum DefaultSparseItemKind<I> {
    Occupied { dense_index: I },
    Vacant { next_vacant: I },
}

impl<I> DefaultSparseItemKind<I> {
    pub fn occupied(dense_index: I) -> (kind: Self)
        ensures
            kind == (DefaultSparseItemKind::Occupied { dense_index }),
    {
        Self::Occupied { dense_index }
    }

    pub fn vacant(next_vacant: I) -> (kind: Self)
        ensures
            kind == (DefaultSparseItemKind::Vacant { next_vacant }),
    {
        Self::Vacant { next_vacant }
    }

    pub fn is_occupied(&self) -> (occupied: bool)
        ensures
            occupied == (*self is Occupied),
    {
        matches!(self, Self::Occupied { .. })
    }

    pub fn is_vacant(&self) -> (vacant: bool)
        ensures
            vacant == (*self is Vacant),
    {
        matches!(self, Self::Vacant { .. })
    }

    pub fn dense_index(&self) -> (index: Option<&I>)
        ensures
            *self is Occupied ==> index is Some && *index->0 == self->dense_index,
            *self is Vacant ==> index is None,
    {
        match self {
            Self::Occupied { dense_index } => Some(dense_index),
            Self::Vacant { .. } => None,
        }
    }

    pub fn dense_index_mut(&mut self) -> (index: Option<&mut I>)
        ensures
            *old(self) is Occupied ==> index is Some && *index->0 == old(self)->dense_index
                && *final(self) == (DefaultSparseItemKind::Occupied { dense_index: *final(index->0) }),
            *old(self) is Vacant ==> index is None && *final(self) == *old(self),
    {
        match self {
            Self::Occupied { dense_index } => Some(dense_index),
            Self::Vacant { .. } => None,
        }
    }

    pub fn into_dense_index(self) -> (index: Option<I>)
        ensures
            self is Occupied ==> index == Some(self->dense_index),
            self is Vacant ==> index is None,
    {
        match self {
            Self::Occupied { dense_index } => Some(dense_index),
            Self::Vacant { .. } => None,
        }
    }

    pub fn next_vacant(&self) -> (index: Option<&I>)
        ensures
            *self is Vacant ==> index is Some && *index->0 == self->next_vacant,
            *self is Occupied ==> index is None,
    {
        match self {
            Self::Occupied { .. } => None,
            Self::Vacant { next_vacant } => Some(next_vacant),
        }
    }

    pub fn next_vacant_mut(&mut self) -> (index: Option<&mut I>)
        ensures
            *old(self) is Vacant ==> index is Some && *index->0 == old(self)->next_vacant
                && *final(self) == (DefaultSparseItemKind::Vacant { next_vacant: *final(index->0) }),
            *old(self) is Occupied ==> index is None && *final(self) == *old(self),
    {
        match self {
            Self::Occupied { .. } => None,
            Self::Vacant { next_vacant } => Some(next_vacant),
        }
    }

    pub fn into_next_vacant(self) -> (index: Option<I>)
        ensures
            self is Vacant ==> index == Some(self->next_vacant),
            self is Occupied ==> index is None,
    {
        match self {
            Self::Occupied { .. } => None,
            Self::Vacant { next_vacant } => Some(next_vacant),
        }
    }
}

/// A slot of the sparse array: its kind and the epoch of the slot.
#[derive(Debug, Clone, Copy, PartialEq, Eq)]
pub struct DefaultSparseItem<K: Key> {
    pub kind: DefaultSparseItemKind<K::SparseIndex>,
    pub epoch: K::Epoch,
}

impl<K: Key> DefaultSparseItem<K> {
    pub fn new(kind: DefaultSparseItemKind<K::SparseIndex>, epoch: K::Epoch) -> (item: Self)
        ensures
            item == (DefaultSparseItem::<K> { kind, epoch }),
    {
        Self { kind, epoch }
    }

    pub fn occupied(dense_index: K::SparseIndex, epoch: K::Epoch) -> (item: Self)
        ensures
            item == (DefaultSparseItem::<K> { kind: DefaultSparseItemKind::Occupied { dense_index }, epoch }),
    {
        let kind = DefaultSparseItemKind::occupied(dense_index);
        Self::new(kind, epoch)
    }

    pub fn vacant(next_vacant: K::SparseIndex, epoch: K::Epoch) -> (item: Self)
        ensures
            item == (DefaultSparseItem::<K> { kind: DefaultSparseItemKind::Vacant { next_vacant }, epoch }),
    {
        let kind = DefaultSparseItemKind::vacant(next_vacant);
        Self::new(kind, epoch)
    }

    pub fn is_occupied(&self) -> (occupied: bool)
        ensures
            occupied == (self.kind is Occupied),
    {
        self.kind.is_occupied()
    }

    pub fn is_vacant(&self) -> (vacant: bool)
        ensures
            vacant == (self.kind is Vacant),
    {
        self.kind.is_vacant()
    }

    pub fn kind(&self) -> (kind: &DefaultSparseItemKind<K::SparseIndex>)
        ensures
            *kind == self.kind,
    {
        &self.kind
    }

    pub fn kind_mut(&mut self) -> (kind: &mut DefaultSparseItemKind<K::SparseIndex>)
        ensures
            *kind == old(self).kind,
            *final(self) == (DefaultSparseItem::<K> { kind: *final(kind), epoch: old(self).epoch }),
    {
        &mut self.kind
    }

    pub fn into_kind(self) -> (kind: DefaultSparseItemKind<K::SparseIndex>)
        ensures
            kind == self.kind,
    {
        self.kind
    }

    pub fn dense_index(&self) -> (index: Option<&K::SparseIndex>)
        ensures
            self.kind is Occupied ==> index is Some && *index->0 == self.kind->dense_index,
            self.kind is Vacant ==> index is None,
    {
        self.kind.dense_index()
    }

    pub fn dense_index_mut(&mut self) -> (index: Option<&mut K::SparseIndex>)
        ensures
            old(self).kind is Occupied ==> index is Some && *index->0 == old(
                self,
            ).kind->dense_index && *final(self) == (DefaultSparseItem::<K> {
                kind: DefaultSparseItemKind::Occupied { dense_index: *final(index->0) },
                epoch: old(self).epoch,
            }),
            old(self).kind is Vacant ==> index is None && *final(self) == *old(self),
    {
        self.kind.dense_index_mut()
    }

    pub fn into_dense_index(self) -> (index: Option<K::SparseIndex>)
        ensures
            self.kind is Occupied ==> index == Some(self.kind->dense_index),
            self.kind is Vacant ==> index is None,
    {
        self.kind.into_dense_index()
    }

    pub fn next_vacant(&self) -> (index: Option<&K::SparseIndex>)
        ensures
            self.kind is Vacant ==> index is Some && *index->0 == self.kind->next_vacant,
            self.kind is Occupied ==> index is None,
    {
        self.kind.next_vacant()
    }

    pub fn next_vacant_mut(&mut self) -> (index: Option<&mut K::SparseIndex>)
        ensures
            old(self).kind is Vacant ==> index is Some && *index->0 == old(
                self,
            ).kind->next_vacant && *final(self) == (DefaultSparseItem::<K> {
                kind: DefaultSparseItemKind::Vacant { next_vacant: *final(index->0) },
                epoch: old(self).epoch,
            }),
            old(self).kind is Occupied ==> index is None && *final(self) == *old(self),
    {
        self.kind.next_vacant_mut()
    }

    pub fn into_next_vacant(self) -> (index: Option<K::SparseIndex>)
        ensures
            self.kind is Vacant ==> index == Some(self.kind->next_vacant),
            self.kind is Occupied ==> index is None,
    {
        self.kind.into_next_vacant()
    }
}

impl<K: Key> SparseItem for DefaultSparseItem<K> {
    type Index = K::SparseIndex;

    type Epoch = K::Epoch;

    open spec fn spec_epoch(self) -> K::Epoch {
        self.epoch
    }

    open spec fn spec_dense_index(self) -> Option<K::SparseIndex> {
        match self.kind {
            DefaultSparseItemKind::Occupied { dense_index } => Some(dense_index),
            DefaultSparseItemKind::Vacant { .. } => None,
        }
    }

    fn occupied(epoch: K::Epoch, dense_index: K::SparseIndex) -> (item: Self) {
        Self::occupied(dense_index, epoch)
    }

    /// A vacant item that links to slot 0.
    fn vacant(epoch: K::Epoch) -> (item: Self) {
        proof {
            let any: K::SparseIndex = arbitrary();
            K::lemma_index_nat(any);
            K::lemma_index_fits_below(K::index_nat(any), 0);
        }
        Self::vacant(unwrap_into_index::<K>(0), epoch)
    }

    fn epoch(self) -> (epoch: K::Epoch) {
        self.epoch
    }

    fn dense_index(self) -> (index: Option<K::SparseIndex>) {
        self.into_dense_index()
    }
}

impl<K: Key> ArenaSparseItem for DefaultSparseItem<K> {
    open spec fn spec_index(self) -> (K::SparseIndex, SparseIndexKind) {
        match self.kind {
            DefaultSparseItemKind::Occupied { dense_index } => (dense_index, SparseIndexKind::Dense),
            DefaultSparseItemKind::Vacant { next_vacant } => (next_vacant, SparseIndexKind::NextVacant),
        }
    }

    fn with_next_vacant(epoch: K::Epoch, next_vacant: K::SparseIndex) -> (item: Self) {
        Self::vacant(next_vacant, epoch)
    }

    fn index(self) -> (index: (K::SparseIndex, SparseIndexKind)) {
        match self.kind {
            DefaultSparseItemKind::Occupied { dense_index } => (dense_index, SparseIndexKind::Dense),
            DefaultSparseItemKind::Vacant { next_vacant } => (next_vacant, SparseIndexKind::NextVacant),
        }
    }
}

} // verus!
