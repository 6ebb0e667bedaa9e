//! What containers need of an item of the sparse array.
use vstd::prelude::*;

use crate::asserts::{assert_occupied, assert_vacant};

verus! {

/// An item of the sparse array: an epoch, and the dense index of an entry if
/// the slot is occupied.
pub trait SparseItem: Copy + Sized {
    type Index: Copy;

    type Epoch: Copy;

    spec fn spec_epoch(self) -> Self::Epoch;

    /// The dense index held by an occupied item; `None` for a vacant one.
    spec fn spec_dense_index(self) -> Option<Self::Index>;

    fn occupied(epoch: Self::Epoch, dense_index: Self::Index) -> (item: Self)
        ensures
            item.spec_epoch() == epoch,
            item.spec_dense_index() == Some(dense_index),
    ;

    fn vacant(epoch: Self::Epoch) -> (item: Self)
        ensures
            item.spec_epoch() == epoch,
            item.spec_dense_index() is None,
    ;

    fn epoch(self) -> (epoch: Self::Epoch)
        ensures
            epoch == self.spec_epoch(),
    ;

    fn dense_index(self) -> (index: Option<Self::Index>)
        ensures
            index == self.spec_dense_index(),
    ;

    fn is_occupied(self) -> (occupied: bool)
        ensures
            occupied == self.spec_dense_index() is Some,
    {
        self.dense_index().is_some()
    }

    fn is_vacant(self) -> (vacant: bool)
        ensures
            vacant == self.spec_dense_index() is None,
    {
        !self.is_occupied()
    }
}

/// An item of the sparse array of an arena, where a vacant item links to the
/// next vacant slot.
pub trait ArenaSparseItem: SparseItem {
    /// The index an item holds, and what it is: the dense index of an
    /// occupied item or the next vacant slot of a vacant one.
    spec fn spec_index(self) -> (Self::Index, SparseIndexKind);

    fn with_next_vacant(epoch: Self::Epoch, next_vacant: Self::Index) -> (item: Self)
        ensures
            item.spec_epoch() == epoch,
            item.spec_dense_index() is None,
            item.spec_index() == (next_vacant, SparseIndexKind::NextVacant),
    ;

    fn index(self) -> (index: (Self::Index, SparseIndexKind))
        ensures
            index == self.spec_index(),
            (index.1 == SparseIndexKind::Dense) == (self.spec_dense_index() is Some),
            index.1 == SparseIndexKind::Dense ==> self.spec_dense_index() == Some(index.0),
    ;

    /// The next vacant slot of a vacant item; `None` for an occupied one.
    fn next_vacant(self) -> (next_vacant: Option<Self::Index>)
        ensures
            next_vacant is Some <==> self.spec_dense_index() is None,
            next_vacant is Some ==> next_vacant->0 == self.spec_index().0,
    {
        let (index, kind) = self.index();
        match kind {
            SparseIndexKind::Dense => {
                assert_occupied(&self);
                None
            },
            SparseIndexKind::NextVacant => {
                assert_vacant(&self);
                Some(index)
            },
        }
    }
}

/// What the index held by an item of the sparse array is.
#[derive(Debug, Clone, Copy, PartialEq, Eq, Structural, PartialOrd, Ord, Hash)]
pub enum SparseIndexKind {
    Dense,
    NextVacant,
}

} // verus!
