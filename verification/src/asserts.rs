//! Conversions and checks whose failure the containers rule out.
//!
//! Each function states, as its precondition, the condition that the
//! containers' invariants guarantee; a caller has to prove it.
use vstd::prelude::*;

use crate::item::sparse::traits::SparseItem as SparseItemTrait;
use crate::item::sparse::{SparseItem, SparseItemKind};
use crate::key::Key;

verus! {

/// The item at `sparse_index` of the sparse array.
pub fn unwrap_sparse_item<T>(sparse: &[T], sparse_index: usize) -> (item: &T)
    requires
        sparse_index < sparse@.len(),
    ensures
        *item == sparse@[sparse_index as int],
{
    &sparse[sparse_index]
}

/// A sparse index as a `usize`.
pub fn unwrap_into_usize<K: Key>(index: K::SparseIndex) -> (result: usize)
    requires
        K::index_nat(index) <= usize::MAX,
    ensures
        result as nat == K::index_nat(index),
{
    K::index_into_usize(index).unwrap()
}

/// A `usize` as a sparse index.
pub fn unwrap_into_index<K: Key>(index: usize) -> (result: K::SparseIndex)
    requires
        K::index_fits(index as nat),
    ensures
        K::index_nat(result) == index as nat,
        result == K::index_of_nat(index as nat),
{
    proof {
        K::lemma_index_of_nat(index as nat);
    }
    K::index_from_usize(index).unwrap()
}

/// The next vacant slot that a vacant item links to.
pub fn unwrap_next_vacant<I>(kind: &SparseItemKind<I>) -> (next_vacant: &I)
    requires
        *kind is Vacant,
    ensures
        *next_vacant == kind->next_vacant,
{
    match kind {
        SparseItemKind::Vacant { next_vacant } => next_vacant,
        SparseItemKind::Occupied { dense_index } => {
            assert(false);
            dense_index
        },
    }
}

/// An item of the sparse array is occupied.
pub fn assert_occupied<T: SparseItemTrait>(item: &T)
    requires
        item.spec_dense_index() is Some,
{
}

/// An item of the sparse array is vacant.
pub fn assert_vacant<T: SparseItemTrait>(item: &T)
    requires
        item.spec_dense_index() is None,
{
}

/// The dense index that an occupied item holds.
pub fn unwrap_dense_index<I>(kind: &SparseItemKind<I>) -> (dense_index: &I)
    requires
        *kind is Occupied,
    ensures
        *dense_index == kind->dense_index,
{
    match kind {
        SparseItemKind::Occupied { dense_index } => dense_index,
        SparseItemKind::Vacant { next_vacant } => {
            assert(false);
            next_vacant
        },
    }
}

/// An index taken from the sparse array lies within the dense array.
pub fn assert_dense_index_bounds(dense_index: usize, dense_len: usize)
    requires
        dense_index < dense_len,
{
}

/// A key's sparse index lies within the sparse array.
pub fn assert_key_bounds(key: usize, sparse_len: usize)
    requires
        key < sparse_len,
{
}

/// The item at `sparse_index` of the sparse array, for change.
pub fn unwrap_sparse_item_mut<T>(sparse: &mut [T], sparse_index: usize) -> (item: &mut T)
    requires
        sparse_index < old(sparse)@.len(),
    ensures
        *item == old(sparse)@[sparse_index as int],
        final(sparse)@ == old(sparse)@.update(sparse_index as int, *final(item)),
{
    &mut sparse[sparse_index]
}

/// The entry at `dense_index` of the dense array.
pub fn unwrap_dense<T>(dense: &[T], dense_index: usize) -> (item: &T)
    requires
        dense_index < dense@.len(),
    ensures
        *item == dense@[dense_index as int],
{
    &dense[dense_index]
}

/// The entries at two distinct positions of the dense array.
pub fn unwrap_dense_pair<T>(dense: &[T], first_index: usize, second_index: usize) -> (pair: (
    &T,
    &T,
))
    requires
        first_index < dense@.len(),
        second_index < dense@.len(),
        first_index != second_index,
    ensures
        *pair.0 == dense@[first_index as int],
        *pair.1 == dense@[second_index as int],
{
    (&dense[first_index], &dense[second_index])
}

/// The items at two distinct slots of the sparse array.
pub fn unwrap_sparse_pair<T>(sparse: &[T], first_index: usize, second_index: usize) -> (pair: (
    &T,
    &T,
))
    requires
        first_index < sparse@.len(),
        second_index < sparse@.len(),
        first_index != second_index,
    ensures
        *pair.0 == sparse@[first_index as int],
        *pair.1 == sparse@[second_index as int],
{
    (&sparse[first_index], &sparse[second_index])
}

/// The entry of the dense array that the occupied slot `sparse_index` names.
pub fn unwrap_dense_from_sparse_index<'a, K: Key, V>(
    sparse_index: K::SparseIndex,
    dense: &'a [V],
    sparse: &[SparseItem<K>],
) -> (item: &'a V)
    requires
        K::index_nat(sparse_index) < sparse@.len(),
        sparse@[K::index_nat(sparse_index) as int].kind is Occupied,
        K::index_nat(sparse@[K::index_nat(sparse_index) as int].kind->dense_index) < dense@.len(),
    ensures
        *item == dense@[K::index_nat(sparse@[K::index_nat(sparse_index) as int].kind->dense_index) as int],
{
    let dense_len = dense.len();
    let sparse_len = sparse.len();
    let sparse_index = unwrap_into_usize::<K>(sparse_index);
    let sparse_item = unwrap_sparse_item(sparse, sparse_index);
    let dense_index = unwrap_dense_index(&sparse_item.kind);
    let dense_index = unwrap_into_usize::<K>(*dense_index);
    unwrap_dense(dense, dense_index)
}

/// The next vacant slot that a vacant item links to, for change.
pub fn unwrap_next_vacant_mut<K: Key>(item: &mut SparseItem<K>) -> (next_vacant: &mut K::SparseIndex)
    requires
        old(item).kind is Vacant,
    ensures
        *next_vacant == old(item).kind->next_vacant,
        *final(item) == (SparseItem::<K> {
            kind: SparseItemKind::Vacant { next_vacant: *final(next_vacant) },
            epoch: old(item).epoch,
        }),
{
    match &mut item.kind {
        SparseItemKind::Vacant { next_vacant } => next_vacant,
        SparseItemKind::Occupied { dense_index } => {
            assert(false);
            dense_index
        },
    }
}

/// A key given by the caller is the key found in the dense array.
pub fn assert_equal_key<K: Key>(key: K, dense_key: K)
    requires
        key == dense_key,
{
}

/// A key given by the caller has the sparse index and the epoch of the key
/// found in the dense array.
pub fn assert_compatible_key<K: Key>(key: K, dense_key: K)
    requires
        key.spec_sparse_index() == dense_key.spec_sparse_index(),
        key.spec_epoch() == dense_key.spec_epoch(),
{
    assert_equal_sparse_index(key.sparse_index(), dense_key.sparse_index());
    assert_equal_epoch(key.epoch(), dense_key.epoch());
}

/// An epoch given by the caller is the epoch found in the container.
pub fn assert_equal_epoch<E>(first: E, second: E)
    requires
        first == second,
{
}

/// A sparse index given by the caller is the one found in the container.
pub fn assert_equal_sparse_index<I>(first: I, second: I)
    requires
        first == second,
{
}

} // verus!
