//! Lookups in a pair of dense and sparse arrays, and the check that such a
//! pair forms a sparse container.
//!
//! The dense array holds the keys of the entries (beside their values); the
//! sparse array holds one item per sparse index.  A key resolves when the item
//! at its sparse index is occupied and carries the key's epoch; the item then
//! holds the dense index of the entry.
use vstd::prelude::*;

use crate::asserts::{
    assert_compatible_key, assert_dense_index_bounds, assert_equal_key, unwrap_dense,
    unwrap_into_usize,
};
use crate::error::{
    DenseIndexMismatchError, DenseIndexOutOfBoundsError, EpochMismatchError, FromPartsError,
    OccupiedSparseItemExpectedError, SparseIndexMismatchError, SparseIndexOutOfBoundsError,
    TooLargeSparseIndexError, TooSmallSparseIndexError,
};
use crate::item::sparse::{SparseItem, SparseItemKind};
use crate::key::{key_index, Key};

verus! {

/// The dense index held by an occupied item, as a number.
pub open spec fn item_dense_index<K: Key>(item: SparseItem<K>) -> nat {
    K::index_nat(item.kind->dense_index)
}

/// The dense index that `key` resolves to in `sparse`, if any: the slot of the
/// key's sparse index must be occupied and carry the key's epoch.
pub open spec fn sparse_lookup<K: Key>(sparse: Seq<SparseItem<K>>, key: K) -> Option<nat> {
    let j = key_index(key);
    if j < sparse.len() && sparse[j as int].kind is Occupied && sparse[j as int].epoch
        == key.spec_epoch() {
        Some(item_dense_index(sparse[j as int]))
    } else {
        None
    }
}

/// Entry `d` of the dense array is named by the slot of its key's sparse index:
/// the slot is occupied, holds `d`, and carries the key's epoch.
pub open spec fn dense_ok<K: Key>(keys: Seq<K>, sparse: Seq<SparseItem<K>>, d: int) -> bool {
    let k = keys[d];
    let j = key_index(k);
    &&& j < sparse.len()
    &&& sparse[j as int].kind is Occupied
    &&& item_dense_index(sparse[j as int]) == d
    &&& sparse[j as int].epoch == k.spec_epoch()
}

/// An occupied slot `j` holds the index of an entry whose key names slot `j`.
pub open spec fn sparse_ok<K: Key>(keys: Seq<K>, sparse: Seq<SparseItem<K>>, j: int) -> bool {
    sparse[j].kind is Occupied ==> {
        let d = item_dense_index(sparse[j]);
        &&& d < keys.len()
        &&& key_index(keys[d as int]) == j
    }
}

/// The dense index held by slot `j`, if the slot exists and is occupied.
pub open spec fn slot_dense_index<K: Key>(sparse: Seq<SparseItem<K>>, j: nat) -> Option<nat> {
    if j < sparse.len() && sparse[j as int].kind is Occupied {
        Some(item_dense_index(sparse[j as int]))
    } else {
        None
    }
}

/// The item at `sparse_index`, if it exists and carries `epoch`.
pub fn sparse_item_by_epoch<K: Key>(
    sparse: &[SparseItem<K>],
    sparse_index: usize,
    epoch: K::Epoch,
) -> (item: Option<&SparseItem<K>>)
    ensures
        item is Some <==> sparse_index < sparse@.len() && sparse@[sparse_index as int].epoch
            == epoch,
        item is Some ==> *item->0 == sparse@[sparse_index as int],
{
    if sparse_index < sparse.len() && K::epoch_eq(sparse[sparse_index].epoch, epoch) {
        Some(&sparse[sparse_index])
    } else {
        None
    }
}

/// The item at `sparse_index` for change, if it exists and carries `epoch`.
pub fn sparse_item_mut_by_epoch<K: Key>(
    sparse: &mut [SparseItem<K>],
    sparse_index: usize,
    epoch: K::Epoch,
) -> (item: Option<&mut SparseItem<K>>)
    ensures
        item is Some <==> sparse_index < old(sparse)@.len() && old(sparse)@[sparse_index as int].epoch == epoch,
        item is Some ==> *item->0 == old(sparse)@[sparse_index as int] && final(sparse)@ == old(sparse)@.update(sparse_index as int, *final(item->0)),
        item is None ==> final(sparse)@ == old(sparse)@,
{
    if sparse_index < sparse.len() && K::epoch_eq(sparse[sparse_index].epoch, epoch) {
        Some(&mut sparse[sparse_index])
    } else {
        None
    }
}

/// The item at `sparse_index`, if it exists.
pub fn sparse_item_by_index<K: Key>(sparse: &[SparseItem<K>], sparse_index: K::SparseIndex) -> (item:
    Option<&SparseItem<K>>)
    ensures
        item is Some <==> K::index_nat(sparse_index) < sparse@.len(),
        item is Some ==> *item->0 == sparse@[K::index_nat(sparse_index) as int],
{
    let sparse_len = sparse.len();
    let sparse_index = match K::index_into_usize(sparse_index) {
        Some(sparse_index) => sparse_index,
        None => return None,
    };
    if sparse_index < sparse.len() {
        Some(&sparse[sparse_index])
    } else {
        None
    }
}

/// The item at `sparse_index` for change, if it exists.
pub fn sparse_item_mut_by_index<K: Key>(
    sparse: &mut [SparseItem<K>],
    sparse_index: K::SparseIndex,
) -> (item: Option<&mut SparseItem<K>>)
    ensures
        item is Some <==> K::index_nat(sparse_index) < old(sparse)@.len(),
        item is Some ==> *item->0 == old(sparse)@[K::index_nat(sparse_index) as int] && final(sparse)@ == old(sparse)@.update(K::index_nat(sparse_index) as int, *final(item->0)),
        item is None ==> final(sparse)@ == old(sparse)@,
{
    let sparse_len = sparse.len();
    let sparse_index = match K::index_into_usize(sparse_index) {
        Some(sparse_index) => sparse_index,
        None => return None,
    };
    if sparse_index < sparse.len() {
        Some(&mut sparse[sparse_index])
    } else {
        None
    }
}

/// The item at the sparse index of `key`, if it exists and carries the key's
/// epoch.
pub fn sparse_item_by_key<K: Key>(sparse: &[SparseItem<K>], key: K) -> (item: Option<
    &SparseItem<K>,
>)
    ensures
        item is Some <==> key_index(key) < sparse@.len() && sparse@[key_index(key) as int].epoch
            == key.spec_epoch(),
        item is Some ==> *item->0 == sparse@[key_index(key) as int],
{
    let sparse_len = sparse.len();
    let sparse_index = match K::index_into_usize(key.sparse_index()) {
        Some(sparse_index) => sparse_index,
        None => return None,
    };
    sparse_item_by_epoch(sparse, sparse_index, key.epoch())
}

/// The item at the sparse index of `key` for change, if it exists and carries
/// the key's epoch.
pub fn sparse_item_mut_by_key<K: Key>(sparse: &mut [SparseItem<K>], key: K) -> (item: Option<
    &mut SparseItem<K>,
>)
    ensures
        item is Some <==> key_index(key) < old(sparse)@.len() && old(sparse)@[key_index(key) as int].epoch == key.spec_epoch(),
        item is Some ==> *item->0 == old(sparse)@[key_index(key) as int] && final(sparse)@ == old(sparse)@.update(key_index(key) as int, *final(item->0)),
        item is None ==> final(sparse)@ == old(sparse)@,
{
    let sparse_len = sparse.len();
    let sparse_index = match K::index_into_usize(key.sparse_index()) {
        Some(sparse_index) => sparse_index,
        None => return None,
    };
    sparse_item_mut_by_epoch(sparse, sparse_index, key.epoch())
}

/// Where `key` resolves, it resolves to an entry of the dense array that holds
/// `key` itself.
pub open spec fn resolves_in<K: Key>(keys: Seq<K>, sparse: Seq<SparseItem<K>>, key: K) -> bool {
    sparse_lookup(sparse, key) matches Some(d) ==> d < keys.len() && keys[d as int] == key
}

/// The value of `key`, if the key resolves.
pub fn sparse_get<'a, K: Key, V>(
    dense_keys: &[K],
    dense_values: &'a [V],
    sparse: &[SparseItem<K>],
    key: K,
) -> (value: Option<&'a V>)
    requires
        dense_keys@.len() == dense_values@.len(),
        resolves_in(dense_keys@, sparse@, key),
    ensures
        value is Some <==> sparse_lookup(sparse@, key) is Some,
        value is Some ==> *value->0 == dense_values@[sparse_lookup(sparse@, key)->0 as int],
{
    let sparse_item = match sparse_item_by_key(sparse, key) {
        Some(sparse_item) => sparse_item,
        None => return None,
    };
    let dense_index = match sparse_item.into_dense_index() {
        Some(dense_index) => dense_index,
        None => return None,
    };
    let dense_len = dense_keys.len();
    let dense_index = unwrap_into_usize::<K>(dense_index);
    let dense_key = unwrap_dense(dense_keys, dense_index);
    assert_equal_key(key, *dense_key);
    Some(&dense_values[dense_index])
}

/// The value of `key`, which must resolve.
pub fn sparse_index<'a, K: Key, V>(
    dense_keys: &[K],
    dense_values: &'a [V],
    sparse: &[SparseItem<K>],
    key: K,
) -> (value: &'a V)
    requires
        dense_keys@.len() == dense_values@.len(),
        resolves_in(dense_keys@, sparse@, key),
        sparse_lookup(sparse@, key) is Some,
    ensures
        *value == dense_values@[sparse_lookup(sparse@, key)->0 as int],
{
    sparse_get(dense_keys, dense_values, sparse, key).unwrap()
}

/// An occupied slot `j` holds the index of an entry whose key is made of the
/// slot's sparse index and the slot's epoch.
pub open spec fn slot_resolves<K: Key>(keys: Seq<K>, sparse: Seq<SparseItem<K>>, j: nat) -> bool {
    slot_dense_index(sparse, j) matches Some(d) ==> d < keys.len() && keys[d as int]
        == K::spec_new(K::index_of_nat(j), sparse[j as int].epoch)
}

/// The key and the value of the entry that slot `sparse_index` names, if the
/// slot exists and is occupied.
pub fn sparse_get_with_key<'a, K: Key, V>(
    dense_keys: &[K],
    dense_values: &'a [V],
    sparse: &[SparseItem<K>],
    sparse_index: K::SparseIndex,
) -> (entry: Option<(K, &'a V)>)
    requires
        dense_keys@.len() == dense_values@.len(),
        slot_resolves(dense_keys@, sparse@, K::index_nat(sparse_index)),
    ensures
        entry is Some <==> slot_dense_index(sparse@, K::index_nat(sparse_index)) is Some,
        entry is Some ==> {
            let j = K::index_nat(sparse_index);
            let d = slot_dense_index(sparse@, j)->0 as int;
            &&& (entry->0).0 == dense_keys@[d]
            &&& (entry->0).0 == K::spec_new(sparse_index, sparse@[j as int].epoch)
            &&& *(entry->0).1 == dense_values@[d]
        },
{
    let sparse_item = match sparse_item_by_index(sparse, sparse_index) {
        Some(sparse_item) => sparse_item,
        None => return None,
    };
    let dense_index = match sparse_item.into_dense_index() {
        Some(dense_index) => dense_index,
        None => return None,
    };
    proof {
        K::lemma_index_nat(sparse_index);
    }
    let dense_len = dense_keys.len();
    let dense_index = unwrap_into_usize::<K>(dense_index);
    let dense_key = *unwrap_dense(dense_keys, dense_index);
    assert_compatible_key(K::new(sparse_index, sparse_item.epoch), dense_key);
    Some((dense_key, &dense_values[dense_index]))
}

/// The epoch of slot `sparse_index`, if the slot exists.
pub fn sparse_get_epoch<K: Key>(
    dense_keys: &[K],
    sparse: &[SparseItem<K>],
    sparse_index: K::SparseIndex,
) -> (epoch: Option<K::Epoch>)
    requires
        slot_resolves(dense_keys@, sparse@, K::index_nat(sparse_index)),
    ensures
        epoch is Some <==> K::index_nat(sparse_index) < sparse@.len(),
        epoch is Some ==> epoch->0 == sparse@[K::index_nat(sparse_index) as int].epoch,
{
    let sparse_item = match sparse_item_by_index(sparse, sparse_index) {
        Some(sparse_item) => sparse_item,
        None => return None,
    };
    let epoch = sparse_item.epoch;
    if let Some(dense_index) = sparse_item.dense_index() {
        proof {
            K::lemma_index_nat(sparse_index);
        }
        let dense_len = dense_keys.len();
        let dense_index = unwrap_into_usize::<K>(*dense_index);
        let dense_key = *unwrap_dense(dense_keys, dense_index);
        assert_compatible_key(K::new(sparse_index, epoch), dense_key);
    }
    Some(epoch)
}

/// Whether `key` resolves.
pub fn sparse_contains_key<K: Key>(dense_keys: &[K], sparse: &[SparseItem<K>], key: K) -> (contains:
    bool)
    requires
        sparse_lookup(sparse@, key) matches Some(d) ==> d < dense_keys@.len(),
    ensures
        contains == sparse_lookup(sparse@, key) is Some,
{
    let sparse_item = match sparse_item_by_key(sparse, key) {
        Some(sparse_item) => sparse_item,
        None => return false,
    };
    let dense_index = match sparse_item.into_dense_index() {
        Some(dense_index) => dense_index,
        None => return false,
    };
    let dense_len = dense_keys.len();
    let dense_index = unwrap_into_usize::<K>(dense_index);
    assert_dense_index_bounds(dense_index, dense_keys.len());
    true
}

/// What is wrong with slot `s`, as the first pass of `check_parts` finds it:
/// its index must be representable and, if it is occupied, it must hold the
/// index of an entry whose key has the slot's sparse index and epoch.
pub open spec fn slot_error<K: Key>(keys: Seq<K>, sparse: Seq<SparseItem<K>>, s: nat) -> Option<
    FromPartsError<K>,
> {
    let item = sparse[s as int];
    if !K::index_fits(s) {
        Some(FromPartsError::TooSmallSparseIndex(TooSmallSparseIndexError { inner: s as usize }))
    } else if item.kind is Vacant {
        None
    } else {
        let d = item_dense_index(item);
        if d > usize::MAX {
            Some(
                FromPartsError::TooLargeSparseIndex(
                    TooLargeSparseIndexError::<K> { inner: item.kind->dense_index },
                ),
            )
        } else if d >= keys.len() {
            Some(
                FromPartsError::DenseIndexOutOfBounds(
                    DenseIndexOutOfBoundsError { dense_index: d as usize, dense_len: keys.len() as usize },
                ),
            )
        } else if key_index(keys[d as int]) != s {
            Some(
                FromPartsError::SparseIndexMismatch(
                    SparseIndexMismatchError::<K> {
                        actual: keys[d as int].spec_sparse_index(),
                        expected: K::index_of_nat(s),
                    },
                ),
            )
        } else if keys[d as int].spec_epoch() != item.epoch {
            Some(
                FromPartsError::EpochMismatch(
                    EpochMismatchError::<K> { actual: keys[d as int].spec_epoch(), expected: item.epoch },
                ),
            )
        } else {
            None
        }
    }
}

/// What is wrong with entry `d`, as the second pass of `check_parts` finds it:
/// the slot of its key's sparse index must exist, be occupied, hold `d` and
/// carry the key's epoch.
pub open spec fn entry_error<K: Key>(keys: Seq<K>, sparse: Seq<SparseItem<K>>, d: nat) -> Option<
    FromPartsError<K>,
> {
    let key = keys[d as int];
    let j = key_index(key);
    if j > usize::MAX {
        Some(
            FromPartsError::TooLargeSparseIndex(
                TooLargeSparseIndexError::<K> { inner: key.spec_sparse_index() },
            ),
        )
    } else if j >= sparse.len() {
        Some(
            FromPartsError::SparseIndexOutOfBounds(
                SparseIndexOutOfBoundsError { sparse_index: j as usize, sparse_len: sparse.len() as usize },
            ),
        )
    } else if !K::index_fits(d) {
        Some(FromPartsError::TooSmallSparseIndex(TooSmallSparseIndexError { inner: d as usize }))
    } else if sparse[j as int].kind is Vacant {
        Some(
            FromPartsError::OccupiedSparseItemExpected(
                OccupiedSparseItemExpectedError { sparse_index: j as usize },
            ),
        )
    } else if item_dense_index(sparse[j as int]) != d {
        Some(
            FromPartsError::DenseIndexMismatch(
                DenseIndexMismatchError::<K> {
                    actual: sparse[j as int].kind->dense_index,
                    expected: K::index_of_nat(d),
                },
            ),
        )
    } else if sparse[j as int].epoch != key.spec_epoch() {
        Some(
            FromPartsError::EpochMismatch(
                EpochMismatchError::<K> { actual: sparse[j as int].epoch, expected: key.spec_epoch() },
            ),
        )
    } else {
        None
    }
}

/// The first of `check(0)`, ..., `check(n - 1)` that is an error.
pub open spec fn first_error<E>(check: spec_fn(nat) -> Option<E>, n: nat) -> Option<E>
    decreases n,
{
    if n == 0 {
        None
    } else {
        match first_error(check, (n - 1) as nat) {
            Some(error) => Some(error),
            None => check((n - 1) as nat),
        }
    }
}

pub open spec fn slot_checks<K: Key>(keys: Seq<K>, sparse: Seq<SparseItem<K>>) -> spec_fn(nat) -> Option<
    FromPartsError<K>,
> {
    |s: nat| slot_error(keys, sparse, s)
}

pub open spec fn entry_checks<K: Key>(keys: Seq<K>, sparse: Seq<SparseItem<K>>) -> spec_fn(nat) -> Option<
    FromPartsError<K>,
> {
    |d: nat| entry_error(keys, sparse, d)
}

/// The error that `check_parts` reports: the first slot error, else the first
/// entry error.
pub open spec fn parts_error<K: Key>(keys: Seq<K>, sparse: Seq<SparseItem<K>>) -> Option<
    FromPartsError<K>,
> {
    match first_error(slot_checks(keys, sparse), sparse.len()) {
        Some(error) => Some(error),
        None => first_error(entry_checks(keys, sparse), keys.len()),
    }
}

/// A dense and a sparse array agree: every slot index is representable, every
/// entry is named by its slot and every occupied slot names an entry of its own.
pub open spec fn parts_consistent<K: Key>(keys: Seq<K>, sparse: Seq<SparseItem<K>>) -> bool {
    &&& sparse.len() > 0 ==> K::index_fits((sparse.len() - 1) as nat)
    &&& forall|d: int| 0 <= d < keys.len() ==> #[trigger] dense_ok(keys, sparse, d)
    &&& forall|j: int| 0 <= j < sparse.len() ==> #[trigger] sparse_ok(keys, sparse, j)
}

/// `first_error` finds nothing exactly when no check fails.
pub proof fn lemma_first_error_none<E>(check: spec_fn(nat) -> Option<E>, n: nat)
    ensures
        first_error(check, n) is None <==> forall|i: nat| i < n ==> (#[trigger] check(i)) is None,
    decreases n,
{
    if n > 0 {
        lemma_first_error_none(check, (n - 1) as nat);
    }
}

/// Once `first_error` has found an error, looking further finds the same one.
pub proof fn lemma_first_error_stable<E>(check: spec_fn(nat) -> Option<E>, m: nat, n: nat)
    requires
        m <= n,
        first_error(check, m) is Some,
    ensures
        first_error(check, n) == first_error(check, m),
    decreases n - m,
{
    if m < n {
        lemma_first_error_stable(check, m, (n - 1) as nat);
    }
}

/// `check_parts` finds no error exactly when the parts agree.
pub proof fn lemma_parts_error<K: Key>(keys: Seq<K>, sparse: Seq<SparseItem<K>>)
    requires
        keys.len() <= usize::MAX,
        sparse.len() <= usize::MAX,
    ensures
        parts_error(keys, sparse) is None <==> parts_consistent(keys, sparse),
{
    lemma_first_error_none(slot_checks(keys, sparse), sparse.len());
    lemma_first_error_none(entry_checks(keys, sparse), keys.len());
    if parts_error(keys, sparse) is None {
        if sparse.len() > 0 {
            assert(slot_checks(keys, sparse)((sparse.len() - 1) as nat) is None);
        }
        assert forall|d: int| 0 <= d < keys.len() implies #[trigger] dense_ok(keys, sparse, d) by {
            assert(entry_checks(keys, sparse)(d as nat) is None);
        }
        assert forall|j: int| 0 <= j < sparse.len() implies #[trigger] sparse_ok(keys, sparse, j) by {
            assert(slot_checks(keys, sparse)(j as nat) is None);
        }
    }
    if parts_consistent(keys, sparse) {
        assert forall|s: nat| s < sparse.len() implies (#[trigger] slot_checks(keys, sparse)(s)) is None by {
            K::lemma_index_fits_below((sparse.len() - 1) as nat, s);
            assert(sparse_ok(keys, sparse, s as int));
            if sparse[s as int].kind is Occupied {
                assert(dense_ok(keys, sparse, item_dense_index(sparse[s as int]) as int));
            }
        }
        assert forall|d: nat| d < keys.len() implies (#[trigger] entry_checks(keys, sparse)(d)) is None by {
            assert(dense_ok(keys, sparse, d as int));
            let j = key_index(keys[d as int]);
            K::lemma_index_nat(sparse[j as int].kind->dense_index);
        }
    }
}

/// What `check_parts` finds at slot `s`.
fn check_slot<K: Key>(dense_keys: &[K], sparse: &[SparseItem<K>], s: usize) -> (result: Result<
    (),
    FromPartsError<K>,
>)
    requires
        s < sparse@.len(),
    ensures
        result == match slot_error(dense_keys@, sparse@, s as nat) {
            Some(error) => Err(error),
            None => Ok(()),
        },
{
    let dense_len = dense_keys.len();
    let sparse_index = match K::index_from_usize(s) {
        Some(sparse_index) => sparse_index,
        None => {
            return Err(FromPartsError::TooSmallSparseIndex(TooSmallSparseIndexError::new(s)));
        },
    };
    let sparse_item = &sparse[s];
    let dense_index = match sparse_item.dense_index() {
        Some(dense_index) => *dense_index,
        None => return Ok(()),
    };
    let d = match K::index_into_usize(dense_index) {
        Some(d) => d,
        None => {
            return Err(
                FromPartsError::TooLargeSparseIndex(TooLargeSparseIndexError::new(dense_index)),
            );
        },
    };
    if d >= dense_len {
        return Err(
            FromPartsError::DenseIndexOutOfBounds(DenseIndexOutOfBoundsError::new(d, dense_len)),
        );
    }
    let key = &dense_keys[d];
    let sparse_index_from_key = key.sparse_index();
    let same_index = match K::index_into_usize(sparse_index_from_key) {
        Some(j) => j == s,
        None => false,
    };
    if !same_index {
        return Err(
            FromPartsError::SparseIndexMismatch(
                SparseIndexMismatchError::new(sparse_index_from_key, sparse_index),
            ),
        );
    }
    let epoch_from_key = key.epoch();
    let expected_epoch = sparse_item.epoch;
    if !K::epoch_eq(epoch_from_key, expected_epoch) {
        return Err(
            FromPartsError::EpochMismatch(EpochMismatchError::new(epoch_from_key, expected_epoch)),
        );
    }
    Ok(())
}

/// What `check_parts` finds at entry `d`.
fn check_entry<K: Key>(dense_keys: &[K], sparse: &[SparseItem<K>], d: usize) -> (result: Result<
    (),
    FromPartsError<K>,
>)
    requires
        d < dense_keys@.len(),
    ensures
        result == match entry_error(dense_keys@, sparse@, d as nat) {
            Some(error) => Err(error),
            None => Ok(()),
        },
{
    let sparse_len = sparse.len();
    let key = &dense_keys[d];
    let key_sparse_index = key.sparse_index();
    let j = match K::index_into_usize(key_sparse_index) {
        Some(j) => j,
        None => {
            return Err(
                FromPartsError::TooLargeSparseIndex(TooLargeSparseIndexError::new(key_sparse_index)),
            );
        },
    };
    if j >= sparse_len {
        return Err(
            FromPartsError::SparseIndexOutOfBounds(SparseIndexOutOfBoundsError::new(j, sparse_len)),
        );
    }
    let sparse_item = &sparse[j];
    let dense_index = match K::index_from_usize(d) {
        Some(dense_index) => dense_index,
        None => {
            return Err(FromPartsError::TooSmallSparseIndex(TooSmallSparseIndexError::new(d)));
        },
    };
    let dense_index_from_item = match sparse_item.into_dense_index() {
        Some(dense_index_from_item) => dense_index_from_item,
        None => {
            return Err(
                FromPartsError::OccupiedSparseItemExpected(OccupiedSparseItemExpectedError::new(j)),
            );
        },
    };
    let same_index = match K::index_into_usize(dense_index_from_item) {
        Some(i) => i == d,
        None => false,
    };
    if !same_index {
        return Err(
            FromPartsError::DenseIndexMismatch(
                DenseIndexMismatchError::new(dense_index_from_item, dense_index),
            ),
        );
    }
    let epoch_from_item = sparse_item.epoch;
    let expected_epoch = key.epoch();
    if !K::epoch_eq(epoch_from_item, expected_epoch) {
        return Err(
            FromPartsError::EpochMismatch(EpochMismatchError::new(epoch_from_item, expected_epoch)),
        );
    }
    Ok(())
}

/// Checks that a dense and a sparse array form a sparse container: first every
/// slot, in order, then every entry, in order.  The first failure is reported.
pub fn check_parts<K: Key>(dense_keys: &[K], sparse: &[SparseItem<K>]) -> (result: Result<
    (),
    FromPartsError<K>,
>)
    ensures
        result == match parts_error(dense_keys@, sparse@) {
            Some(error) => Err(error),
            None => Ok(()),
        },
        result is Ok <==> parts_consistent(dense_keys@, sparse@),
{
    let dense_len = dense_keys.len();
    let sparse_len = sparse.len();
    proof {
        lemma_parts_error(dense_keys@, sparse@);
    }
    let mut s: usize = 0;
    while s < sparse_len
        invariant
            s <= sparse_len,
            sparse_len == sparse@.len(),
            first_error(slot_checks(dense_keys@, sparse@), s as nat) is None,
            parts_error(dense_keys@, sparse@) is None <==> parts_consistent(dense_keys@, sparse@),
        decreases sparse_len - s,
    {
        let checked = check_slot(dense_keys, sparse, s);
        if let Err(error) = checked {
            proof {
                assert(first_error(slot_checks(dense_keys@, sparse@), (s + 1) as nat) == Some(error));
                lemma_first_error_stable(slot_checks(dense_keys@, sparse@), (s + 1) as nat, sparse_len as nat);
            }
            return Err(error);
        }
        s += 1;
    }
    let mut d: usize = 0;
    while d < dense_len
        invariant
            d <= dense_len,
            dense_len == dense_keys@.len(),
            sparse_len == sparse@.len(),
            first_error(slot_checks(dense_keys@, sparse@), sparse_len as nat) is None,
            first_error(entry_checks(dense_keys@, sparse@), d as nat) is None,
            parts_error(dense_keys@, sparse@) is None <==> parts_consistent(dense_keys@, sparse@),
        decreases dense_len - d,
    {
        let checked = check_entry(dense_keys, sparse, d);
        if let Err(error) = checked {
            proof {
                assert(first_error(entry_checks(dense_keys@, sparse@), (d + 1) as nat) == Some(error));
                lemma_first_error_stable(entry_checks(dense_keys@, sparse@), (d + 1) as nat, dense_len as nat);
            }
            return Err(error);
        }
        d += 1;
    }
    Ok(())
}

} // verus!
