//! A sparse set: values stored densely, addressed by generational keys.
//!
//! Like the arena, the set keeps its keys and values side by side in dense
//! order and one item per sparse index; unlike the arena it keeps no list of
//! vacant slots: `push` takes the lowest vacant slot, and inserting under a
//! key beyond the sparse array grows it with vacant slots of the default epoch.
//! The items of the sparse array are of any type that implements the
//! `SparseItem` trait.
use vstd::layout::size_of;
use vstd::prelude::*;
use vstd::set_lib::{lemma_int_range, lemma_len_subset, set_int_range};

pub mod sort;

use crate::algo::{check_parts, dense_ok, lemma_parts_error, parts_error, sparse_ok};
use crate::arena::{
    copy_items, is_permutation, kept, lemma_no_room_for_max, lemma_kept_agree, lemma_kept_all, lemma_kept_index, lemma_kept_len, lemma_kept_origin,
    reversed, slots_below, vec_reserve_exact, vec_shrink_to, vec_shrink_to_fit, vec_try_reserve,
    vec_try_reserve_exact, EpochSparseArena,
};
use crate::asserts::{unwrap_into_index, unwrap_into_usize};
use crate::error::{
    FromPartsError, TooLargeSparseIndexError, TooSmallSparseIndexError, TryModifyError, TryModifyErrorKind,
    TryReserveError,
};
use crate::item::dense::{DenseItem, DenseRefs};
use crate::item::sparse::default::{DefaultSparseItem, DefaultSparseItemKind};
use crate::item::sparse::traits::SparseItem;
use crate::item::sparse::{SparseItem as ArenaItem, SparseItemKind};
use crate::key::{key_epoch, key_index, lemma_index_injective, lemma_key_eq_parts, Key};
pub use crate::set_entry::{Entry, OccupiedEntry, VacantEntry};

verus! {

/// The dense index that an item holds, as a number, if it is occupied.
pub open spec fn set_item_index<K: Key, S: SparseItem<Index = K::SparseIndex, Epoch = K::Epoch>>(
    item: S,
) -> Option<nat> {
    match item.spec_dense_index() {
        Some(i) => Some(K::index_nat(i)),
        None => None,
    }
}

/// The dense index that `key` resolves to: the item at its sparse index must
/// carry its epoch and be occupied.
pub open spec fn set_lookup<K: Key, S: SparseItem<Index = K::SparseIndex, Epoch = K::Epoch>>(
    sparse: Seq<S>,
    key: K,
) -> Option<nat> {
    let j = key_index(key);
    if j < sparse.len() && sparse[j as int].spec_epoch() == key.spec_epoch() {
        set_item_index::<K, S>(sparse[j as int])
    } else {
        None
    }
}

/// Entry `d` is named by the slot of its key's sparse index, which carries the
/// key's epoch.
pub open spec fn set_dense_ok<K: Key, S: SparseItem<Index = K::SparseIndex, Epoch = K::Epoch>>(
    keys: Seq<K>,
    sparse: Seq<S>,
    d: int,
) -> bool {
    let k = keys[d];
    let j = key_index(k);
    &&& j < sparse.len()
    &&& set_item_index::<K, S>(sparse[j as int]) == Some(d as nat)
    &&& sparse[j as int].spec_epoch() == k.spec_epoch()
}

/// An occupied slot `j` names an entry whose key names slot `j`.
pub open spec fn set_sparse_ok<K: Key, S: SparseItem<Index = K::SparseIndex, Epoch = K::Epoch>>(
    keys: Seq<K>,
    sparse: Seq<S>,
    j: int,
) -> bool {
    set_item_index::<K, S>(sparse[j]) matches Some(d) ==> d < keys.len() && key_index(keys[d as int]) == j
}

/// A sparse set mapping keys of type `K` to values of type `V`.
pub struct EpochSparseSet<K: Key, V, S: SparseItem<Index = K::SparseIndex, Epoch = K::Epoch> = DefaultSparseItem<K>> {
    dense_keys: Vec<K>,
    dense_values: Vec<V>,
    sparse: Vec<S>,
}

pub type SparseSet<V> = EpochSparseSet<usize, V>;

impl<K: Key, V, S: SparseItem<Index = K::SparseIndex, Epoch = K::Epoch>> EpochSparseSet<K, V, S> {
    /// The keys of the entries, in dense order.
    pub closed spec fn dense_keys_view(&self) -> Seq<K> {
        self.dense_keys@
    }

    /// The values of the entries, in dense order.
    pub closed spec fn dense_values_view(&self) -> Seq<V> {
        self.dense_values@
    }

    /// The items of the sparse array.
    pub closed spec fn sparse_view(&self) -> Seq<S> {
        self.sparse@
    }

    pub open spec fn spec_len(&self) -> nat {
        self.dense_keys_view().len()
    }

    pub open spec fn spec_sparse_len(&self) -> nat {
        self.sparse_view().len()
    }

    /// The dense index that `key` resolves to, if any.
    pub open spec fn spec_lookup(&self, key: K) -> Option<nat> {
        set_lookup::<K, S>(self.sparse_view(), key)
    }

    /// The invariant of the set.
    pub closed spec fn wf(&self) -> bool {
        &&& self.dense_keys@.len() == self.dense_values@.len()
        &&& forall|d: int| 0 <= d < self.dense_keys@.len() ==> #[trigger] set_dense_ok::<K, S>(self.dense_keys@, self.sparse@, d)
        &&& forall|j: int| 0 <= j < self.sparse@.len() ==> #[trigger] set_sparse_ok::<K, S>(self.dense_keys@, self.sparse@, j)
    }

    /// All three views of `self` and `other` agree.
    pub open spec fn spec_same(&self, other: &Self) -> bool {
        &&& self.dense_keys_view() == other.dense_keys_view()
        &&& self.dense_values_view() == other.dense_values_view()
        &&& self.sparse_view() == other.sparse_view()
    }

    /// The epoch of slot `j` as a number; a slot beyond the sparse array has
    /// the default epoch.
    pub open spec fn spec_slot_epoch(&self, j: nat) -> nat {
        if j < self.spec_sparse_len() {
            K::epoch_nat(self.sparse_view()[j as int].spec_epoch())
        } else {
            K::epoch_nat(K::spec_default_epoch())
        }
    }

    /// The dense index held by slot `j`; a slot beyond the sparse array is
    /// vacant.
    pub open spec fn spec_slot_index(&self, j: nat) -> Option<nat> {
        if j < self.spec_sparse_len() {
            set_item_index::<K, S>(self.sparse_view()[j as int])
        } else {
            None
        }
    }

    /// `new` has the sparse array of `self`, grown to reach slot `j`, with
    /// every slot but `j` as it was; slots added are vacant with the default
    /// epoch.
    pub open spec fn spec_grown_except(&self, new: &Self, j: nat) -> bool {
        &&& new.spec_sparse_len() == if j < self.spec_sparse_len() {
            self.spec_sparse_len()
        } else {
            j + 1
        }
        &&& forall|i: int|
            0 <= i < new.spec_sparse_len() && i != j ==> {
                let n = #[trigger] new.sparse_view()[i];
                &&& i < self.spec_sparse_len() ==> n == self.sparse_view()[i]
                &&& i >= self.spec_sparse_len() ==> set_item_index::<K, S>(n) is None && n.spec_epoch()
                    == K::spec_default_epoch()
            }
    }

    /// Slot `j` of `new` is as slot `j` of `self`, or, beyond the sparse array
    /// of `self`, vacant with the default epoch.
    pub open spec fn spec_slot_kept(&self, new: &Self, j: nat) -> bool {
        &&& j < self.spec_sparse_len() ==> new.sparse_view()[j as int] == self.sparse_view()[j as int]
        &&& j >= self.spec_sparse_len() ==> set_item_index::<K, S>(new.sparse_view()[j as int]) is None
            && new.sparse_view()[j as int].spec_epoch() == K::spec_default_epoch()
    }

    /// The entry that `key` names is the key's, lies at dense index `d`, and
    /// its slot carries the key's epoch.
    pub open spec fn spec_slot_holds(&self, j: nat, epoch: K::Epoch, d: nat) -> bool {
        &&& set_item_index::<K, S>(self.sparse_view()[j as int]) == Some(d)
        &&& self.sparse_view()[j as int].spec_epoch() == epoch
    }

    /// The slot that `key` names is free for a new entry: it holds none, and
    /// its epoch is not newer than the key's (a slot beyond the sparse array
    /// has the default epoch).
    pub open spec fn spec_slot_free(&self, key: K) -> bool {
        &&& self.spec_slot_index(key_index(key)) is None
        &&& key_epoch(key) >= self.spec_slot_epoch(key_index(key))
    }

    /// `new` is `self` with the new entry `key`, `value` at the end of the
    /// dense array, named by the key's slot (the sparse array grown to reach
    /// it if needed) under the key's epoch; every other slot is as it was.
    pub open spec fn spec_opened(&self, new: &Self, key: K, value: V) -> bool {
        let j = key_index(key);
        &&& new.dense_keys_view() == self.dense_keys_view().push(key)
        &&& new.dense_values_view() == self.dense_values_view().push(value)
        &&& self.spec_grown_except(new, j)
        &&& new.spec_slot_holds(j, key.spec_epoch(), self.spec_len())
    }

    /// What `try_insert` does with `key` and `value`.
    pub open spec fn spec_try_insert_outcome(
        &self,
        new: &Self,
        key: K,
        value: V,
        result: Result<Option<V>, TryModifyError<K, V>>,
    ) -> bool {
        let j = key_index(key);
        let n = self.spec_len();
        let unchanged_err = result is Err && result->Err_0.value == value && new.spec_same(self);
        let too_large = TryModifyErrorKind::<K>::TooLargeSparseIndex(
            TooLargeSparseIndexError { inner: key.spec_sparse_index() },
        );
        if j > usize::MAX {
            &&& unchanged_err
            &&& result->Err_0.kind == too_large
        } else if j == usize::MAX {
            &&& unchanged_err
            &&& (result->Err_0.kind matches TryModifyErrorKind::TryReserve(TryReserveError::Sparse(_)))
                || (size_of::<S>() == 0 && result->Err_0.kind == too_large)
        } else {
            let sparse_failed = unchanged_err && result->Err_0.kind is TryReserve && j
                >= self.spec_sparse_len();
            let stale = key_epoch(key) < self.spec_slot_epoch(j);
            let grown_err = {
                &&& result is Err
                &&& result->Err_0.value == value
                &&& new.dense_keys_view() == self.dense_keys_view()
                &&& new.dense_values_view() == self.dense_values_view()
                &&& self.spec_grown_except(new, j)
                &&& self.spec_slot_kept(new, j)
            };
            let grown = {
                &&& self.spec_grown_except(new, j)
                &&& if stale {
                    &&& result matches Ok(None)
                    &&& new.dense_keys_view() == self.dense_keys_view()
                    &&& new.dense_values_view() == self.dense_values_view()
                    &&& self.spec_slot_kept(new, j)
                } else if self.spec_slot_index(j) is Some {
                    let d = self.spec_slot_index(j)->0;
                    &&& result == Ok::<Option<V>, TryModifyError<K, V>>(
                        Some(self.dense_values_view()[d as int]),
                    )
                    &&& new.dense_keys_view() == self.dense_keys_view().update(d as int, key)
                    &&& new.dense_values_view() == self.dense_values_view().update(d as int, value)
                    &&& new.spec_slot_holds(j, key.spec_epoch(), d)
                } else if !K::index_fits(n) {
                    &&& grown_err
                    &&& result->Err_0.kind == TryModifyErrorKind::<K>::TooSmallSparseIndex(
                        TooSmallSparseIndexError { inner: n as usize },
                    )
                } else {
                    ||| {
                        &&& grown_err
                        &&& result->Err_0.kind is TryReserve
                    }
                    ||| {
                        &&& result matches Ok(None)
                        &&& new.dense_keys_view() == self.dense_keys_view().push(key)
                        &&& new.dense_values_view() == self.dense_values_view().push(value)
                        &&& new.spec_slot_holds(j, key.spec_epoch(), n)
                    }
                }
            };
            sparse_failed || grown
        }
    }

    /// The lowest vacant slot, or the end of the sparse array if there is none.
    pub open spec fn spec_push_slot(&self) -> nat {
        self.spec_push_slot_from(0)
    }

    /// The lowest vacant slot from `i` on, or the end of the sparse array.
    pub open spec fn spec_push_slot_from(&self, i: nat) -> nat
        decreases self.spec_sparse_len() - i,
    {
        if i >= self.spec_sparse_len() {
            self.spec_sparse_len()
        } else if set_item_index::<K, S>(self.sparse_view()[i as int]) is None {
            i
        } else {
            self.spec_push_slot_from(i + 1)
        }
    }

    /// The key that `push` hands out: the lowest vacant slot with its epoch,
    /// or the first slot past the end with the default epoch.
    pub open spec fn spec_push_key(&self) -> K {
        let h = self.spec_push_slot();
        let epoch = if h < self.spec_sparse_len() {
            self.sparse_view()[h as int].spec_epoch()
        } else {
            K::spec_default_epoch()
        };
        K::spec_new(K::index_of_nat(h), epoch)
    }
}

impl<K: Key, V, S: SparseItem<Index = K::SparseIndex, Epoch = K::Epoch>> EpochSparseSet<K, V, S> {
    /// The dense index that a key resolves to is the position of that very
    /// key among the dense keys, and the other way round.
    pub proof fn lemma_lookup(&self, key: K)
        requires
            self.wf(),
        ensures
            self.spec_lookup(key) is Some ==> {
                let d = self.spec_lookup(key)->0;
                d < self.spec_len() && self.dense_keys_view()[d as int] == key
            },
            forall|d: int|
                0 <= d < self.spec_len() && #[trigger] self.dense_keys_view()[d] == key
                    ==> self.spec_lookup(key) == Some(d as nat),
    {
        if self.spec_lookup(key) is Some {
            let d = self.spec_lookup(key)->0;
            let j = key_index(key);
            assert(set_sparse_ok::<K, S>(self.dense_keys@, self.sparse@, j as int));
            let k = self.dense_keys@[d as int];
            assert(set_dense_ok::<K, S>(self.dense_keys@, self.sparse@, d as int));
            lemma_index_injective::<K>(k.spec_sparse_index(), key.spec_sparse_index());
            lemma_key_eq_parts(k, key);
        }
        assert forall|d: int|
            0 <= d < self.spec_len() && #[trigger] self.dense_keys_view()[d] == key implies self.spec_lookup(
            key,
        ) == Some(d as nat) by {
            assert(set_dense_ok::<K, S>(self.dense_keys@, self.sparse@, d));
        }
    }

    /// The keys that resolve are exactly the dense keys, each with the value
    /// at its place; there are as many values as keys.
    pub proof fn lemma_view_domain(&self)
        requires
            self.wf(),
        ensures
            self.dense_values_view().len() == self.spec_len(),
            self@.dom() == self.dense_keys_view().to_set(),
            forall|d: int|
                0 <= d < self.spec_len() ==> self@[#[trigger] self.dense_keys_view()[d]]
                    == self.dense_values_view()[d],
    {
        assert forall|k: K| self@.dom().contains(k) <==> self.dense_keys_view().to_set().contains(k) by {
            self.lemma_lookup(k);
            if self@.dom().contains(k) {
                let d = self.spec_lookup(k)->0;
                assert(self.dense_keys_view()[d as int] == k);
            }
            if self.dense_keys_view().to_set().contains(k) {
                let d = choose|d: int| 0 <= d < self.spec_len() && self.dense_keys_view()[d] == k;
                assert(self.spec_lookup(k) == Some(d as nat));
            }
        }
        assert(self@.dom() =~= self.dense_keys_view().to_set());
        assert forall|d: int| 0 <= d < self.spec_len() implies self@[#[trigger] self.dense_keys_view()[d]]
            == self.dense_values_view()[d] by {
            self.lemma_lookup(self.dense_keys_view()[d]);
        }
    }

    /// The dense keys have pairwise distinct sparse indices.
    pub proof fn lemma_dense_keys_distinct(&self)
        requires
            self.wf(),
        ensures
            forall|a: int, b: int|
                0 <= a < b < self.spec_len() ==> key_index(#[trigger] self.dense_keys_view()[a])
                    != key_index(#[trigger] self.dense_keys_view()[b]),
    {
        assert forall|a: int, b: int|
            0 <= a < b < self.spec_len() implies key_index(#[trigger] self.dense_keys_view()[a])
            != key_index(#[trigger] self.dense_keys_view()[b]) by {
            assert(set_dense_ok::<K, S>(self.dense_keys@, self.sparse@, a));
            assert(set_dense_ok::<K, S>(self.dense_keys@, self.sparse@, b));
        }
    }

    /// An empty set.
    pub fn new() -> (set: Self)
        ensures
            set.wf(),
            set.spec_len() == 0,
            set.spec_sparse_len() == 0,
            set@ == Map::<K, V>::empty(),
    {
        let set = Self { dense_keys: Vec::new(), dense_values: Vec::new(), sparse: Vec::new() };
        proof {
            assert(set@ =~= Map::<K, V>::empty());
        }
        set
    }

    /// An empty set with room for `dense` entries and `sparse` slots; the room
    /// asked for must fit in `isize::MAX` bytes for each array.
    pub fn with_capacity(dense: usize, sparse: usize) -> (set: Self)
        requires
            dense * size_of::<K>() <= isize::MAX,
            dense * size_of::<V>() <= isize::MAX,
            sparse * size_of::<S>() <= isize::MAX,
        ensures
            set.wf(),
            set.spec_len() == 0,
            set.spec_sparse_len() == 0,
            set@ == Map::<K, V>::empty(),
    {
        let set = Self {
            dense_keys: Vec::with_capacity(dense),
            dense_values: Vec::with_capacity(dense),
            sparse: Vec::with_capacity(sparse),
        };
        proof {
            assert(set@ =~= Map::<K, V>::empty());
        }
        set
    }

    /// Reserves room for `additional_dense` more entries and
    /// `additional_sparse` more slots; the contents stay as they are.  The
    /// dense arrays are asked first: where they cannot grow the error is
    /// `Dense`, where the sparse array cannot it is `Sparse`.  A length plus
    /// the room asked for that overflows `usize` always fails.
    pub fn try_reserve(&mut self, additional_dense: usize, additional_sparse: usize) -> (result:
        Result<(), TryReserveError>)
        requires
            old(self).wf(),
        ensures
            final(self).wf(),
            final(self).spec_same(old(self)),
            result is Ok ==> old(self).spec_len() + additional_dense <= usize::MAX
                && old(self).spec_sparse_len() + additional_sparse <= usize::MAX,
            result is Ok ==> (old(self).spec_len() + additional_dense) * size_of::<K>() <= isize::MAX
                && (old(self).spec_len() + additional_dense) * size_of::<V>() <= isize::MAX
                && (old(self).spec_sparse_len() + additional_sparse) * size_of::<S>() <= isize::MAX,
            old(self).spec_len() + additional_dense > usize::MAX ==> result matches Err(
                TryReserveError::Dense(_),
            ),
            result matches Err(TryReserveError::Sparse(_)) ==> old(self).spec_len() + additional_dense
                <= usize::MAX,
    {
        proof {
            self.lemma_view_domain();
        }
        if let Err(error) = vec_try_reserve(&mut self.dense_keys, additional_dense) {
            return Err(TryReserveError::Dense(error));
        }
        if let Err(error) = vec_try_reserve(&mut self.dense_values, additional_dense) {
            return Err(TryReserveError::Dense(error));
        }
        if let Err(error) = vec_try_reserve(&mut self.sparse, additional_sparse) {
            return Err(TryReserveError::Sparse(error));
        }
        Ok(())
    }

    /// Reserves room for `additional_dense` more entries and
    /// `additional_sparse` more slots, asking for no more than needed; the
    /// contents stay as they are.  The room asked for must fit in `isize::MAX`
    /// bytes for each array.
    pub fn reserve_exact(&mut self, additional_dense: usize, additional_sparse: usize)
        requires
            old(self).wf(),
            old(self).spec_len() + additional_dense <= usize::MAX,
            (old(self).spec_len() + additional_dense) * size_of::<K>() <= isize::MAX,
            (old(self).spec_len() + additional_dense) * size_of::<V>() <= isize::MAX,
            old(self).spec_sparse_len() + additional_sparse <= usize::MAX,
            (old(self).spec_sparse_len() + additional_sparse) * size_of::<S>() <= isize::MAX,
        ensures
            final(self).wf(),
            final(self).spec_same(old(self)),
    {
        proof {
            self.lemma_view_domain();
        }
        vec_reserve_exact(&mut self.dense_keys, additional_dense);
        vec_reserve_exact(&mut self.dense_values, additional_dense);
        vec_reserve_exact(&mut self.sparse, additional_sparse);
    }

    /// Reserves room as `try_reserve` does, asking for no more than needed;
    /// it fails as `try_reserve` does.
    pub fn try_reserve_exact(&mut self, additional_dense: usize, additional_sparse: usize) -> (result:
        Result<(), TryReserveError>)
        requires
            old(self).wf(),
        ensures
            final(self).wf(),
            final(self).spec_same(old(self)),
            result is Ok ==> old(self).spec_len() + additional_dense <= usize::MAX
                && old(self).spec_sparse_len() + additional_sparse <= usize::MAX,
            result is Ok ==> (old(self).spec_len() + additional_dense) * size_of::<K>() <= isize::MAX
                && (old(self).spec_len() + additional_dense) * size_of::<V>() <= isize::MAX
                && (old(self).spec_sparse_len() + additional_sparse) * size_of::<S>() <= isize::MAX,
            old(self).spec_len() + additional_dense > usize::MAX ==> result matches Err(
                TryReserveError::Dense(_),
            ),
            result matches Err(TryReserveError::Sparse(_)) ==> old(self).spec_len() + additional_dense
                <= usize::MAX,
    {
        proof {
            self.lemma_view_domain();
        }
        if let Err(error) = vec_try_reserve_exact(&mut self.dense_keys, additional_dense) {
            return Err(TryReserveError::Dense(error));
        }
        if let Err(error) = vec_try_reserve_exact(&mut self.dense_values, additional_dense) {
            return Err(TryReserveError::Dense(error));
        }
        if let Err(error) = vec_try_reserve_exact(&mut self.sparse, additional_sparse) {
            return Err(TryReserveError::Sparse(error));
        }
        Ok(())
    }

    /// Gives back unused room of the dense and the sparse array; the contents
    /// stay as they are.
    pub fn shrink_to_fit(&mut self)
        requires
            old(self).wf(),
        ensures
            final(self).wf(),
            final(self).spec_same(old(self)),
    {
        vec_shrink_to_fit(&mut self.dense_keys);
        vec_shrink_to_fit(&mut self.dense_values);
        vec_shrink_to_fit(&mut self.sparse);
    }

    /// Gives back unused room of the dense array; the contents stay as they
    /// are.
    pub fn dense_shrink_to_fit(&mut self)
        requires
            old(self).wf(),
        ensures
            final(self).wf(),
            final(self).spec_same(old(self)),
    {
        vec_shrink_to_fit(&mut self.dense_keys);
        vec_shrink_to_fit(&mut self.dense_values);
    }

    /// Gives back unused room of the sparse array; the contents stay as they
    /// are.
    pub fn sparse_shrink_to_fit(&mut self)
        requires
            old(self).wf(),
        ensures
            final(self).wf(),
            final(self).spec_same(old(self)),
    {
        vec_shrink_to_fit(&mut self.sparse);
    }

    /// An empty set with room reserved as `try_reserve` does.
    pub fn try_with_capacity(dense: usize, sparse: usize) -> (result: Result<Self, TryReserveError>)
        ensures
            result is Ok ==> result->Ok_0.wf() && result->Ok_0.spec_len() == 0
                && result->Ok_0.spec_sparse_len() == 0,
            result is Ok ==> dense * size_of::<K>() <= isize::MAX && dense * size_of::<V>() <= isize::MAX
                && sparse * size_of::<S>() <= isize::MAX,
    {
        let mut set = Self::new();
        match set.try_reserve(dense, sparse) {
            Ok(()) => Ok(set),
            Err(error) => Err(error),
        }
    }

    /// Reserves room for at least `additional_dense` more entries and
    /// `additional_sparse` more slots; the contents stay as they are.  The
    /// room asked for must fit in `isize::MAX` bytes for each array.
    pub fn reserve(&mut self, additional_dense: usize, additional_sparse: usize)
        requires
            old(self).wf(),
            old(self).spec_len() + additional_dense <= usize::MAX,
            (old(self).spec_len() + additional_dense) * size_of::<K>() <= isize::MAX,
            (old(self).spec_len() + additional_dense) * size_of::<V>() <= isize::MAX,
            old(self).spec_sparse_len() + additional_sparse <= usize::MAX,
            (old(self).spec_sparse_len() + additional_sparse) * size_of::<S>() <= isize::MAX,
        ensures
            final(self).wf(),
            final(self).spec_same(old(self)),
    {
        self.dense_keys.reserve(additional_dense);
        self.dense_values.reserve(additional_dense);
        self.sparse.reserve(additional_sparse);
    }

    /// The number of entries.
    pub fn len(&self) -> (len: usize)
        ensures
            len == self.spec_len(),
    {
        self.dense_keys.len()
    }

    pub fn is_empty(&self) -> (empty: bool)
        ensures
            empty == (self.spec_len() == 0),
    {
        self.dense_keys.len() == 0
    }

    /// The number of slots of the sparse array.
    pub fn sparse_len(&self) -> (len: usize)
        ensures
            len == self.spec_sparse_len(),
    {
        self.sparse.len()
    }

    pub fn sparse_is_empty(&self) -> (empty: bool)
        ensures
            empty == (self.spec_sparse_len() == 0),
    {
        self.sparse.len() == 0
    }

    /// The keys of the entries, in dense order.
    pub fn as_key_slice(&self) -> (keys: &[K])
        ensures
            keys@ == self.dense_keys_view(),
    {
        self.dense_keys.as_slice()
    }

    /// The items of the sparse array.
    pub fn as_sparse_slice(&self) -> (sparse: &[S])
        ensures
            sparse@ == self.sparse_view(),
    {
        self.sparse.as_slice()
    }

    /// The dense part (the keys and the values, in dense order) and the sparse
    /// part of the set.
    pub fn into_parts(self) -> (parts: ((Vec<K>, Vec<V>), Vec<S>))
        ensures
            (parts.0).0@ == self.dense_keys_view(),
            (parts.0).1@ == self.dense_values_view(),
            parts.1@ == self.sparse_view(),
    {
        ((self.dense_keys, self.dense_values), self.sparse)
    }

    /// The dense index that `key` resolves to.
    fn find(&self, key: K) -> (found: Option<usize>)
        requires
            self.wf(),
        ensures
            match self.spec_lookup(key) {
                Some(d) => found is Some && found->0 == d && d < self.spec_len(),
                None => found is None,
            },
    {
        let sparse_len = self.sparse.len();
        let dense_len = self.dense_keys.len();
        let sparse_index = match K::index_into_usize(key.sparse_index()) {
            Some(sparse_index) => sparse_index,
            None => return None,
        };
        if sparse_index >= sparse_len {
            return None;
        }
        let item = self.sparse[sparse_index];
        if !K::epoch_eq(item.epoch(), key.epoch()) {
            return None;
        }
        match item.dense_index() {
            Some(dense_index) => {
                proof {
                    assert(set_sparse_ok::<K, S>(self.dense_keys@, self.sparse@, sparse_index as int));
                }
                Some(unwrap_into_usize::<K>(dense_index))
            },
            None => None,
        }
    }

    /// The value of `key`, if the key resolves.
    pub fn get(&self, key: K) -> (value: Option<&V>)
        requires
            self.wf(),
        ensures
            value is Some == self@.contains_key(key),
            value is Some ==> *value->0 == self@[key],
    {
        match self.find(key) {
            Some(dense_index) => Some(&self.dense_values[dense_index]),
            None => None,
        }
    }

    /// The value of `key` for change, if the key resolves.
    pub fn get_mut(&mut self, key: K) -> (value: Option<&mut V>)
        requires
            old(self).wf(),
        ensures
            final(self).wf(),
            value is Some == old(self)@.contains_key(key),
            value is Some ==> {
                let d = old(self).spec_lookup(key)->0 as int;
                &&& *value->0 == old(self)@[key]
                &&& final(self).dense_values_view() == old(self).dense_values_view().update(
                    d,
                    *final(value->0),
                )
                &&& final(self).dense_keys_view() == old(self).dense_keys_view()
                &&& final(self).sparse_view() == old(self).sparse_view()
            },
            value is None ==> final(self).spec_same(old(self)),
    {
        match self.find(key) {
            Some(dense_index) => Some(&mut self.dense_values[dense_index]),
            None => None,
        }
    }

    /// The entry of `key`: occupied if the key resolves, vacant otherwise.  A
    /// key whose sparse index does not fit in `usize` has no entry.
    pub fn try_entry(&mut self, key: K) -> (entry: Result<Entry<'_, K, V, S>, TooLargeSparseIndexError<K>>)
        requires
            old(self).wf(),
        ensures
            (entry is Err) == (key_index(key) > usize::MAX),
            entry is Err ==> entry->Err_0.inner == key.spec_sparse_index() && *final(self) == *old(self),
            entry is Ok ==> (entry->Ok_0 is Occupied) == (old(self).spec_lookup(key) is Some),
            entry matches Ok(Entry::Occupied(o)) ==> {
                &&& o.key == key
                &&& old(self).spec_lookup(key) == Some(o.dense_index as nat)
                &&& o.spec_set() == *old(self)
                &&& *final(o.set) == *final(self)
            },
            entry matches Ok(Entry::Vacant(v)) ==> {
                &&& v.key == key
                &&& v.spec_set() == *old(self)
                &&& *final(v.set) == *final(self)
            },
    {
        if K::index_into_usize(key.sparse_index()).is_none() {
            return Err(TooLargeSparseIndexError::new(key.sparse_index()));
        }
        match self.find(key) {
            Some(dense_index) => Ok(Entry::Occupied(OccupiedEntry { key, dense_index, set: self })),
            None => Ok(Entry::Vacant(VacantEntry { key, set: self })),
        }
    }

    /// The entry of `key`, as `try_entry` finds it; the key's sparse index
    /// must fit in `usize`.
    pub fn entry(&mut self, key: K) -> (entry: Entry<'_, K, V, S>)
        requires
            old(self).wf(),
            key_index(key) <= usize::MAX,
        ensures
            (entry is Occupied) == (old(self).spec_lookup(key) is Some),
            entry matches Entry::Occupied(o) ==> {
                &&& o.key == key
                &&& old(self).spec_lookup(key) == Some(o.dense_index as nat)
                &&& o.spec_set() == *old(self)
                &&& *final(o.set) == *final(self)
            },
            entry matches Entry::Vacant(v) ==> {
                &&& v.key == key
                &&& v.spec_set() == *old(self)
                &&& *final(v.set) == *final(self)
            },
    {
        match self.find(key) {
            Some(dense_index) => Entry::Occupied(OccupiedEntry { key, dense_index, set: self }),
            None => Entry::Vacant(VacantEntry { key, set: self }),
        }
    }

    /// Whether `key` resolves.
    pub fn contains_key(&self, key: K) -> (contains: bool)
        requires
            self.wf(),
        ensures
            contains == self@.contains_key(key),
    {
        self.find(key).is_some()
    }

    /// The epoch of the slot at `sparse_index`, if the slot exists.
    pub fn get_epoch(&self, sparse_index: K::SparseIndex) -> (epoch: Option<K::Epoch>)
        ensures
            K::index_nat(sparse_index) < self.spec_sparse_len() ==> epoch == Some(
                self.sparse_view()[K::index_nat(sparse_index) as int].spec_epoch(),
            ),
            K::index_nat(sparse_index) >= self.spec_sparse_len() ==> epoch is None,
    {
        let sparse_len = self.sparse.len();
        let sparse_index = match K::index_into_usize(sparse_index) {
            Some(sparse_index) => sparse_index,
            None => return None,
        };
        if sparse_index < sparse_len {
            Some(self.sparse[sparse_index].epoch())
        } else {
            None
        }
    }
}

impl<K: Key, V: Clone, S: SparseItem<Index = K::SparseIndex, Epoch = K::Epoch>> Clone for EpochSparseSet<
    K,
    V,
    S,
> {
    /// A copy of the set: the same keys and sparse array, and a clone of each
    /// value.
    fn clone(&self) -> (copy: Self)
        ensures
            copy.dense_keys_view() == self.dense_keys_view(),
            copy.sparse_view() == self.sparse_view(),
            copy.dense_values_view().len() == self.dense_values_view().len(),
            forall|d: int|
                0 <= d < self.dense_values_view().len() ==> cloned::<V>(
                    self.dense_values_view()[d],
                    #[trigger] copy.dense_values_view()[d],
                ),
            self.wf() ==> copy.wf(),
    {
        Self {
            dense_keys: copy_items(&self.dense_keys),
            dense_values: self.dense_values.clone(),
            sparse: copy_items(&self.sparse),
        }
    }

    /// Makes the set a copy of `source`, as `clone` would.
    fn clone_from(&mut self, source: &Self)
        ensures
            final(self).dense_keys_view() == source.dense_keys_view(),
            final(self).sparse_view() == source.sparse_view(),
            final(self).dense_values_view().len() == source.dense_values_view().len(),
            forall|d: int|
                0 <= d < source.dense_values_view().len() ==> cloned::<V>(
                    source.dense_values_view()[d],
                    #[trigger] final(self).dense_values_view()[d],
                ),
            source.wf() ==> final(self).wf(),
    {
        *self = source.clone();
    }
}

impl<K: Key, V, S: SparseItem<Index = K::SparseIndex, Epoch = K::Epoch>> View for EpochSparseSet<K, V, S> {
    type V = Map<K, V>;

    /// The entries of the set: each key that resolves, with its value.
    open spec fn view(&self) -> Map<K, V> {
        Map::new(
            |key: K| self.spec_lookup(key) is Some,
            |key: K| self.dense_values_view()[self.spec_lookup(key)->0 as int],
        )
    }
}

impl<K: Key, V, S: SparseItem<Index = K::SparseIndex, Epoch = K::Epoch>> EpochSparseSet<K, V, S> {
    /// The number of entries is the number of keys that resolve.
    pub proof fn lemma_len_is_entry_count(&self)
        requires
            self.wf(),
        ensures
            self@.dom().finite(),
            self@.dom().len() == self.spec_len(),
    {
        self.lemma_view_domain();
        self.lemma_keys_unique();
        self.dense_keys_view().unique_seq_to_set();
        vstd::seq_lib::seq_to_set_is_finite(self.dense_keys_view());
    }

    /// No key occurs twice in the dense array.
    pub proof fn lemma_keys_unique(&self)
        requires
            self.wf(),
        ensures
            self.dense_keys_view().no_duplicates(),
    {
        self.lemma_dense_keys_distinct();
        assert forall|a: int, b: int|
            0 <= a < self.spec_len() && 0 <= b < self.spec_len() && a != b implies self.dense_keys_view()[a]
            != self.dense_keys_view()[b] by {
            if a < b {
                assert(key_index(self.dense_keys_view()[a]) != key_index(self.dense_keys_view()[b]));
            } else {
                assert(key_index(self.dense_keys_view()[b]) != key_index(self.dense_keys_view()[a]));
            }
        }
    }

    /// The entries of a set are determined by its dense part.
    pub proof fn lemma_view_determined_by_dense(&self, other: &Self)
        requires
            self.wf(),
            other.wf(),
            self.dense_keys_view() == other.dense_keys_view(),
            self.dense_values_view() == other.dense_values_view(),
        ensures
            self@ == other@,
    {
        self.lemma_view_domain();
        other.lemma_view_domain();
        assert forall|k: K| #[trigger] self@.contains_key(k) implies self@[k] == other@[k] by {
            let d = choose|d: int| 0 <= d < self.spec_len() && self.dense_keys_view()[d] == k;
            assert(self@[self.dense_keys_view()[d]] == self.dense_values_view()[d]);
            assert(other@[other.dense_keys_view()[d]] == other.dense_values_view()[d]);
        }
        assert(self@ =~= other@);
    }

    /// Replacing the entry at dense index `d` by `key` and `value` replaces the
    /// pair of the key that was there.
    proof fn lemma_replaced_view(&self, new: &Self, d: int, key: K, value: V)
        requires
            self.wf(),
            new.wf(),
            0 <= d < self.spec_len(),
            new.dense_keys_view() == self.dense_keys_view().update(d, key),
            new.dense_values_view() == self.dense_values_view().update(d, value),
        ensures
            self@.contains_key(self.dense_keys_view()[d]),
            new@ == self@.remove(self.dense_keys_view()[d]).insert(key, value),
    {
        let holder = self.dense_keys_view()[d];
        self.lemma_view_domain();
        new.lemma_view_domain();
        self.lemma_keys_unique();
        new.lemma_keys_unique();
        let expected = self@.remove(holder).insert(key, value);
        assert forall|k: K| #[trigger] new@.contains_key(k) == expected.contains_key(k) && (new@.contains_key(k)
            ==> new@[k] == expected[k]) by {
            if k == key {
                assert(new.dense_keys_view()[d] == key);
                assert(new@[new.dense_keys_view()[d]] == new.dense_values_view()[d]);
            } else if k == holder {
                if new@.contains_key(k) {
                    let e = choose|e: int| 0 <= e < new.spec_len() && new.dense_keys_view()[e] == k;
                    assert(e != d);
                    assert(self.dense_keys_view()[e] == holder);
                }
            } else {
                if self@.contains_key(k) {
                    let e = choose|e: int| 0 <= e < self.spec_len() && self.dense_keys_view()[e] == k;
                    assert(e != d);
                    assert(new.dense_keys_view()[e] == k);
                    assert(new@[new.dense_keys_view()[e]] == new.dense_values_view()[e]);
                    assert(self@[self.dense_keys_view()[e]] == self.dense_values_view()[e]);
                }
                if new@.contains_key(k) {
                    let e = choose|e: int| 0 <= e < new.spec_len() && new.dense_keys_view()[e] == k;
                    assert(e != d);
                    assert(self.dense_keys_view()[e] == k);
                }
            }
        }
        assert(new@ =~= expected);
    }

    /// Appending `key` and `value` to the dense part adds exactly that pair.
    proof fn lemma_pushed_view(&self, new: &Self, key: K, value: V)
        requires
            self.wf(),
            new.wf(),
            new.dense_keys_view() == self.dense_keys_view().push(key),
            new.dense_values_view() == self.dense_values_view().push(value),
        ensures
            !self@.contains_key(key),
            new@ == self@.insert(key, value),
    {
        let n = self.spec_len() as int;
        self.lemma_view_domain();
        new.lemma_view_domain();
        new.lemma_keys_unique();
        if self@.contains_key(key) {
            let e = choose|e: int| 0 <= e < n && self.dense_keys_view()[e] == key;
            assert(new.dense_keys_view()[e] == new.dense_keys_view()[n]);
        }
        let expected = self@.insert(key, value);
        assert forall|k: K| #[trigger] new@.contains_key(k) == expected.contains_key(k) && (new@.contains_key(k)
            ==> new@[k] == expected[k]) by {
            if k == key {
                assert(new.dense_keys_view()[n] == key);
                assert(new@[new.dense_keys_view()[n]] == new.dense_values_view()[n]);
            } else {
                if self@.contains_key(k) {
                    let e = choose|e: int| 0 <= e < n && self.dense_keys_view()[e] == k;
                    assert(new.dense_keys_view()[e] == k);
                    assert(new@[new.dense_keys_view()[e]] == new.dense_values_view()[e]);
                    assert(self@[self.dense_keys_view()[e]] == self.dense_values_view()[e]);
                }
                if new@.contains_key(k) {
                    let e = choose|e: int| 0 <= e < n + 1 && new.dense_keys_view()[e] == k;
                    assert(e != n);
                    assert(self.dense_keys_view()[e] == k);
                }
            }
        }
        assert(new@ =~= expected);
    }

    /// Grows the sparse array to `new_len` slots, vacant with the default
    /// epoch; the entries stay as they are.
    fn extend_sparse(&mut self, new_len: usize)
        requires
            old(self).wf(),
        ensures
            final(self).wf(),
            final(self).dense_keys_view() == old(self).dense_keys_view(),
            final(self).dense_values_view() == old(self).dense_values_view(),
            final(self).spec_sparse_len() == if old(self).spec_sparse_len() < new_len {
                new_len as nat
            } else {
                old(self).spec_sparse_len()
            },
            forall|i: int|
                0 <= i < old(self).spec_sparse_len() ==> #[trigger] final(self).sparse_view()[i]
                    == old(self).sparse_view()[i],
            forall|i: int|
                old(self).spec_sparse_len() <= i < final(self).spec_sparse_len() ==> set_item_index::<K, S>(
                    #[trigger] final(self).sparse_view()[i],
                ) is None && final(self).sparse_view()[i].spec_epoch() == K::spec_default_epoch(),
    {
        let ghost keys = self.dense_keys@;
        let ghost sparse0 = self.sparse@;
        let old_len = self.sparse.len();
        while self.sparse.len() < new_len
            invariant
                self.dense_keys@ == keys,
                self.dense_values@ == old(self).dense_values@,
                keys == old(self).dense_keys@,
                sparse0 == old(self).sparse@,
                old(self).wf(),
                old_len == sparse0.len(),
                old_len <= self.sparse@.len(),
                self.sparse@.len() <= if old_len < new_len {
                    new_len as nat
                } else {
                    old_len as nat
                },
                forall|i: int| 0 <= i < old_len ==> #[trigger] self.sparse@[i] == sparse0[i],
                forall|i: int|
                    old_len <= i < self.sparse@.len() ==> set_item_index::<K, S>(#[trigger] self.sparse@[i])
                        is None && self.sparse@[i].spec_epoch() == K::spec_default_epoch(),
            decreases new_len - self.sparse@.len(),
        {
            self.sparse.push(S::vacant(K::default_epoch()));
        }
        proof {
            assert forall|d: int| 0 <= d < keys.len() implies #[trigger] set_dense_ok::<K, S>(
                keys,
                self.sparse@,
                d,
            ) by {
                assert(set_dense_ok::<K, S>(keys, sparse0, d));
            }
            assert forall|j: int| 0 <= j < self.sparse@.len() implies #[trigger] set_sparse_ok::<K, S>(
                keys,
                self.sparse@,
                j,
            ) by {
                if j < old_len {
                    assert(set_sparse_ok::<K, S>(keys, sparse0, j));
                }
            }
        }
    }

    /// Stores `value` under `key`.
    ///
    /// The sparse array first grows, if needed, to reach the key's slot.  A
    /// key whose epoch is older than its slot's is stale: nothing is stored
    /// and `Ok(None)` comes back.  A key whose slot is occupied takes the
    /// entry over (the slot's epoch becomes the key's) and the old value comes
    /// back.  Otherwise a new entry is appended.  On every error the entries
    /// stay as they are and the value is handed back.
    pub fn try_insert(&mut self, key: K, value: V) -> (result: Result<Option<V>, TryModifyError<K, V>>)
        requires
            old(self).wf(),
        ensures
            final(self).wf(),
            old(self).spec_try_insert_outcome(final(self), key, value, result),
            result is Err ==> final(self)@ == old(self)@,
            result matches Ok(None) && key_epoch(key) < old(self).spec_slot_epoch(key_index(key))
                ==> final(self)@ == old(self)@,
            result matches Ok(None) && key_epoch(key) >= old(self).spec_slot_epoch(key_index(key))
                ==> !old(self)@.contains_key(key) && final(self)@ == old(self)@.insert(key, value),
            result matches Ok(Some(_)) ==> {
                let holder = old(self).dense_keys_view()[old(self).spec_slot_index(key_index(key))->0 as int];
                &&& old(self)@.contains_key(holder)
                &&& key_index(holder) == key_index(key)
                &&& final(self)@ == old(self)@.remove(holder).insert(key, value)
            },
    {
        let ghost old_self = *self;
        let ghost j = key_index(key);
        let sparse_len = self.sparse.len();
        let dense_len = self.dense_keys.len();
        let sparse_index = match K::index_into_usize(key.sparse_index()) {
            Some(sparse_index) => sparse_index,
            None => {
                let error = TooLargeSparseIndexError::new(key.sparse_index());
                return Err(TryModifyError::new(TryModifyErrorKind::TooLargeSparseIndex(error), value));
            },
        };
        if sparse_index == usize::MAX {
            // The sparse array would have to reach past `usize::MAX` items;
            // asking for room up to there fails unless the items take none.
            if let Err(error) = vec_try_reserve(&mut self.sparse, usize::MAX - sparse_len) {
                let kind = TryModifyErrorKind::TryReserve(TryReserveError::Sparse(error));
                return Err(TryModifyError::new(kind, value));
            }
            proof {
                lemma_no_room_for_max::<S>();
            }
            let error = TooLargeSparseIndexError::new(key.sparse_index());
            return Err(TryModifyError::new(TryModifyErrorKind::TooLargeSparseIndex(error), value));
        }
        let new_sparse_len = sparse_index + 1;
        if new_sparse_len > sparse_len {
            if let Err(error) = vec_try_reserve(&mut self.sparse, new_sparse_len - sparse_len) {
                let kind = TryModifyErrorKind::TryReserve(TryReserveError::Sparse(error));
                return Err(TryModifyError::new(kind, value));
            }
        }
        self.extend_sparse(new_sparse_len);
        let ghost grown = *self;
        proof {
            grown.lemma_view_determined_by_dense(&old_self);
            assert(old_self.spec_grown_except(&grown, j));
            assert(old_self.spec_slot_kept(&grown, j));
            assert(grown.spec_slot_epoch(j) == old_self.spec_slot_epoch(j));
            assert(grown.spec_slot_index(j) == old_self.spec_slot_index(j));
        }
        let item = self.sparse[sparse_index];
        if K::epoch_ge(key.epoch(), item.epoch()) && item.is_vacant() {
            if K::index_from_usize(dense_len).is_none() {
                let error = TooSmallSparseIndexError::new(dense_len);
                return Err(TryModifyError::new(TryModifyErrorKind::TooSmallSparseIndex(error), value));
            }
            if let Err(error) = vec_try_reserve(&mut self.dense_keys, 1) {
                let kind = TryModifyErrorKind::TryReserve(TryReserveError::Dense(error));
                return Err(TryModifyError::new(kind, value));
            }
            if let Err(error) = vec_try_reserve(&mut self.dense_values, 1) {
                let kind = TryModifyErrorKind::TryReserve(TryReserveError::Dense(error));
                return Err(TryModifyError::new(kind, value));
            }
        }
        let previous = self.insert_grown(key, value, sparse_index);
        proof {
            assert(old_self.spec_grown_except(self, j));
            if key_epoch(key) < old_self.spec_slot_epoch(j) {
                assert(old_self.spec_slot_kept(self, j));
            }
        }
        Ok(previous)
    }

    /// Stores `value` under `key`, whose slot `sparse_index` exists: nothing
    /// for a stale key, a take-over of an occupied slot, or a new entry.
    fn insert_grown(&mut self, key: K, value: V, sparse_index: usize) -> (previous: Option<V>)
        requires
            old(self).wf(),
            key_index(key) == sparse_index,
            sparse_index < old(self).spec_sparse_len(),
            key_epoch(key) >= old(self).spec_slot_epoch(sparse_index as nat) && old(self).spec_slot_index(
                sparse_index as nat,
            ) is None ==> K::index_fits(old(self).spec_len()),
        ensures
            final(self).wf(),
            final(self).spec_sparse_len() == old(self).spec_sparse_len(),
            forall|i: int|
                0 <= i < old(self).spec_sparse_len() && i != sparse_index ==> #[trigger] final(self).sparse_view()[i] == old(self).sparse_view()[i],
            if key_epoch(key) < old(self).spec_slot_epoch(sparse_index as nat) {
                &&& previous is None
                &&& final(self).spec_same(old(self))
                &&& final(self)@ == old(self)@
            } else if old(self).spec_slot_index(sparse_index as nat) is Some {
                let d = old(self).spec_slot_index(sparse_index as nat)->0;
                let holder = old(self).dense_keys_view()[d as int];
                &&& previous == Some(old(self).dense_values_view()[d as int])
                &&& final(self).dense_keys_view() == old(self).dense_keys_view().update(d as int, key)
                &&& final(self).dense_values_view() == old(self).dense_values_view().update(d as int, value)
                &&& final(self).spec_slot_holds(sparse_index as nat, key.spec_epoch(), d)
                &&& old(self)@.contains_key(holder)
                &&& key_index(holder) == key_index(key)
                &&& final(self)@ == old(self)@.remove(holder).insert(key, value)
            } else {
                &&& previous is None
                &&& final(self).dense_keys_view() == old(self).dense_keys_view().push(key)
                &&& final(self).dense_values_view() == old(self).dense_values_view().push(value)
                &&& final(self).spec_slot_holds(sparse_index as nat, key.spec_epoch(), old(self).spec_len())
                &&& !old(self)@.contains_key(key)
                &&& final(self)@ == old(self)@.insert(key, value)
            },
    {
        let ghost old_self = *self;
        let ghost j = key_index(key);
        let dense_len = self.dense_keys.len();
        let item = self.sparse[sparse_index];
        if !K::epoch_ge(key.epoch(), item.epoch()) {
            return None;
        }
        match item.dense_index() {
            Some(dense_index) => {
                proof {
                    assert(set_sparse_ok::<K, S>(old_self.dense_keys@, old_self.sparse@, j as int));
                    K::lemma_index_nat(dense_index);
                }
                let d = unwrap_into_usize::<K>(dense_index);
                let ghost inserted = value;
                let mut value = value;
                core::mem::swap(&mut self.dense_values[d], &mut value);
                self.dense_keys.set(d, key);
                self.sparse.set(sparse_index, S::occupied(key.epoch(), dense_index));
                proof {
                    let keys = self.dense_keys@;
                    let sparse = self.sparse@;
                    assert forall|e: int| 0 <= e < keys.len() implies #[trigger] set_dense_ok::<K, S>(
                        keys,
                        sparse,
                        e,
                    ) by {
                        assert(set_dense_ok::<K, S>(old_self.dense_keys@, old_self.sparse@, e));
                        if e != d {
                            assert(key_index(old_self.dense_keys@[e]) != j);
                        }
                    }
                    assert forall|i: int| 0 <= i < sparse.len() implies #[trigger] set_sparse_ok::<K, S>(
                        keys,
                        sparse,
                        i,
                    ) by {
                        assert(set_sparse_ok::<K, S>(old_self.dense_keys@, old_self.sparse@, i));
                        if i != j && set_item_index::<K, S>(sparse[i]) is Some {
                            let e = set_item_index::<K, S>(sparse[i])->0 as int;
                            if e == d {
                                assert(set_dense_ok::<K, S>(old_self.dense_keys@, old_self.sparse@, e));
                            }
                        }
                    }
                    assert(self.wf());
                    old_self.lemma_replaced_view(self, d as int, key, inserted);
                    assert(old_self.dense_keys_view()[d as int] == old_self.dense_keys_view()[d as int]);
                    assert(set_dense_ok::<K, S>(old_self.dense_keys@, old_self.sparse@, d as int));
                }
                Some(value)
            },
            None => {
                let dense_index = unwrap_into_index::<K>(dense_len);
                self.dense_keys.push(key);
                self.dense_values.push(value);
                self.sparse.set(sparse_index, S::occupied(key.epoch(), dense_index));
                proof {
                    K::lemma_index_of_nat(dense_len as nat);
                    let keys = self.dense_keys@;
                    let sparse = self.sparse@;
                    assert forall|e: int| 0 <= e < keys.len() implies #[trigger] set_dense_ok::<K, S>(
                        keys,
                        sparse,
                        e,
                    ) by {
                        if e < dense_len {
                            assert(set_dense_ok::<K, S>(old_self.dense_keys@, old_self.sparse@, e));
                            assert(keys[e] == old_self.dense_keys@[e]);
                        }
                    }
                    assert forall|i: int| 0 <= i < sparse.len() implies #[trigger] set_sparse_ok::<K, S>(
                        keys,
                        sparse,
                        i,
                    ) by {
                        assert(set_sparse_ok::<K, S>(old_self.dense_keys@, old_self.sparse@, i));
                    }
                    assert(self.wf());
                    old_self.lemma_pushed_view(self, key, value);
                }
                None
            },
        }
    }

    /// Whether `insert` can store under `key` without failing.
    pub open spec fn spec_insert_fits(&self, key: K) -> bool {
        let j = key_index(key);
        &&& j < usize::MAX
        &&& key_epoch(key) >= self.spec_slot_epoch(j) && self.spec_slot_index(j) is None ==> K::index_fits(
            self.spec_len(),
        )
    }

    /// Stores `value` under `key`, as `try_insert` does where it succeeds.
    pub fn insert(&mut self, key: K, value: V) -> (previous: Option<V>)
        requires
            old(self).wf(),
            old(self).spec_insert_fits(key),
        ensures
            final(self).wf(),
            old(self).spec_try_insert_outcome(
                final(self),
                key,
                value,
                Ok::<Option<V>, TryModifyError<K, V>>(previous),
            ),
            previous is None && key_epoch(key) < old(self).spec_slot_epoch(key_index(key))
                ==> final(self)@ == old(self)@,
            previous is None && key_epoch(key) >= old(self).spec_slot_epoch(key_index(key))
                ==> !old(self)@.contains_key(key) && final(self)@ == old(self)@.insert(key, value),
            previous is Some ==> {
                let holder = old(self).dense_keys_view()[old(self).spec_slot_index(key_index(key))->0 as int];
                &&& old(self)@.contains_key(holder)
                &&& key_index(holder) == key_index(key)
                &&& final(self)@ == old(self)@.remove(holder).insert(key, value)
            },
    {
        let ghost old_self = *self;
        let ghost j = key_index(key);
        let sparse_index = unwrap_into_usize::<K>(key.sparse_index());
        self.extend_sparse(sparse_index + 1);
        let ghost grown = *self;
        proof {
            grown.lemma_view_determined_by_dense(&old_self);
            assert(old_self.spec_grown_except(&grown, j));
            assert(old_self.spec_slot_kept(&grown, j));
            assert(grown.spec_slot_epoch(j) == old_self.spec_slot_epoch(j));
            assert(grown.spec_slot_index(j) == old_self.spec_slot_index(j));
        }
        let previous = self.insert_grown(key, value, sparse_index);
        proof {
            assert(old_self.spec_grown_except(self, j));
            if key_epoch(key) < old_self.spec_slot_epoch(j) {
                assert(old_self.spec_slot_kept(self, j));
            }
        }
        previous
    }
}

impl<K: Key, V, S: SparseItem<Index = K::SparseIndex, Epoch = K::Epoch>> EpochSparseSet<K, V, S> {
    /// The push slot found from `i` on is `i` itself if it is vacant or the
    /// end, and lies at or after `i`, vacant or at the end.
    proof fn lemma_push_slot_from(&self, i: nat)
        requires
            i <= self.spec_sparse_len(),
        ensures
            i <= self.spec_push_slot_from(i) <= self.spec_sparse_len(),
            self.spec_push_slot_from(i) < self.spec_sparse_len() ==> set_item_index::<K, S>(
                self.sparse_view()[self.spec_push_slot_from(i) as int],
            ) is None,
            forall|t: int|
                i <= t < self.spec_sparse_len() && set_item_index::<K, S>(#[trigger] self.sparse_view()[t])
                    is None ==> self.spec_push_slot_from(i) <= t,
        decreases self.spec_sparse_len() - i,
    {
        if i < self.spec_sparse_len() && set_item_index::<K, S>(self.sparse_view()[i as int]) is Some {
            self.lemma_push_slot_from(i + 1);
        }
    }

    /// The lowest vacant slot and its epoch, or the end and the default epoch.
    fn push_slot(&self) -> (slot: (usize, K::Epoch))
        ensures
            slot.0 == self.spec_push_slot(),
            slot.1 == (if slot.0 < self.spec_sparse_len() {
                self.sparse_view()[slot.0 as int].spec_epoch()
            } else {
                K::spec_default_epoch()
            }),
    {
        let sparse_len = self.sparse.len();
        let mut i: usize = 0;
        while i < sparse_len
            invariant
                i <= sparse_len,
                sparse_len == self.spec_sparse_len(),
                self.spec_push_slot_from(i as nat) == self.spec_push_slot(),
            decreases sparse_len - i,
        {
            if self.sparse[i].is_vacant() {
                return (i, self.sparse[i].epoch());
            }
            i = i + 1;
        }
        (sparse_len, K::default_epoch())
    }

    /// What `try_push` does with `value`: it stores it under the key of the
    /// lowest vacant slot (or of the first slot past the end), as `try_insert`
    /// does, and hands back that key.
    pub open spec fn spec_try_push_outcome(
        &self,
        new: &Self,
        value: V,
        result: Result<K, TryModifyError<K, V>>,
    ) -> bool {
        let h = self.spec_push_slot();
        if !K::index_fits(h) {
            &&& result is Err
            &&& result->Err_0.kind == TryModifyErrorKind::<K>::TooSmallSparseIndex(
                TooSmallSparseIndexError { inner: h as usize },
            )
            &&& result->Err_0.value == value
            &&& new.spec_same(self)
        } else {
            &&& self.spec_try_insert_outcome(
                new,
                self.spec_push_key(),
                value,
                match result {
                    Ok(_) => Ok(None),
                    Err(error) => Err(error),
                },
            )
            &&& result is Ok ==> result->Ok_0 == self.spec_push_key()
        }
    }

    /// Stores `value` under the key of the lowest vacant slot (or of the
    /// first slot past the end, with the default epoch) and hands back that
    /// key.  On every error the entries stay as they are and the value is
    /// handed back.
    pub fn try_push(&mut self, value: V) -> (result: Result<K, TryModifyError<K, V>>)
        requires
            old(self).wf(),
        ensures
            final(self).wf(),
            old(self).spec_try_push_outcome(final(self), value, result),
            result is Ok ==> !old(self)@.contains_key(result->Ok_0) && final(self)@ == old(self)@.insert(
                result->Ok_0,
                value,
            ),
            result is Err ==> final(self)@ == old(self)@,
    {
        let ghost old_self = *self;
        let (sparse_index, epoch) = self.push_slot();
        proof {
            self.lemma_push_slot_from(0);
        }
        let index = match K::index_from_usize(sparse_index) {
            Some(index) => index,
            None => {
                let error = TooSmallSparseIndexError::new(sparse_index);
                return Err(TryModifyError::new(TryModifyErrorKind::TooSmallSparseIndex(error), value));
            },
        };
        let key = K::new(index, epoch);
        proof {
            K::lemma_index_of_nat(sparse_index as nat);
            K::lemma_new_parts(index, epoch);
        }
        match self.try_insert(key, value) {
            Ok(_) => Ok(key),
            Err(error) => Err(error),
        }
    }

    /// Whether `push` can store a value without failing.
    pub open spec fn spec_push_fits(&self) -> bool {
        &&& K::index_fits(self.spec_push_slot())
        &&& self.spec_push_slot() < usize::MAX
        &&& K::index_fits(self.spec_len())
    }

    /// Stores `value` as `try_push` does where it succeeds and hands back its
    /// key.
    pub fn push(&mut self, value: V) -> (key: K)
        requires
            old(self).wf(),
            old(self).spec_push_fits(),
        ensures
            final(self).wf(),
            key == old(self).spec_push_key(),
            old(self).spec_try_insert_outcome(
                final(self),
                key,
                value,
                Ok::<Option<V>, TryModifyError<K, V>>(None),
            ),
            !old(self)@.contains_key(key),
            final(self)@ == old(self)@.insert(key, value),
    {
        let (sparse_index, epoch) = self.push_slot();
        proof {
            self.lemma_push_slot_from(0);
        }
        let index = unwrap_into_index::<K>(sparse_index);
        let key = K::new(index, epoch);
        proof {
            K::lemma_new_parts(index, epoch);
        }
        let previous = self.insert(key, value);
        key
    }

    /// The sparse side of removing the entry of `key`, which lay at dense
    /// index `d`: its slot is vacant with the next epoch, and the slots of the
    /// entries after it hold their indices moved one place down.
    pub open spec fn spec_removed(&self, new: &Self, key: K, d: nat) -> bool {
        let j = key_index(key);
        &&& new.dense_keys_view() == self.dense_keys_view().remove(d as int)
        &&& new.dense_values_view() == self.dense_values_view().remove(d as int)
        &&& new.spec_sparse_len() == self.spec_sparse_len()
        &&& set_item_index::<K, S>(new.sparse_view()[j as int]) is None
        &&& new.sparse_view()[j as int].spec_epoch() == K::spec_next_epoch(key.spec_epoch())
        &&& forall|i: int|
            0 <= i < self.spec_sparse_len() && i != j ==> {
                let o = self.sparse_view()[i];
                let n = #[trigger] new.sparse_view()[i];
                &&& n.spec_epoch() == o.spec_epoch()
                &&& set_item_index::<K, S>(o) == match set_item_index::<K, S>(n) {
                    Some(e) => if e >= d { Some(e + 1) } else { Some(e) },
                    None => None::<nat>,
                }
            }
    }

    /// Removes the entry of `key`, keeping the order of the others.
    pub fn remove(&mut self, key: K) -> (removed: Option<V>)
        requires
            old(self).wf(),
        ensures
            final(self).wf(),
            match old(self).spec_lookup(key) {
                Some(d) => removed == Some(old(self).dense_values_view()[d as int]) && old(self).spec_removed(
                    final(self),
                    key,
                    d,
                ),
                None => removed is None && final(self).spec_same(old(self)),
            },
            final(self)@ == old(self)@.remove(key),
    {
        let ghost old_self = *self;
        let sparse_len = self.sparse.len();
        let dense_index = match self.find(key) {
            Some(dense_index) => dense_index,
            None => {
                proof {
                    old_self.lemma_view_domain();
                    old_self.lemma_lookup(key);
                    assert(self@ =~= old_self@.remove(key));
                }
                return None;
            },
        };
        let ghost j = key_index(key);
        proof {
            old_self.lemma_lookup(key);
            old_self.lemma_dense_keys_distinct();
            K::lemma_index_nat(key.spec_sparse_index());
        }
        let sparse_index = unwrap_into_usize::<K>(key.sparse_index());
        let dense_key = self.dense_keys.remove(dense_index);
        let value = self.dense_values.remove(dense_index);
        let n = self.dense_keys.len();
        let ghost keys1 = self.dense_keys@;
        let mut e = dense_index;
        while e < n
            invariant
                dense_index <= e <= n,
                n == keys1.len(),
                self.dense_keys@ == keys1,
                keys1 == old_self.dense_keys_view().remove(dense_index as int),
                self.dense_values@ == old_self.dense_values_view().remove(dense_index as int),
                old_self.wf(),
                old_self.spec_lookup(key) == Some(dense_index as nat),
                dense_index < old_self.spec_len(),
                j == key_index(key),
                forall|a: int, b: int|
                    0 <= a < b < old_self.spec_len() ==> key_index(#[trigger] old_self.dense_keys_view()[a])
                        != key_index(#[trigger] old_self.dense_keys_view()[b]),
                self.sparse@.len() == old_self.spec_sparse_len(),
                sparse_len == self.sparse@.len(),
                forall|i: int|
                    0 <= i < old_self.spec_sparse_len() ==> {
                        let o = old_self.sparse_view()[i];
                        let nw = #[trigger] self.sparse@[i];
                        &&& nw.spec_epoch() == o.spec_epoch()
                        &&& match set_item_index::<K, S>(o) {
                            Some(x) => if dense_index < x && x <= e {
                                set_item_index::<K, S>(nw) == Some((x - 1) as nat)
                            } else {
                                nw == o
                            },
                            None => nw == o,
                        }
                    },
            decreases n - e,
        {
            let moved = self.dense_keys[e];
            let ghost x = (e + 1) as int;
            proof {
                assert(moved == old_self.dense_keys_view()[x]);
                assert(set_dense_ok::<K, S>(old_self.dense_keys@, old_self.sparse@, x));
                K::lemma_index_nat(moved.spec_sparse_index());
            }
            let moved_slot = unwrap_into_usize::<K>(moved.sparse_index());
            let item = self.sparse[moved_slot];
            proof {
                assert(item == old_self.sparse_view()[moved_slot as int]);
                K::lemma_index_nat(old_self.sparse_view()[moved_slot as int].spec_dense_index()->0);
                K::lemma_index_fits_below(x as nat, e as nat);
                K::lemma_index_of_nat(e as nat);
            }
            let new_index = unwrap_into_index::<K>(e);
            self.sparse.set(moved_slot, S::occupied(item.epoch(), new_index));
            proof {
                assert forall|i: int| 0 <= i < old_self.spec_sparse_len() implies {
                    let o = old_self.sparse_view()[i];
                    let nw = #[trigger] self.sparse@[i];
                    &&& nw.spec_epoch() == o.spec_epoch()
                    &&& match set_item_index::<K, S>(o) {
                        Some(y) => if dense_index < y && y <= e + 1 {
                            set_item_index::<K, S>(nw) == Some((y - 1) as nat)
                        } else {
                            nw == o
                        },
                        None => nw == o,
                    }
                } by {
                    assert(set_sparse_ok::<K, S>(old_self.dense_keys@, old_self.sparse@, i));
                    if i != moved_slot {
                        if set_item_index::<K, S>(old_self.sparse_view()[i]) == Some(x as nat) {
                            assert(key_index(old_self.dense_keys_view()[x]) == i);
                        }
                    }
                }
            }
            e = e + 1;
        }
        proof {
            assert(set_dense_ok::<K, S>(old_self.dense_keys@, old_self.sparse@, dense_index as int));
        }
        self.sparse.set(sparse_index, S::vacant(K::next_epoch(key.epoch())));
        proof {
            let keys = self.dense_keys@;
            let sparse = self.sparse@;
            assert forall|e2: int| 0 <= e2 < keys.len() implies #[trigger] set_dense_ok::<K, S>(
                keys,
                sparse,
                e2,
            ) by {
                let x = if e2 < dense_index {
                    e2
                } else {
                    e2 + 1
                };
                assert(keys[e2] == old_self.dense_keys_view()[x]);
                assert(set_dense_ok::<K, S>(old_self.dense_keys@, old_self.sparse@, x));
                if x < dense_index {
                    assert(key_index(old_self.dense_keys_view()[x]) != j);
                } else {
                    assert(key_index(old_self.dense_keys_view()[dense_index as int]) != key_index(
                        old_self.dense_keys_view()[x],
                    ));
                }
            }
            assert forall|i: int| 0 <= i < sparse.len() implies #[trigger] set_sparse_ok::<K, S>(keys, sparse, i) by {
                assert(set_sparse_ok::<K, S>(old_self.dense_keys@, old_self.sparse@, i));
            }
            assert(self.wf());
            assert forall|i: int| 0 <= i < old_self.spec_sparse_len() && i != j implies {
                let o = old_self.sparse_view()[i];
                let nw = #[trigger] self.sparse_view()[i];
                &&& nw.spec_epoch() == o.spec_epoch()
                &&& set_item_index::<K, S>(o) == match set_item_index::<K, S>(nw) {
                    Some(e2) => if e2 >= dense_index { Some(e2 + 1) } else { Some(e2) },
                    None => None::<nat>,
                }
            } by {
                assert(set_sparse_ok::<K, S>(old_self.dense_keys@, old_self.sparse@, i));
                if set_item_index::<K, S>(old_self.sparse_view()[i]) == Some(dense_index as nat) {
                    assert(old_self.dense_keys_view()[dense_index as int] == key);
                }
            }
            old_self.dense_keys_view().remove_ensures(dense_index as int);
            old_self.dense_values_view().remove_ensures(dense_index as int);
            self.lemma_view_domain();
            old_self.lemma_view_domain();
            old_self.lemma_keys_unique();
            assert forall|k: K| #[trigger] self@.contains_key(k) == old_self@.remove(key).contains_key(k) && (
            self@.contains_key(k) ==> self@[k] == old_self@.remove(key)[k]) by {
                if self@.contains_key(k) {
                    let e2 = choose|e2: int| 0 <= e2 < keys.len() && keys[e2] == k;
                    let x = if e2 < dense_index {
                        e2
                    } else {
                        e2 + 1
                    };
                    assert(old_self.dense_keys_view()[x] == k);
                    assert(self@[keys[e2]] == self.dense_values_view()[e2]);
                    assert(old_self@[old_self.dense_keys_view()[x]] == old_self.dense_values_view()[x]);
                }
                if k != key && old_self@.contains_key(k) {
                    let x = choose|x: int| 0 <= x < old_self.spec_len() && old_self.dense_keys_view()[x] == k;
                    assert(x != dense_index);
                    let e2 = if x < dense_index {
                        x
                    } else {
                        x - 1
                    };
                    assert(keys[e2] == k);
                }
            }
            assert(self@ =~= old_self@.remove(key));
        }
        Some(value)
    }
}

impl<K: Key, V, S: SparseItem<Index = K::SparseIndex, Epoch = K::Epoch>> EpochSparseSet<K, V, S> {
    /// `new` is `self` without the entry of `key`, which lay at dense index
    /// `d`: the last entry moves into its place, the key's slot becomes vacant
    /// with the next epoch, and the moved entry's slot names `d`.
    pub open spec fn spec_swap_removed(&self, new: &Self, key: K, d: nat) -> bool {
        let n = self.spec_len();
        let j = key_index(key);
        &&& new.dense_keys_view() == self.dense_keys_view().update(d as int, self.dense_keys_view().last()).drop_last()
        &&& new.dense_values_view() == self.dense_values_view().update(
            d as int,
            self.dense_values_view().last(),
        ).drop_last()
        &&& new.spec_sparse_len() == self.spec_sparse_len()
        &&& set_item_index::<K, S>(new.sparse_view()[j as int]) is None
        &&& new.sparse_view()[j as int].spec_epoch() == K::spec_next_epoch(key.spec_epoch())
        &&& forall|i: int|
            0 <= i < self.spec_sparse_len() && i != j ==> {
                let o = self.sparse_view()[i];
                let nw = #[trigger] new.sparse_view()[i];
                &&& nw.spec_epoch() == o.spec_epoch()
                &&& set_item_index::<K, S>(o) == Some((n - 1) as nat) ==> set_item_index::<K, S>(nw) == Some(d)
                &&& set_item_index::<K, S>(o) != Some((n - 1) as nat) ==> nw == o
            }
    }

    /// Removes the entry of `key`; the last entry takes its place.
    pub fn swap_remove(&mut self, key: K) -> (removed: Option<V>)
        requires
            old(self).wf(),
        ensures
            final(self).wf(),
            match old(self).spec_lookup(key) {
                Some(d) => removed == Some(old(self).dense_values_view()[d as int])
                    && old(self).spec_swap_removed(final(self), key, d),
                None => removed is None && final(self).spec_same(old(self)),
            },
            final(self)@ == old(self)@.remove(key),
    {
        let ghost old_self = *self;
        let sparse_len = self.sparse.len();
        let dense_index = match self.find(key) {
            Some(dense_index) => dense_index,
            None => {
                proof {
                    old_self.lemma_view_domain();
                    old_self.lemma_lookup(key);
                    assert(self@ =~= old_self@.remove(key));
                }
                return None;
            },
        };
        let ghost j = key_index(key);
        let ghost n = old_self.spec_len();
        proof {
            old_self.lemma_lookup(key);
            old_self.lemma_dense_keys_distinct();
            K::lemma_index_nat(key.spec_sparse_index());
            assert(set_dense_ok::<K, S>(old_self.dense_keys@, old_self.sparse@, dense_index as int));
        }
        let sparse_index = unwrap_into_usize::<K>(key.sparse_index());
        let removed_key = self.dense_keys.swap_remove(dense_index);
        let value = self.dense_values.swap_remove(dense_index);
        let ghost moved_slot_ghost = key_index(old_self.dense_keys_view()[n - 1]) as int;
        if dense_index < self.dense_keys.len() {
            let moved = self.dense_keys[dense_index];
            proof {
                assert(moved == old_self.dense_keys_view()[n - 1]);
                assert(set_dense_ok::<K, S>(old_self.dense_keys@, old_self.sparse@, n - 1));
                K::lemma_index_nat(moved.spec_sparse_index());
            }
            let moved_slot = unwrap_into_usize::<K>(moved.sparse_index());
            let item = self.sparse[moved_slot];
            if item.is_occupied() {
                proof {
                    K::lemma_index_nat(item.spec_dense_index()->0);
                    K::lemma_index_fits_below((n - 1) as nat, dense_index as nat);
                    K::lemma_index_of_nat(dense_index as nat);
                }
                let new_index = unwrap_into_index::<K>(dense_index);
                self.sparse.set(moved_slot, S::occupied(item.epoch(), new_index));
            }
        }
        self.sparse.set(sparse_index, S::vacant(K::next_epoch(key.epoch())));
        proof {
            let keys = self.dense_keys@;
            let sparse = self.sparse@;
            let d = dense_index as int;
            assert forall|e: int| 0 <= e < keys.len() implies #[trigger] set_dense_ok::<K, S>(keys, sparse, e) by {
                let x = if e == d {
                    n - 1
                } else {
                    e
                };
                assert(keys[e] == old_self.dense_keys_view()[x]);
                assert(set_dense_ok::<K, S>(old_self.dense_keys@, old_self.sparse@, x));
                if x < d {
                    assert(key_index(old_self.dense_keys_view()[x]) != j);
                } else {
                    assert(key_index(old_self.dense_keys_view()[d]) != key_index(old_self.dense_keys_view()[x]));
                }
                if e != d && d < n - 1 {
                    assert(key_index(old_self.dense_keys_view()[e]) != key_index(old_self.dense_keys_view()[n - 1]));
                }
            }
            assert forall|i: int| 0 <= i < sparse.len() implies #[trigger] set_sparse_ok::<K, S>(keys, sparse, i) by {
                assert(set_sparse_ok::<K, S>(old_self.dense_keys@, old_self.sparse@, i));
            }
            assert(self.wf());
            assert forall|i: int| 0 <= i < old_self.spec_sparse_len() && i != j implies {
                let o = old_self.sparse_view()[i];
                let nw = #[trigger] self.sparse_view()[i];
                &&& nw.spec_epoch() == o.spec_epoch()
                &&& set_item_index::<K, S>(o) == Some((n - 1) as nat) ==> set_item_index::<K, S>(nw)
                    == Some(d as nat)
                &&& set_item_index::<K, S>(o) != Some((n - 1) as nat) ==> nw == o
            } by {
                assert(set_sparse_ok::<K, S>(old_self.dense_keys@, old_self.sparse@, i));
            }
            self.lemma_view_domain();
            old_self.lemma_view_domain();
            old_self.lemma_keys_unique();
            assert forall|k: K| #[trigger] self@.contains_key(k) == old_self@.remove(key).contains_key(k) && (
            self@.contains_key(k) ==> self@[k] == old_self@.remove(key)[k]) by {
                if self@.contains_key(k) {
                    let e = choose|e: int| 0 <= e < keys.len() && keys[e] == k;
                    let x = if e == d {
                        n - 1
                    } else {
                        e
                    };
                    assert(old_self.dense_keys_view()[x] == k);
                    assert(self@[keys[e]] == self.dense_values_view()[e]);
                    assert(old_self@[old_self.dense_keys_view()[x]] == old_self.dense_values_view()[x]);
                }
                if k != key && old_self@.contains_key(k) {
                    let x = choose|x: int| 0 <= x < n && old_self.dense_keys_view()[x] == k;
                    assert(x != d);
                    let e = if x == n - 1 {
                        d
                    } else {
                        x
                    };
                    assert(keys[e] == k);
                }
            }
            assert(self@ =~= old_self@.remove(key));
        }
        Some(value)
    }

    /// Removes the last entry of the dense array and hands back its key and
    /// value.
    pub fn pop(&mut self) -> (popped: Option<(K, V)>)
        requires
            old(self).wf(),
        ensures
            final(self).wf(),
            old(self).spec_len() == 0 ==> popped is None && final(self).spec_same(old(self)),
            old(self).spec_len() > 0 ==> {
                let key = old(self).dense_keys_view().last();
                let j = key_index(key);
                &&& popped == Some((key, old(self).dense_values_view().last()))
                &&& final(self).dense_keys_view() == old(self).dense_keys_view().drop_last()
                &&& final(self).dense_values_view() == old(self).dense_values_view().drop_last()
                &&& final(self).spec_sparse_len() == old(self).spec_sparse_len()
                &&& set_item_index::<K, S>(final(self).sparse_view()[j as int]) is None
                &&& final(self).sparse_view()[j as int].spec_epoch() == K::spec_next_epoch(key.spec_epoch())
                &&& forall|i: int|
                    0 <= i < old(self).spec_sparse_len() && i != j ==> #[trigger] final(self).sparse_view()[i]
                        == old(self).sparse_view()[i]
            },
            popped matches Some((k, v)) ==> old(self)@.contains_key(k) && old(self)@[k] == v
                && final(self)@ == old(self)@.remove(k),
    {
        let ghost old_self = *self;
        let sparse_len = self.sparse.len();
        let key = match self.dense_keys.pop() {
            Some(key) => key,
            None => return None,
        };
        let value = self.dense_values.pop().unwrap();
        let ghost n = old_self.spec_len();
        let ghost j = key_index(key);
        proof {
            assert(set_dense_ok::<K, S>(old_self.dense_keys@, old_self.sparse@, n - 1));
            K::lemma_index_nat(key.spec_sparse_index());
            old_self.lemma_dense_keys_distinct();
        }
        let sparse_index = unwrap_into_usize::<K>(key.sparse_index());
        self.sparse.set(sparse_index, S::vacant(K::next_epoch(key.epoch())));
        proof {
            let keys = self.dense_keys@;
            let sparse = self.sparse@;
            assert forall|e: int| 0 <= e < keys.len() implies #[trigger] set_dense_ok::<K, S>(keys, sparse, e) by {
                assert(set_dense_ok::<K, S>(old_self.dense_keys@, old_self.sparse@, e));
                assert(key_index(old_self.dense_keys_view()[e]) != key_index(old_self.dense_keys_view()[n - 1]));
            }
            assert forall|i: int| 0 <= i < sparse.len() implies #[trigger] set_sparse_ok::<K, S>(keys, sparse, i) by {
                assert(set_sparse_ok::<K, S>(old_self.dense_keys@, old_self.sparse@, i));
                if i != j && set_item_index::<K, S>(sparse[i]) == Some((n - 1) as nat) {
                    assert(set_sparse_ok::<K, S>(old_self.dense_keys@, old_self.sparse@, i));
                }
            }
            assert(self.wf());
            self.lemma_view_domain();
            old_self.lemma_view_domain();
            old_self.lemma_keys_unique();
            assert forall|k: K| #[trigger] self@.contains_key(k) == old_self@.remove(key).contains_key(k) && (
            self@.contains_key(k) ==> self@[k] == old_self@.remove(key)[k]) by {
                if self@.contains_key(k) {
                    let e = choose|e: int| 0 <= e < keys.len() && keys[e] == k;
                    assert(old_self.dense_keys_view()[e] == k);
                    assert(e != n - 1);
                    assert(self@[keys[e]] == self.dense_values_view()[e]);
                    assert(old_self@[old_self.dense_keys_view()[e]] == old_self.dense_values_view()[e]);
                }
                if k != key && old_self@.contains_key(k) {
                    let x = choose|x: int| 0 <= x < n && old_self.dense_keys_view()[x] == k;
                    assert(x != n - 1);
                    assert(keys[x] == k);
                }
            }
            assert(self@ =~= old_self@.remove(key));
            assert(old_self@[old_self.dense_keys_view()[n - 1]] == old_self.dense_values_view()[n - 1]);
        }
        Some((key, value))
    }

    /// Makes the slot of every entry vacant with the next epoch; the dense
    /// array is left as it is.
    fn vacate_all(&mut self)
        requires
            old(self).wf(),
        ensures
            final(self).dense_keys_view() == old(self).dense_keys_view(),
            final(self).dense_values_view() == old(self).dense_values_view(),
            final(self).spec_sparse_len() == old(self).spec_sparse_len(),
            forall|i: int|
                0 <= i < old(self).spec_sparse_len() ==> {
                    let o = old(self).sparse_view()[i];
                    let nw = #[trigger] final(self).sparse_view()[i];
                    &&& set_item_index::<K, S>(nw) is None
                    &&& set_item_index::<K, S>(o) is None ==> nw == o
                    &&& set_item_index::<K, S>(o) is Some ==> nw.spec_epoch() == K::spec_next_epoch(o.spec_epoch())
                },
    {
        let ghost old_self = *self;
        let ghost keys = self.dense_keys@;
        let sparse_len = self.sparse.len();
        let n = self.dense_keys.len();
        proof {
            old_self.lemma_dense_keys_distinct();
        }
        let mut d: usize = 0;
        while d < n
            invariant
                d <= n,
                n == keys.len(),
                self.dense_keys@ == keys,
                self.dense_values@ == old_self.dense_values_view(),
                keys == old_self.dense_keys_view(),
                old_self.wf(),
                sparse_len == self.sparse@.len(),
                self.sparse@.len() == old_self.spec_sparse_len(),
                forall|a: int, b: int|
                    0 <= a < b < n ==> key_index(#[trigger] keys[a]) != key_index(#[trigger] keys[b]),
                forall|i: int|
                    0 <= i < sparse_len ==> {
                        let o = old_self.sparse_view()[i];
                        let nw = #[trigger] self.sparse@[i];
                        match set_item_index::<K, S>(o) {
                            Some(x) => if x < d {
                                set_item_index::<K, S>(nw) is None && nw.spec_epoch() == K::spec_next_epoch(
                                    o.spec_epoch(),
                                )
                            } else {
                                nw == o
                            },
                            None => nw == o,
                        }
                    },
            decreases n - d,
        {
            let key = self.dense_keys[d];
            proof {
                assert(set_dense_ok::<K, S>(old_self.dense_keys@, old_self.sparse@, d as int));
                K::lemma_index_nat(key.spec_sparse_index());
            }
            let sparse_index = unwrap_into_usize::<K>(key.sparse_index());
            self.sparse.set(sparse_index, S::vacant(K::next_epoch(key.epoch())));
            proof {
                assert forall|i: int| 0 <= i < sparse_len implies {
                    let o = old_self.sparse_view()[i];
                    let nw = #[trigger] self.sparse@[i];
                    match set_item_index::<K, S>(o) {
                        Some(x) => if x < d + 1 {
                            set_item_index::<K, S>(nw) is None && nw.spec_epoch() == K::spec_next_epoch(
                                o.spec_epoch(),
                            )
                        } else {
                            nw == o
                        },
                        None => nw == o,
                    }
                } by {
                    assert(set_sparse_ok::<K, S>(old_self.dense_keys@, old_self.sparse@, i));
                }
            }
            d = d + 1;
        }
        proof {
            assert forall|i: int| 0 <= i < sparse_len implies {
                let o = old_self.sparse_view()[i];
                let nw = #[trigger] self.sparse_view()[i];
                &&& set_item_index::<K, S>(nw) is None
                &&& set_item_index::<K, S>(o) is None ==> nw == o
                &&& set_item_index::<K, S>(o) is Some ==> nw.spec_epoch() == K::spec_next_epoch(o.spec_epoch())
            } by {
                assert(set_sparse_ok::<K, S>(old_self.dense_keys@, old_self.sparse@, i));
            }
        }
    }

    /// Removes every entry; each slot of an entry becomes vacant with the
    /// next epoch.
    pub fn clear(&mut self)
        requires
            old(self).wf(),
        ensures
            final(self).wf(),
            final(self).spec_len() == 0,
            final(self).spec_sparse_len() == old(self).spec_sparse_len(),
            forall|i: int|
                0 <= i < old(self).spec_sparse_len() ==> {
                    let o = old(self).sparse_view()[i];
                    let nw = #[trigger] final(self).sparse_view()[i];
                    &&& set_item_index::<K, S>(nw) is None
                    &&& set_item_index::<K, S>(o) is None ==> nw == o
                    &&& set_item_index::<K, S>(o) is Some ==> nw.spec_epoch() == K::spec_next_epoch(o.spec_epoch())
                },
            final(self)@ == Map::<K, V>::empty(),
    {
        self.vacate_all();
        self.dense_keys.clear();
        self.dense_values.clear();
        proof {
            assert(self.wf());
            self.lemma_view_domain();
            assert(self@ =~= Map::<K, V>::empty());
        }
    }

    /// Removes every entry as `clear` does and hands back the keys and the
    /// values, in dense order.
    pub fn drain(&mut self) -> (drained: (Vec<K>, Vec<V>))
        requires
            old(self).wf(),
        ensures
            final(self).wf(),
            final(self).spec_len() == 0,
            final(self).spec_sparse_len() == old(self).spec_sparse_len(),
            forall|i: int|
                0 <= i < old(self).spec_sparse_len() ==> {
                    let o = old(self).sparse_view()[i];
                    let nw = #[trigger] final(self).sparse_view()[i];
                    &&& set_item_index::<K, S>(nw) is None
                    &&& set_item_index::<K, S>(o) is None ==> nw == o
                    &&& set_item_index::<K, S>(o) is Some ==> nw.spec_epoch() == K::spec_next_epoch(o.spec_epoch())
                },
            drained.0@ == old(self).dense_keys_view(),
            drained.1@ == old(self).dense_values_view(),
            final(self)@ == Map::<K, V>::empty(),
    {
        self.vacate_all();
        let mut keys = Vec::new();
        let mut values = Vec::new();
        core::mem::swap(&mut keys, &mut self.dense_keys);
        core::mem::swap(&mut values, &mut self.dense_values);
        proof {
            assert(self.wf());
            self.lemma_view_domain();
            assert(self@ =~= Map::<K, V>::empty());
        }
        (keys, values)
    }

    /// Removes every entry and every slot.
    pub fn clear_sparse(&mut self)
        ensures
            final(self).wf(),
            final(self).spec_len() == 0,
            final(self).spec_sparse_len() == 0,
            final(self)@ == Map::<K, V>::empty(),
    {
        self.sparse.clear();
        self.dense_keys.clear();
        self.dense_values.clear();
        proof {
            assert(self@ =~= Map::<K, V>::empty());
        }
    }
}

impl<K: Key, V, S: SparseItem<Index = K::SparseIndex, Epoch = K::Epoch>> EpochSparseSet<K, V, S> {
    /// A new entry (`spec_opened`) in a slot that held none adds exactly the
    /// pair `key`, `value`; the key did not resolve before.
    pub proof fn lemma_opened_view(&self, new: &Self, key: K, value: V)
        requires
            self.wf(),
            new.wf(),
            self.spec_slot_index(key_index(key)) is None,
            self.spec_opened(new, key, value),
        ensures
            !self@.contains_key(key),
            new@ == self@.insert(key, value),
    {
        let n = self.spec_len();
        let j = key_index(key);
        self.lemma_lookup(key);
        assert forall|k: K| #[trigger] new@.contains_key(k) == self@.insert(key, value).contains_key(k)
            && (new@.contains_key(k) ==> new@[k] == self@.insert(key, value)[k]) by {
            self.lemma_lookup(k);
            new.lemma_lookup(k);
            if k == key {
                assert(new.dense_keys_view()[n as int] == key);
                assert(new.spec_lookup(k) == Some(n));
            } else {
                if self.spec_lookup(k) is Some {
                    let d = self.spec_lookup(k)->0;
                    assert(key_index(k) != j);
                    assert(new.dense_keys_view()[d as int] == k);
                    assert(new.spec_lookup(k) == Some(d));
                }
                if new.spec_lookup(k) is Some {
                    let d = new.spec_lookup(k)->0;
                    assert(new.dense_keys_view()[d as int] == k);
                    if d == n {
                        assert(k == key);
                    }
                    assert(d < n);
                    assert(self.dense_keys_view()[d as int] == k);
                    assert(self.spec_lookup(k) == Some(d));
                }
            }
        }
        assert(new@ =~= self@.insert(key, value));
    }

    /// Removing a key that was just added undoes the addition: the same
    /// entries are left, and as many of them.
    pub proof fn lemma_remove_undoes_insert(&self, inserted: &Self, removed: &Self, key: K, value: V)
        requires
            self.wf(),
            inserted.wf(),
            removed.wf(),
            !self@.contains_key(key),
            inserted@ == self@.insert(key, value),
            removed@ == inserted@.remove(key),
        ensures
            removed@ == self@,
            removed.spec_len() == self.spec_len(),
    {
        assert(removed@ =~= self@);
        self.lemma_len_is_entry_count();
        removed.lemma_len_is_entry_count();
    }

    /// A removed key stays stale: after `remove`, the key that `push` hands
    /// out next is another key, unless the slot's epoch comes back to the
    /// removed key's epoch in one step (as for keys without epochs).
    pub proof fn lemma_push_after_remove(&self, new: &Self, key: K, d: nat)
        requires
            self.wf(),
            self.spec_lookup(key) == Some(d),
            self.spec_removed(new, key, d),
            K::spec_next_epoch(key.spec_epoch()) != key.spec_epoch(),
        ensures
            new.spec_push_key() != key,
    {
        let j = key_index(key);
        let h = new.spec_push_slot();
        new.lemma_push_slot_from(0);
        let epoch = if h < new.spec_sparse_len() {
            new.sparse_view()[h as int].spec_epoch()
        } else {
            K::spec_default_epoch()
        };
        K::lemma_new_parts(K::index_of_nat(h), epoch);
        self.lemma_lookup(key);
        assert(set_dense_ok::<K, S>(self.dense_keys@, self.sparse@, d as int));
        assert(set_item_index::<K, S>(new.sparse_view()[j as int]) is None);
        assert(h <= j);
        K::lemma_index_nat(key.spec_sparse_index());
        K::lemma_index_fits_below(j, h);
        K::lemma_index_of_nat(h);
    }
}

impl<K: Key, V, S: SparseItem<Index = K::SparseIndex, Epoch = K::Epoch>> EpochSparseSet<K, V, S> {
    /// The sparse side of `retain` with the answers `keep`: the slot of a
    /// kept entry holds its new dense index under the same epoch, the slot of
    /// a dropped one is vacant with the next epoch, and vacant slots stay.
    pub open spec fn spec_retained(&self, new: &Self, keep: Seq<bool>) -> bool {
        let keys = self.dense_keys_view();
        &&& new.spec_sparse_len() == self.spec_sparse_len()
        &&& forall|j: int|
            0 <= j < self.spec_sparse_len() ==> {
                let o = self.sparse_view()[j];
                let nw = #[trigger] new.sparse_view()[j];
                match set_item_index::<K, S>(o) {
                    Some(i) => if keep[i as int] {
                        nw.spec_epoch() == o.spec_epoch() && set_item_index::<K, S>(nw) == Some(
                            kept(keys, keep, i).len(),
                        )
                    } else {
                        nw.spec_epoch() == K::spec_next_epoch(o.spec_epoch()) && set_item_index::<K, S>(
                            nw,
                        ) is None
                    },
                    None => nw == o,
                }
            }
    }

    /// Keeps the entries for which `f` answers `true`, in their dense order,
    /// and removes the others (their slots move to the next epoch).  `f` sees
    /// every entry once, front to back.
    pub fn retain<F: Fn(K, &V) -> bool>(&mut self, f: F)
        requires
            old(self).wf(),
            forall|key: K, value: &V| call_requires(f, (key, value)),
        ensures
            final(self).wf(),
            exists|keep: Seq<bool>|
                #![trigger old(self).spec_retained(final(self), keep)]
                {
                    &&& keep.len() == old(self).spec_len()
                    &&& forall|d: int|
                        0 <= d < old(self).spec_len() ==> call_ensures(
                            f,
                            (old(self).dense_keys_view()[d], &old(self).dense_values_view()[d]),
                            #[trigger] keep[d],
                        )
                    &&& final(self).dense_keys_view() == kept(old(self).dense_keys_view(), keep, old(self).spec_len())
                    &&& final(self).dense_values_view() == kept(old(self).dense_values_view(), keep, old(self).spec_len())
                    &&& old(self).spec_retained(final(self), keep)
                    &&& forall|d: int|
                        0 <= d < old(self).spec_len() ==> (final(self)@.contains_key(
                            #[trigger] old(self).dense_keys_view()[d],
                        ) == keep[d]) && (keep[d] ==> final(self)@[old(self).dense_keys_view()[d]]
                            == old(self).dense_values_view()[d])
                    &&& final(self)@.dom().subset_of(old(self)@.dom())
                },
    {
        let ghost keys0 = self.dense_keys@;
        let ghost values0 = self.dense_values@;
        let ghost sparse0 = self.sparse@;
        let ghost old_self = *self;
        let n = self.dense_keys.len();
        let sparse_len = self.sparse.len();
        let mut keys: Vec<K> = Vec::new();
        let mut values: Vec<V> = Vec::new();
        core::mem::swap(&mut keys, &mut self.dense_keys);
        core::mem::swap(&mut values, &mut self.dense_values);
        let mut pending = reversed(values);
        let ghost mut keep: Seq<bool> = Seq::empty();
        proof {
            assert(values0.subrange(0, n as int) =~= values0);
        }
        let mut d: usize = 0;
        while d < n
            invariant
                d <= n,
                n == keys0.len(),
                keys@ == keys0,
                keys0 == old_self.dense_keys_view(),
                values0 == old_self.dense_values_view(),
                sparse0 == old_self.sparse_view(),
                old_self.wf(),
                forall|key: K, value: &V| call_requires(f, (key, value)),
                pending@ == values0.subrange(d as int, n as int).reverse(),
                keep.len() == d,
                forall|i: int| 0 <= i < d ==> call_ensures(f, (keys0[i], &values0[i]), #[trigger] keep[i]),
                self.dense_keys@ == kept(keys0, keep, d as nat),
                self.dense_values@ == kept(values0, keep, d as nat),
                self.sparse@.len() == sparse_len,
                sparse_len == sparse0.len(),
                forall|j: int|
                    0 <= j < sparse_len ==> {
                        let o = sparse0[j];
                        let nw = #[trigger] self.sparse@[j];
                        match set_item_index::<K, S>(o) {
                            Some(i) => if i < d {
                                if keep[i as int] {
                                    nw.spec_epoch() == o.spec_epoch() && set_item_index::<K, S>(nw) == Some(
                                        kept(keys0, keep, i).len(),
                                    )
                                } else {
                                    nw.spec_epoch() == K::spec_next_epoch(o.spec_epoch())
                                        && set_item_index::<K, S>(nw) is None
                                }
                            } else {
                                nw == o
                            },
                            None => nw == o,
                        }
                    },
            decreases n - d,
        {
            let key = keys[d];
            let ghost rest = pending@;
            let value = pending.pop().unwrap();
            let ghost e = d as int;
            let ghost j = key_index(key) as int;
            proof {
                assert(rest.last() == values0[e]);
                assert(pending@ =~= values0.subrange(e + 1, n as int).reverse());
                assert(set_dense_ok::<K, S>(keys0, sparse0, e));
                assert(self.sparse@[j] == sparse0[j]);
                K::lemma_index_nat(key.spec_sparse_index());
                K::lemma_index_nat(sparse0[j].spec_dense_index()->0);
                lemma_kept_len(keys0, values0, keep, d as nat);
            }
            let keep_it = f(key, &value);
            let sparse_index = unwrap_into_usize::<K>(key.sparse_index());
            let ghost before = self.sparse@;
            let ghost old_keep = keep;
            if keep_it {
                let count = self.dense_keys.len();
                proof {
                    K::lemma_index_fits_below(d as nat, count as nat);
                    K::lemma_index_of_nat(count as nat);
                }
                let dense_index = unwrap_into_index::<K>(count);
                self.sparse.set(sparse_index, S::occupied(key.epoch(), dense_index));
                self.dense_keys.push(key);
                self.dense_values.push(value);
            } else {
                self.sparse.set(sparse_index, S::vacant(K::next_epoch(key.epoch())));
            }
            proof {
                keep = old_keep.push(keep_it);
                assert(keys0[e] == key);
                assert(keep[e] == keep_it);
                lemma_kept_agree(keys0, keep, keys0, old_keep, d as nat);
                lemma_kept_agree(values0, keep, values0, old_keep, d as nat);
                assert forall|i: int| 0 <= i < d + 1 implies call_ensures(
                    f,
                    (keys0[i], &values0[i]),
                    #[trigger] keep[i],
                ) by {
                    if i < d {
                        assert(keep[i] == old_keep[i]);
                    }
                }
                assert forall|s: int| 0 <= s < sparse_len implies {
                    let o = sparse0[s];
                    let nw = #[trigger] self.sparse@[s];
                    match set_item_index::<K, S>(o) {
                        Some(i) => if i < d + 1 {
                            if keep[i as int] {
                                nw.spec_epoch() == o.spec_epoch() && set_item_index::<K, S>(nw) == Some(
                                    kept(keys0, keep, i).len(),
                                )
                            } else {
                                nw.spec_epoch() == K::spec_next_epoch(o.spec_epoch())
                                    && set_item_index::<K, S>(nw) is None
                            }
                        } else {
                            nw == o
                        },
                        None => nw == o,
                    }
                } by {
                    assert(set_sparse_ok::<K, S>(keys0, sparse0, s));
                    if s != j {
                        assert(self.sparse@[s] == before[s]);
                        if let Some(i) = set_item_index::<K, S>(sparse0[s]) {
                            if i == d {
                                assert(key_index(keys0[i as int]) == s);
                            }
                            if i < d {
                                assert(keep[i as int] == old_keep[i as int]);
                                lemma_kept_agree(keys0, keep, keys0, old_keep, i);
                            }
                        }
                    } else {
                        lemma_kept_agree(keys0, keep, keys0, old_keep, d as nat);
                    }
                }
            }
            d = d + 1;
        }
        proof {
            let keys1 = self.dense_keys@;
            let values1 = self.dense_values@;
            let sparse1 = self.sparse@;
            lemma_kept_len(keys0, values0, keep, n as nat);
            assert forall|e: int| 0 <= e < keys1.len() implies #[trigger] set_dense_ok::<K, S>(
                keys1,
                sparse1,
                e,
            ) by {
                lemma_kept_origin(keys0, keep, n as nat, e);
                let i = choose|i: int|
                    0 <= i < n && keep[i] && #[trigger] kept(keys0, keep, i as nat).len() == e;
                lemma_kept_index(keys0, keep, n as nat, i);
                assert(set_dense_ok::<K, S>(keys0, sparse0, i));
                let j = key_index(keys0[i]) as int;
                assert(set_item_index::<K, S>(sparse0[j]) == Some(i as nat));
            }
            assert forall|s: int| 0 <= s < sparse1.len() implies #[trigger] set_sparse_ok::<K, S>(
                keys1,
                sparse1,
                s,
            ) by {
                assert(set_sparse_ok::<K, S>(keys0, sparse0, s));
                if let Some(e) = set_item_index::<K, S>(sparse1[s]) {
                    let i = set_item_index::<K, S>(sparse0[s])->0 as int;
                    assert(keep[i]);
                    lemma_kept_index(keys0, keep, n as nat, i);
                }
            }
            assert(self.wf());
            old_self.lemma_keys_unique();
            self.lemma_view_domain();
            old_self.lemma_view_domain();
            assert forall|i: int| 0 <= i < n implies (self@.contains_key(#[trigger] keys0[i]) == keep[i]) && (
            keep[i] ==> self@[keys0[i]] == values0[i]) by {
                if keep[i] {
                    lemma_kept_index(keys0, keep, n as nat, i);
                    lemma_kept_index(values0, keep, n as nat, i);
                    let e = kept(keys0, keep, i as nat).len() as int;
                    lemma_kept_len(keys0, values0, keep, i as nat);
                    assert(keys1[e] == keys0[i]);
                    assert(values1[e] == values0[i]);
                    assert(self@[keys1[e]] == values1[e]);
                } else if self@.contains_key(keys0[i]) {
                    let e = choose|e: int| 0 <= e < keys1.len() && keys1[e] == keys0[i];
                    lemma_kept_origin(keys0, keep, n as nat, e);
                    let i2 = choose|i2: int|
                        0 <= i2 < n && keep[i2] && #[trigger] kept(keys0, keep, i2 as nat).len() == e;
                    lemma_kept_index(keys0, keep, n as nat, i2);
                    assert(keys0[i2] == keys0[i]);
                }
            }
            assert forall|k: K| self@.contains_key(k) implies old_self@.contains_key(k) by {
                let e = choose|e: int| 0 <= e < keys1.len() && keys1[e] == k;
                lemma_kept_origin(keys0, keep, n as nat, e);
                let i = choose|i: int| 0 <= i < n && keep[i] && #[trigger] kept(keys0, keep, i as nat).len() == e;
                lemma_kept_index(keys0, keep, n as nat, i);
                assert(keys0[i] == k);
            }
            assert forall|j: int| 0 <= j < sparse0.len() && set_item_index::<K, S>(sparse0[j]) is Some implies (
            set_item_index::<K, S>(#[trigger] sparse0[j])->0 < n) by {
                assert(set_sparse_ok::<K, S>(keys0, sparse0, j));
            }
            assert(old_self.spec_retained(self, keep));
        }
    }
}

impl<K: Key, V, S: SparseItem<Index = K::SparseIndex, Epoch = K::Epoch>> EpochSparseSet<K, V, S> {
    /// Pops entries until at most `dense_len` are left.
    fn pop_back_to(&mut self, dense_len: usize)
        requires
            old(self).wf(),
        ensures
            final(self).wf(),
            ({
                let m = if old(self).spec_len() < dense_len {
                    old(self).spec_len()
                } else {
                    dense_len as nat
                };
                &&& final(self).dense_keys_view() == old(self).dense_keys_view().subrange(0, m as int)
                &&& final(self).dense_values_view() == old(self).dense_values_view().subrange(0, m as int)
                &&& final(self).spec_sparse_len() == old(self).spec_sparse_len()
                &&& forall|j: int|
                    0 <= j < old(self).spec_sparse_len() ==> {
                        let o = old(self).sparse_view()[j];
                        let nw = #[trigger] final(self).sparse_view()[j];
                        match set_item_index::<K, S>(o) {
                            Some(i) => if i < m {
                                nw == o
                            } else {
                                set_item_index::<K, S>(nw) is None && nw.spec_epoch() == K::spec_next_epoch(
                                    o.spec_epoch(),
                                )
                            },
                            None => nw == o,
                        }
                    }
            }),
    {
        let ghost keys0 = self.dense_keys@;
        let ghost values0 = self.dense_values@;
        let ghost sparse0 = self.sparse@;
        let ghost old_self = *self;
        let ghost m = if keys0.len() < dense_len {
            keys0.len()
        } else {
            dense_len as nat
        };
        proof {
            assert(keys0.subrange(0, keys0.len() as int) =~= keys0);
            assert(values0.subrange(0, values0.len() as int) =~= values0);
            assert forall|j: int| 0 <= j < sparse0.len() && set_item_index::<K, S>(sparse0[j]) is Some implies (
            set_item_index::<K, S>(#[trigger] sparse0[j])->0 < keys0.len()) by {
                assert(set_sparse_ok::<K, S>(keys0, sparse0, j));
            }
        }
        while self.dense_keys.len() > dense_len
            invariant
                m <= self.spec_len(),
                m == (if keys0.len() < dense_len {
                    keys0.len()
                } else {
                    dense_len as nat
                }),
                self.wf(),
                old_self.wf(),
                keys0 == old_self.dense_keys_view(),
                sparse0 == old_self.sparse_view(),
                self.spec_len() <= keys0.len(),
                self.dense_keys_view() == keys0.subrange(0, self.spec_len() as int),
                self.dense_values_view() == values0.subrange(0, self.spec_len() as int),
                values0.len() == keys0.len(),
                self.spec_sparse_len() == sparse0.len(),
                forall|j: int|
                    0 <= j < sparse0.len() ==> {
                        let o = sparse0[j];
                        let nw = #[trigger] self.sparse_view()[j];
                        match set_item_index::<K, S>(o) {
                            Some(i) => if i < self.spec_len() {
                                nw == o
                            } else {
                                set_item_index::<K, S>(nw) is None && nw.spec_epoch() == K::spec_next_epoch(
                                    o.spec_epoch(),
                                )
                            },
                            None => nw == o,
                        }
                    },
            decreases self.spec_len(),
        {
            let ghost before = *self;
            let ghost len = self.spec_len();
            let ghost key = self.dense_keys_view().last();
            let ghost j = key_index(key) as int;
            proof {
                assert(set_dense_ok::<K, S>(self.dense_keys_view(), self.sparse_view(), len - 1));
                assert(set_dense_ok::<K, S>(keys0, sparse0, len - 1));
            }
            self.pop();
            proof {
                assert(self.dense_keys_view() =~= keys0.subrange(0, len - 1));
                assert(self.dense_values_view() =~= values0.subrange(0, len - 1));
                assert forall|i: int| 0 <= i < sparse0.len() implies {
                    let o = sparse0[i];
                    let nw = #[trigger] self.sparse_view()[i];
                    match set_item_index::<K, S>(o) {
                        Some(x) => if x < self.spec_len() {
                            nw == o
                        } else {
                            set_item_index::<K, S>(nw) is None && nw.spec_epoch() == K::spec_next_epoch(
                                o.spec_epoch(),
                            )
                        },
                        None => nw == o,
                    }
                } by {
                    assert(set_sparse_ok::<K, S>(keys0, sparse0, i));
                    if i != j {
                        assert(self.sparse_view()[i] == before.sparse_view()[i]);
                        if let Some(x) = set_item_index::<K, S>(sparse0[i]) {
                            if x == len - 1 {
                                assert(key_index(keys0[len - 1]) == i);
                            }
                        }
                    }
                }
            }
        }
    }

    /// The entries left by keeping, of the first `m` entries, those whose
    /// slots lie below `bound`.
    proof fn lemma_truncated_view(&self, new: &Self, m: nat, bound: nat)
        requires
            self.wf(),
            new.wf(),
            m <= self.spec_len(),
            new.dense_keys_view() == kept(
                self.dense_keys_view().subrange(0, m as int),
                slots_below(self.dense_keys_view().subrange(0, m as int), bound),
                m,
            ),
            new.dense_values_view() == kept(
                self.dense_values_view().subrange(0, m as int),
                slots_below(self.dense_keys_view().subrange(0, m as int), bound),
                m,
            ),
        ensures
            forall|k: K|
                #[trigger] new@.contains_key(k) == (self@.contains_key(k) && self.spec_lookup(k)->0 < m
                    && key_index(k) < bound),
            forall|k: K| #[trigger] new@.contains_key(k) ==> new@[k] == self@[k],
    {
        let keys = self.dense_keys_view().subrange(0, m as int);
        let values = self.dense_values_view().subrange(0, m as int);
        let flags = slots_below(keys, bound);
        self.lemma_view_domain();
        new.lemma_view_domain();
        self.lemma_keys_unique();
        assert forall|k: K|
            #[trigger] new@.contains_key(k) == (self@.contains_key(k) && self.spec_lookup(k)->0 < m
                && key_index(k) < bound) && (new@.contains_key(k) ==> new@[k] == self@[k]) by {
            self.lemma_lookup(k);
            if new@.contains_key(k) {
                let e = choose|e: int| 0 <= e < new.spec_len() && new.dense_keys_view()[e] == k;
                lemma_kept_origin(keys, flags, m, e);
                let i = choose|i: int| 0 <= i < m && flags[i] && #[trigger] kept(keys, flags, i as nat).len() == e;
                lemma_kept_index(keys, flags, m, i);
                lemma_kept_index(values, flags, m, i);
                lemma_kept_len(keys, values, flags, i as nat);
                assert(keys[i] == k);
                assert(self.dense_keys_view()[i] == k);
                assert(self.spec_lookup(k) == Some(i as nat));
                assert(new@[new.dense_keys_view()[e]] == new.dense_values_view()[e]);
                assert(self@[self.dense_keys_view()[i]] == self.dense_values_view()[i]);
            }
            if self@.contains_key(k) && self.spec_lookup(k)->0 < m && key_index(k) < bound {
                let i = self.spec_lookup(k)->0 as int;
                assert(keys[i] == k);
                assert(flags[i]);
                lemma_kept_index(keys, flags, m, i);
                let e = kept(keys, flags, i as nat).len() as int;
                assert(new.dense_keys_view()[e] == k);
            }
        }
    }

    /// `new` is `self` truncated to at most `dense_len` entries and
    /// `sparse_len` slots, as `truncate` does it.
    pub open spec fn spec_truncated(&self, new: &Self, dense_len: nat, sparse_len: nat) -> bool {
        let m = if self.spec_len() < dense_len {
            self.spec_len()
        } else {
            dense_len
        };
        let keys = self.dense_keys_view().subrange(0, m as int);
        let values = self.dense_values_view().subrange(0, m as int);
        let flags = slots_below(keys, sparse_len);
        &&& new.dense_keys_view() == kept(keys, flags, m)
        &&& new.dense_values_view() == kept(values, flags, m)
        &&& new.spec_sparse_len() == if self.spec_sparse_len() < sparse_len {
            self.spec_sparse_len()
        } else {
            sparse_len
        }
        &&& forall|j: int|
            0 <= j < new.spec_sparse_len() ==> {
                let o = self.sparse_view()[j];
                let nw = #[trigger] new.sparse_view()[j];
                let dropped = set_item_index::<K, S>(o) is Some && set_item_index::<K, S>(o)->0 >= m;
                &&& nw.spec_epoch() == (if dropped {
                    K::spec_next_epoch(o.spec_epoch())
                } else {
                    o.spec_epoch()
                })
                &&& (set_item_index::<K, S>(nw) is None) == (set_item_index::<K, S>(o) is None
                    || dropped)
            }
        &&& forall|k: K|
            #[trigger] new@.contains_key(k) == (self@.contains_key(k)
                && self.spec_lookup(k)->0 < m && key_index(k) < sparse_len)
        &&& forall|k: K| #[trigger] new@.contains_key(k) ==> new@[k] == self@[k]
    }

    /// Keeps at most `dense_len` entries and `sparse_len` slots.
    ///
    /// The entries from dense index `dense_len` on are removed, the last one
    /// first; their slots move to the next epoch.  If the sparse array has
    /// more than `sparse_len` slots, the entries whose slots lie at or past
    /// `sparse_len` are removed too (the others keep their order) and the
    /// sparse array is cut to `sparse_len` slots.
    pub fn truncate(&mut self, dense_len: usize, sparse_len: usize)
        requires
            old(self).wf(),
        ensures
            final(self).wf(),
            old(self).spec_truncated(final(self), dense_len as nat, sparse_len as nat),
    {
        let ghost old_self = *self;
        self.pop_back_to(dense_len);
        let ghost popped = *self;
        let ghost m = popped.spec_len();
        let ghost keys = old_self.dense_keys_view().subrange(0, m as int);
        let ghost values = old_self.dense_values_view().subrange(0, m as int);
        let ghost flags = slots_below(keys, sparse_len as nat);
        if sparse_len < self.sparse.len() {
            let below = |key: K, _value: &V| -> (below: bool)
                ensures
                    below == (key_index(key) < sparse_len),
                {
                    match K::index_into_usize(key.sparse_index()) {
                        Some(index) => index < sparse_len,
                        None => false,
                    }
                };
            self.retain(below);
            let ghost retained = *self;
            proof {
                let keep = choose|keep: Seq<bool>|
                    #![trigger popped.spec_retained(&retained, keep)]
                    {
                        &&& keep.len() == popped.spec_len()
                        &&& forall|d: int|
                            0 <= d < popped.spec_len() ==> call_ensures(
                                below,
                                (popped.dense_keys_view()[d], &popped.dense_values_view()[d]),
                                #[trigger] keep[d],
                            )
                        &&& retained.dense_keys_view() == kept(popped.dense_keys_view(), keep, popped.spec_len())
                        &&& retained.dense_values_view() == kept(
                            popped.dense_values_view(),
                            keep,
                            popped.spec_len(),
                        )
                        &&& popped.spec_retained(&retained, keep)
                        &&& forall|d: int|
                            0 <= d < popped.spec_len() ==> (retained@.contains_key(
                                #[trigger] popped.dense_keys_view()[d],
                            ) == keep[d]) && (keep[d] ==> retained@[popped.dense_keys_view()[d]]
                                == popped.dense_values_view()[d])
                        &&& retained@.dom().subset_of(popped@.dom())
                    };
                assert(keep =~= flags);
                assert(popped.dense_keys_view() == keys);
            }
            self.sparse.truncate(sparse_len);
            proof {
                let keys1 = self.dense_keys@;
                assert forall|e: int| 0 <= e < keys1.len() implies #[trigger] set_dense_ok::<K, S>(
                    keys1,
                    self.sparse@,
                    e,
                ) by {
                    assert(set_dense_ok::<K, S>(keys1, retained.sparse_view(), e));
                    lemma_kept_origin(keys, flags, m, e);
                    let i = choose|i: int| 0 <= i < m && flags[i] && #[trigger] kept(keys, flags, i as nat).len() == e;
                    lemma_kept_index(keys, flags, m, i);
                }
                assert forall|j: int| 0 <= j < self.sparse@.len() implies #[trigger] set_sparse_ok::<K, S>(
                    keys1,
                    self.sparse@,
                    j,
                ) by {
                    assert(set_sparse_ok::<K, S>(keys1, retained.sparse_view(), j));
                }
                assert(self.wf());
                assert forall|j: int| 0 <= j < sparse_len implies {
                    let o = old_self.sparse_view()[j];
                    let nw = #[trigger] self.sparse_view()[j];
                    let dropped = set_item_index::<K, S>(o) is Some && set_item_index::<K, S>(o)->0 >= m;
                    &&& nw.spec_epoch() == (if dropped {
                        K::spec_next_epoch(o.spec_epoch())
                    } else {
                        o.spec_epoch()
                    })
                    &&& (set_item_index::<K, S>(nw) is None) == (set_item_index::<K, S>(o) is None || dropped)
                } by {
                    let p = popped.sparse_view()[j];
                    assert(retained.sparse_view()[j] == self.sparse_view()[j]);
                    assert(set_sparse_ok::<K, S>(keys, popped.sparse_view(), j));
                    if let Some(i) = set_item_index::<K, S>(p) {
                        assert(flags[i as int]);
                    }
                }
            }
        } else {
            proof {
                assert forall|i: int| 0 <= i < m implies #[trigger] flags[i] by {
                    assert(set_dense_ok::<K, S>(popped.dense_keys_view(), popped.sparse_view(), i));
                }
                lemma_kept_all(keys, flags, m);
                lemma_kept_all(values, flags, m);
                assert(keys.subrange(0, m as int) =~= keys);
                assert(values.subrange(0, m as int) =~= values);
            }
        }
        proof {
            old_self.lemma_truncated_view(self, m, sparse_len as nat);
        }
    }
}

/// Distinct numbers in `[0, n)` that all differ from `d` number fewer than `n`.
proof fn lemma_distinct_below(s: Seq<int>, n: int, d: int)
    requires
        0 <= d < n,
        s.no_duplicates(),
        forall|i: int| 0 <= i < s.len() ==> 0 <= #[trigger] s[i] < n && s[i] != d,
    ensures
        s.len() < n,
{
    let range = set_int_range(0, n).remove(d);
    s.unique_seq_to_set();
    lemma_int_range(0, n);
    assert(s.to_set().subset_of(range));
    lemma_len_subset(s.to_set(), range);
}

impl<K: Key, V, S: SparseItem<Index = K::SparseIndex, Epoch = K::Epoch>> EpochSparseSet<K, V, S> {
    /// Truncating gives the same result whatever became of the room of the
    /// arrays afterwards.
    proof fn lemma_truncated_same(&self, truncated: &Self, new: &Self, dense_len: nat, sparse_len: nat)
        requires
            truncated.wf(),
            new.wf(),
            self.spec_truncated(truncated, dense_len, sparse_len),
            new.spec_same(truncated),
        ensures
            self.spec_truncated(new, dense_len, sparse_len),
    {
        new.lemma_view_determined_by_dense(truncated);
        assert(new.dense_keys_view() == truncated.dense_keys_view());
        assert(new.dense_values_view() == truncated.dense_values_view());
        assert(new.sparse_view() == truncated.sparse_view());
        assert(new.spec_sparse_len() == truncated.spec_sparse_len());
        assert(new@ == truncated@);
    }

    /// Truncates the set to at most `min_capacity` entries and slots, as
    /// `truncate` does, and gives back room beyond that.
    pub fn shrink_to(&mut self, min_capacity: usize)
        requires
            old(self).wf(),
        ensures
            final(self).wf(),
            old(self).spec_truncated(final(self), min_capacity as nat, min_capacity as nat),
    {
        let ghost old_self = *self;
        self.truncate(min_capacity, min_capacity);
        let ghost truncated = *self;
        vec_shrink_to(&mut self.dense_keys, min_capacity);
        vec_shrink_to(&mut self.dense_values, min_capacity);
        vec_shrink_to(&mut self.sparse, min_capacity);
        proof {
            old_self.lemma_truncated_same(&truncated, self, min_capacity as nat, min_capacity as nat);
        }
    }

    /// Truncates the dense array to at most `min_capacity` entries, as
    /// `truncate` does, and gives back its room beyond that.
    pub fn dense_shrink_to(&mut self, min_capacity: usize)
        requires
            old(self).wf(),
        ensures
            final(self).wf(),
            old(self).spec_truncated(final(self), min_capacity as nat, usize::MAX as nat),
    {
        let ghost old_self = *self;
        self.truncate(min_capacity, usize::MAX);
        let ghost truncated = *self;
        vec_shrink_to(&mut self.dense_keys, min_capacity);
        vec_shrink_to(&mut self.dense_values, min_capacity);
        proof {
            old_self.lemma_truncated_same(&truncated, self, min_capacity as nat, usize::MAX as nat);
        }
    }

    /// Truncates the sparse array to at most `min_capacity` slots, as
    /// `truncate` does, and gives back its room beyond that.
    pub fn sparse_shrink_to(&mut self, min_capacity: usize)
        requires
            old(self).wf(),
        ensures
            final(self).wf(),
            old(self).spec_truncated(final(self), usize::MAX as nat, min_capacity as nat),
    {
        let ghost old_self = *self;
        self.truncate(usize::MAX, min_capacity);
        let ghost truncated = *self;
        vec_shrink_to(&mut self.sparse, min_capacity);
        proof {
            old_self.lemma_truncated_same(&truncated, self, usize::MAX as nat, min_capacity as nat);
        }
    }

    /// Orders the entries by their keys as `sort_keys` does: the keys are
    /// distinct, so an unstable order is the same order.
    pub fn sort_keys_unstable(&mut self)
        requires
            old(self).wf(),
        ensures
            final(self).wf(),
            final(self)@ == old(self)@,
            final(self).spec_len() == old(self).spec_len(),
            forall|a: int, b: int|
                0 <= a < b < final(self).spec_len() ==> key_index(#[trigger] final(self).dense_keys_view()[a])
                    < key_index(#[trigger] final(self).dense_keys_view()[b]),
            final(self).spec_sparse_len() == old(self).spec_sparse_len(),
            forall|j: int|
                0 <= j < old(self).spec_sparse_len() ==> {
                    let o = old(self).sparse_view()[j];
                    let nw = #[trigger] final(self).sparse_view()[j];
                    &&& nw.spec_epoch() == o.spec_epoch()
                    &&& set_item_index::<K, S>(o) is None ==> nw == o
                    &&& set_item_index::<K, S>(o) is Some ==> set_item_index::<K, S>(nw) is Some
                },
    {
        self.sort_keys();
    }

    /// Orders the entries by their keys, which is the order of their sparse
    /// indices (the keys of a set have distinct sparse indices), and points
    /// every slot at its entry's new place.  The entries themselves and the
    /// epochs stay as they are.
    pub fn sort_keys(&mut self)
        requires
            old(self).wf(),
        ensures
            final(self).wf(),
            final(self)@ == old(self)@,
            final(self).spec_len() == old(self).spec_len(),
            forall|a: int, b: int|
                0 <= a < b < final(self).spec_len() ==> key_index(#[trigger] final(self).dense_keys_view()[a])
                    < key_index(#[trigger] final(self).dense_keys_view()[b]),
            final(self).spec_sparse_len() == old(self).spec_sparse_len(),
            forall|j: int|
                0 <= j < old(self).spec_sparse_len() ==> {
                    let o = old(self).sparse_view()[j];
                    let nw = #[trigger] final(self).sparse_view()[j];
                    &&& nw.spec_epoch() == o.spec_epoch()
                    &&& set_item_index::<K, S>(o) is None ==> nw == o
                    &&& set_item_index::<K, S>(o) is Some ==> set_item_index::<K, S>(nw) is Some
                },
    {
        let ghost keys0 = self.dense_keys@;
        let ghost values0 = self.dense_values@;
        let ghost sparse0 = self.sparse@;
        let ghost old_self = *self;
        let n = self.dense_keys.len();
        let sparse_len = self.sparse.len();
        let mut old_keys: Vec<K> = Vec::new();
        let mut old_values: Vec<V> = Vec::new();
        core::mem::swap(&mut old_keys, &mut self.dense_keys);
        core::mem::swap(&mut old_values, &mut self.dense_values);
        let mut pending = reversed(old_values);
        let mut slots: Vec<Option<V>> = Vec::new();
        proof {
            assert(values0.subrange(0, n as int) =~= values0);
        }
        while pending.len() > 0
            invariant
                slots@.len() + pending@.len() == n,
                n == values0.len(),
                pending@ == values0.subrange(slots@.len() as int, n as int).reverse(),
                forall|i: int| 0 <= i < slots@.len() ==> #[trigger] slots@[i] == Some(values0[i]),
            decreases pending@.len(),
        {
            let ghost rest = pending@;
            let value = pending.pop().unwrap();
            proof {
                assert(rest.last() == values0[slots@.len() as int]);
            }
            slots.push(Some(value));
            proof {
                assert(pending@ =~= values0.subrange(slots@.len() as int, n as int).reverse());
            }
        }
        proof {
            old_self.lemma_dense_keys_distinct();
            assert forall|a: int, b: int| 0 <= a < b < n implies key_index(#[trigger] keys0[a]) != key_index(
                #[trigger] keys0[b],
            ) by {
                assert(key_index(old_self.dense_keys_view()[a]) != key_index(old_self.dense_keys_view()[b]));
            }
            if n > 0 {
                assert(set_dense_ok::<K, S>(keys0, sparse0, n - 1));
                let j = key_index(keys0[n - 1]) as int;
                K::lemma_index_nat(sparse0[j].spec_dense_index()->0);
            }
        }
        let ghost mut order: Seq<int> = Seq::empty();
        let mut j: usize = 0;
        while j < sparse_len
            invariant
                j <= sparse_len,
                sparse_len == sparse0.len(),
                n == keys0.len(),
                values0.len() == n,
                old_keys@ == keys0,
                keys0 == old_self.dense_keys_view(),
                values0 == old_self.dense_values_view(),
                sparse0 == old_self.sparse_view(),
                old_self.wf(),
                n > 0 ==> K::index_fits((n - 1) as nat),
                order.len() <= j,
                forall|a: int, b: int|
                    0 <= a < b < n ==> key_index(#[trigger] keys0[a]) != key_index(#[trigger] keys0[b]),
                slots@.len() == n,
                forall|d: int|
                    0 <= d < n ==> #[trigger] slots@[d] == if key_index(keys0[d]) < j {
                        None
                    } else {
                        Some(values0[d])
                    },
                self.dense_keys@.len() == order.len(),
                self.dense_values@.len() == order.len(),
                forall|e: int|
                    0 <= e < order.len() ==> {
                        &&& 0 <= #[trigger] order[e] < n
                        &&& self.dense_keys@[e] == keys0[order[e] as int]
                        &&& self.dense_values@[e] == values0[order[e] as int]
                        &&& key_index(keys0[order[e] as int]) < j
                    },
                forall|a: int, b: int|
                    0 <= a < b < order.len() ==> key_index(#[trigger] self.dense_keys@[a]) < key_index(
                        #[trigger] self.dense_keys@[b],
                    ),
                forall|d: int|
                    0 <= d < n && key_index(#[trigger] keys0[d]) < j ==> exists|e: int|
                        0 <= e < order.len() && #[trigger] order[e] == d,
                self.sparse@.len() == sparse_len,
                forall|s: int|
                    0 <= s < sparse_len ==> {
                        let o = sparse0[s];
                        let nw = #[trigger] self.sparse@[s];
                        if s < j && set_item_index::<K, S>(o) is Some {
                            &&& set_item_index::<K, S>(nw) is Some
                            &&& nw.spec_epoch() == o.spec_epoch()
                            &&& set_item_index::<K, S>(nw)->0 < order.len()
                            &&& order[set_item_index::<K, S>(nw)->0 as int] == set_item_index::<K, S>(o)->0
                        } else {
                            nw == o
                        }
                    },
            decreases sparse_len - j,
        {
            let item = self.sparse[j];
            let ghost before = self.sparse@;
            let ghost before_keys = self.dense_keys@;
            if let Some(dense_index) = item.dense_index() {
                proof {
                    assert(set_sparse_ok::<K, S>(keys0, sparse0, j as int));
                    assert(before[j as int] == sparse0[j as int]);
                    K::lemma_index_nat(dense_index);
                }
                let d = unwrap_into_usize::<K>(dense_index);
                let e = self.dense_keys.len();
                proof {
                    assert forall|a: int, b: int| 0 <= a < order.len() && 0 <= b < order.len() && a != b implies order[a]
                        != order[b] by {
                        if a < b {
                            assert(key_index(before_keys[a]) < key_index(before_keys[b]));
                        } else {
                            assert(key_index(before_keys[b]) < key_index(before_keys[a]));
                        }
                    }
                    assert(key_index(keys0[d as int]) == j);
                    lemma_distinct_below(order, n as int, d as int);
                    K::lemma_index_fits_below((n - 1) as nat, e as nat);
                    assert(set_dense_ok::<K, S>(keys0, sparse0, d as int));
                    assert(slots@[d as int] == Some(values0[d as int]));
                }
                let value = slots[d].take().unwrap();
                self.dense_keys.push(old_keys[d]);
                self.dense_values.push(value);
                self.sparse.set(j, S::occupied(item.epoch(), unwrap_into_index::<K>(e)));
                proof {
                    K::lemma_index_of_nat(e as nat);
                    let old_order = order;
                    order = order.push(d as int);
                    assert(self.dense_keys@[e as int] == keys0[d as int]);
                    assert forall|a: int, b: int| 0 <= a < b < order.len() implies key_index(
                        #[trigger] self.dense_keys@[a],
                    ) < key_index(#[trigger] self.dense_keys@[b]) by {
                        if b == e {
                            assert(self.dense_keys@[a] == before_keys[a]);
                            assert(key_index(keys0[old_order[a] as int]) < j);
                        } else {
                            assert(self.dense_keys@[a] == before_keys[a]);
                            assert(self.dense_keys@[b] == before_keys[b]);
                        }
                    }
                    assert forall|e2: int| 0 <= e2 < order.len() implies {
                        &&& 0 <= #[trigger] order[e2] < n
                        &&& self.dense_keys@[e2] == keys0[order[e2] as int]
                        &&& self.dense_values@[e2] == values0[order[e2] as int]
                        &&& key_index(keys0[order[e2] as int]) < j + 1
                    } by {
                        if e2 < e {
                            assert(order[e2] == old_order[e2]);
                        }
                    }
                    assert forall|d2: int|
                        0 <= d2 < n && key_index(#[trigger] keys0[d2]) < j + 1 implies exists|e2: int|
                        0 <= e2 < order.len() && #[trigger] order[e2] == d2 by {
                        if key_index(keys0[d2]) < j {
                            let e2 = choose|e2: int| 0 <= e2 < old_order.len() && #[trigger] old_order[e2] == d2;
                            assert(order[e2] == d2);
                        } else {
                            if d2 != d {
                                if d2 < d {
                                    assert(key_index(keys0[d2]) != key_index(keys0[d as int]));
                                } else {
                                    assert(key_index(keys0[d as int]) != key_index(keys0[d2]));
                                }
                            }
                            assert(order[e as int] == d2);
                        }
                    }
                    assert forall|s2: int| 0 <= s2 < sparse_len implies {
                        let o = sparse0[s2];
                        let nw = #[trigger] self.sparse@[s2];
                        if s2 < j + 1 && set_item_index::<K, S>(o) is Some {
                            &&& set_item_index::<K, S>(nw) is Some
                            &&& nw.spec_epoch() == o.spec_epoch()
                            &&& set_item_index::<K, S>(nw)->0 < order.len()
                            &&& order[set_item_index::<K, S>(nw)->0 as int] == set_item_index::<K, S>(o)->0
                        } else {
                            nw == o
                        }
                    } by {
                        if s2 != j {
                            assert(self.sparse@[s2] == before[s2]);
                            if s2 < j && set_item_index::<K, S>(sparse0[s2]) is Some {
                                assert(order[set_item_index::<K, S>(before[s2])->0 as int]
                                    == old_order[set_item_index::<K, S>(before[s2])->0 as int]);
                            }
                        }
                    }
                }
            } else {
                proof {
                    assert forall|d2: int|
                        0 <= d2 < n && key_index(#[trigger] keys0[d2]) < j + 1 implies exists|e2: int|
                        0 <= e2 < order.len() && #[trigger] order[e2] == d2 by {
                        if key_index(keys0[d2]) == j {
                            assert(set_dense_ok::<K, S>(keys0, sparse0, d2));
                        }
                    }
                }
            }
            proof {
                assert forall|d2: int| 0 <= d2 < n implies #[trigger] slots@[d2] == if key_index(keys0[d2]) < j + 1 {
                    None
                } else {
                    Some(values0[d2])
                } by {
                    if key_index(keys0[d2]) == j {
                        assert(set_dense_ok::<K, S>(keys0, sparse0, d2));
                    }
                }
            }
            j = j + 1;
        }
        proof {
            let keys1 = self.dense_keys@;
            let values1 = self.dense_values@;
            let sparse1 = self.sparse@;
            assert forall|e: int| 0 <= e < keys1.len() implies #[trigger] set_dense_ok::<K, S>(
                keys1,
                sparse1,
                e,
            ) by {
                let d = order[e] as int;
                assert(set_dense_ok::<K, S>(keys0, sparse0, d));
                let s2 = key_index(keys0[d]) as int;
                let e2 = set_item_index::<K, S>(sparse1[s2])->0 as int;
                assert(order[e2] == d);
                if e2 != e {
                    if e2 < e {
                        assert(key_index(keys1[e2]) < key_index(keys1[e]));
                    } else {
                        assert(key_index(keys1[e]) < key_index(keys1[e2]));
                    }
                }
            }
            assert forall|s2: int| 0 <= s2 < sparse1.len() implies #[trigger] set_sparse_ok::<K, S>(
                keys1,
                sparse1,
                s2,
            ) by {
                assert(set_sparse_ok::<K, S>(keys0, sparse0, s2));
            }
            assert(self.wf());
            self.lemma_view_domain();
            old_self.lemma_view_domain();
            assert forall|k: K| #[trigger] self@.contains_key(k) == old_self@.contains_key(k) && (self@.contains_key(
                k,
            ) ==> self@[k] == old_self@[k]) by {
                if self@.contains_key(k) {
                    let e = choose|e: int| 0 <= e < keys1.len() && keys1[e] == k;
                    assert(self@[keys1[e]] == values1[e]);
                    assert(old_self@[keys0[order[e] as int]] == values0[order[e] as int]);
                }
                if old_self@.contains_key(k) {
                    let d = choose|d: int| 0 <= d < n && keys0[d] == k;
                    assert(set_dense_ok::<K, S>(keys0, sparse0, d));
                    let e = choose|e: int| 0 <= e < order.len() && #[trigger] order[e] == d;
                    assert(keys1[e] == k);
                }
            }
            assert(self@ =~= old_self@);
            self.lemma_len_is_entry_count();
            old_self.lemma_len_is_entry_count();
        }
    }
}

impl<K: Key, V, S: SparseItem<Index = K::SparseIndex, Epoch = K::Epoch>> EpochSparseSet<K, V, S> {
    /// Puts the entries in the order that `order` gives, a permutation of the
    /// dense indices: entry `e` afterwards is entry `order[e]` before.  Every
    /// slot points at its entry's new place; the epochs stay as they are.
    fn reorder(&mut self, order: Vec<usize>)
        requires
            old(self).wf(),
            is_permutation(order@, old(self).spec_len()),
        ensures
            final(self).wf(),
            final(self)@ == old(self)@,
            final(self).spec_len() == old(self).spec_len(),
            forall|e: int|
                0 <= e < old(self).spec_len() ==> {
                    &&& #[trigger] final(self).dense_keys_view()[e] == old(self).dense_keys_view()[order@[e] as int]
                    &&& final(self).dense_values_view()[e] == old(self).dense_values_view()[order@[e] as int]
                },
            final(self).spec_sparse_len() == old(self).spec_sparse_len(),
            forall|j: int|
                0 <= j < old(self).spec_sparse_len() ==> {
                    let o = old(self).sparse_view()[j];
                    let nw = #[trigger] final(self).sparse_view()[j];
                    &&& nw.spec_epoch() == o.spec_epoch()
                    &&& set_item_index::<K, S>(o) is None ==> nw == o
                    &&& set_item_index::<K, S>(o) is Some ==> set_item_index::<K, S>(nw) is Some
                },
    {
        let ghost keys0 = self.dense_keys@;
        let ghost values0 = self.dense_values@;
        let ghost sparse0 = self.sparse@;
        let ghost old_self = *self;
        let n = self.dense_keys.len();
        let mut old_keys: Vec<K> = Vec::new();
        let mut old_values: Vec<V> = Vec::new();
        core::mem::swap(&mut old_keys, &mut self.dense_keys);
        core::mem::swap(&mut old_values, &mut self.dense_values);
        let mut pending = reversed(old_values);
        let mut slots: Vec<Option<V>> = Vec::new();
        proof {
            assert(values0.subrange(0, n as int) =~= values0);
        }
        while pending.len() > 0
            invariant
                slots@.len() + pending@.len() == n,
                n == values0.len(),
                pending@ == values0.subrange(slots@.len() as int, n as int).reverse(),
                forall|i: int| 0 <= i < slots@.len() ==> #[trigger] slots@[i] == Some(values0[i]),
            decreases pending@.len(),
        {
            let ghost rest = pending@;
            let value = pending.pop().unwrap();
            proof {
                assert(rest.last() == values0[slots@.len() as int]);
            }
            slots.push(Some(value));
            proof {
                assert(pending@ =~= values0.subrange(slots@.len() as int, n as int).reverse());
            }
        }
        let ghost mut pos: Seq<int> = Seq::new(n as nat, |d: int| -1);
        proof {
            assert forall|s: int| 0 <= s < sparse0.len() && set_item_index::<K, S>(sparse0[s]) is Some implies pos[set_item_index::<K, S>(
                sparse0[s],
            )->0 as int] < 0 by {
                assert(set_sparse_ok::<K, S>(keys0, sparse0, s));
            }
        }
        let mut e: usize = 0;
        while e < n
            invariant
                e <= n,
                n == keys0.len(),
                values0.len() == n,
                old_keys@ == keys0,
                keys0 == old_self.dense_keys_view(),
                values0 == old_self.dense_values_view(),
                sparse0 == old_self.sparse_view(),
                old_self.wf(),
                is_permutation(order@, n as nat),
                slots@.len() == n,
                pos.len() == n,
                forall|d: int|
                    0 <= d < n ==> {
                        &&& #[trigger] pos[d] >= 0 ==> pos[d] < e && order@[pos[d]] == d
                        &&& pos[d] < 0 ==> slots@[d] == Some(values0[d])
                    },
                forall|f: int| 0 <= f < e ==> #[trigger] pos[order@[f] as int] == f,
                self.dense_keys@.len() == e,
                self.dense_values@.len() == e,
                forall|f: int|
                    0 <= f < e ==> {
                        &&& #[trigger] self.dense_keys@[f] == keys0[order@[f] as int]
                        &&& self.dense_values@[f] == values0[order@[f] as int]
                    },
                self.sparse@.len() == sparse0.len(),
                forall|s: int|
                    0 <= s < sparse0.len() ==> {
                        let o = sparse0[s];
                        let nw = #[trigger] self.sparse@[s];
                        if set_item_index::<K, S>(o) is Some && pos[set_item_index::<K, S>(o)->0 as int] >= 0 {
                            &&& nw.spec_epoch() == o.spec_epoch()
                            &&& set_item_index::<K, S>(nw) == Some(pos[set_item_index::<K, S>(o)->0 as int] as nat)
                        } else {
                            nw == o
                        }
                    },
            decreases n - e,
        {
            let d = order[e];
            let key = old_keys[d];
            let sparse_len = self.sparse.len();
            let ghost slot = key_index(keys0[d as int]) as int;
            proof {
                assert(set_dense_ok::<K, S>(keys0, sparse0, d as int));
                assert(set_dense_ok::<K, S>(keys0, sparse0, e as int));
                K::lemma_index_nat(sparse0[key_index(keys0[e as int]) as int].spec_dense_index()->0);
                K::lemma_index_nat(key.spec_sparse_index());
                if pos[d as int] >= 0 {
                    let f = pos[d as int];
                    assert(order@[f] == d);
                    assert(order@[e as int] == d);
                }
                assert(set_sparse_ok::<K, S>(keys0, sparse0, slot));
                assert(d < n);
                assert(pos[d as int] < 0);
                assert(slots@[d as int] == Some(values0[d as int]));
                assert(key == keys0[d as int]);
                assert(key_index(key) < sparse_len);
            }
            let j = unwrap_into_usize::<K>(key.sparse_index());
            let value = slots[d].take().unwrap();
            let item = self.sparse[j];
            self.dense_keys.push(key);
            self.dense_values.push(value);
            self.sparse.set(j, S::occupied(item.epoch(), unwrap_into_index::<K>(e)));
            proof {
                K::lemma_index_of_nat(e as nat);
                pos = pos.update(d as int, e as int);
                assert forall|s: int| 0 <= s < sparse0.len() implies {
                    let o = sparse0[s];
                    let nw = #[trigger] self.sparse@[s];
                    if set_item_index::<K, S>(o) is Some && pos[set_item_index::<K, S>(o)->0 as int] >= 0 {
                        &&& nw.spec_epoch() == o.spec_epoch()
                        &&& set_item_index::<K, S>(nw) == Some(pos[set_item_index::<K, S>(o)->0 as int] as nat)
                    } else {
                        nw == o
                    }
                } by {
                    assert(set_sparse_ok::<K, S>(keys0, sparse0, s));
                    if s != slot && set_item_index::<K, S>(sparse0[s]) is Some {
                        let d2 = set_item_index::<K, S>(sparse0[s])->0 as int;
                        assert(set_dense_ok::<K, S>(keys0, sparse0, d2));
                        assert(d2 != d);
                    }
                }
                assert forall|f: int| 0 <= f < e + 1 implies #[trigger] pos[order@[f] as int] == f by {
                    if f < e {
                        assert(order@[f] != order@[e as int]);
                    }
                }
            }
            e = e + 1;
        }
        proof {
            let keys1 = self.dense_keys@;
            let values1 = self.dense_values@;
            let sparse1 = self.sparse@;
            assert forall|d: int| 0 <= d < n implies #[trigger] pos[d] >= 0 by {
                assert(order@.contains(d as usize));
                let f = choose|f: int| 0 <= f < n && #[trigger] order@[f] == d as usize;
                assert(pos[order@[f] as int] == f);
            }
            assert forall|f: int| 0 <= f < keys1.len() implies #[trigger] set_dense_ok::<K, S>(keys1, sparse1, f) by {
                let d = order@[f] as int;
                assert(set_dense_ok::<K, S>(keys0, sparse0, d));
                assert(pos[order@[f] as int] == f);
            }
            assert forall|s: int| 0 <= s < sparse1.len() implies #[trigger] set_sparse_ok::<K, S>(keys1, sparse1, s) by {
                assert(set_sparse_ok::<K, S>(keys0, sparse0, s));
                if set_item_index::<K, S>(sparse0[s]) is Some {
                    let d = set_item_index::<K, S>(sparse0[s])->0 as int;
                    let p = pos[d];
                    assert(pos[d] >= 0);
                    assert(keys1[p] == keys0[order@[p] as int]);
                }
            }
            assert(self.wf());
            self.lemma_view_domain();
            old_self.lemma_view_domain();
            assert forall|k: K| #[trigger] self@.contains_key(k) == old_self@.contains_key(k) && (self@.contains_key(
                k,
            ) ==> self@[k] == old_self@[k]) by {
                if self@.contains_key(k) {
                    let f = choose|f: int| 0 <= f < keys1.len() && keys1[f] == k;
                    assert(self@[keys1[f]] == values1[f]);
                    assert(old_self@[keys0[order@[f] as int]] == values0[order@[f] as int]);
                }
                if old_self@.contains_key(k) {
                    let d = choose|d: int| 0 <= d < n && keys0[d] == k;
                    assert(order@.contains(d as usize));
                    let f = choose|f: int| 0 <= f < n && #[trigger] order@[f] == d as usize;
                    assert(keys1[f] == k);
                }
            }
            assert(self@ =~= old_self@);
        }
    }
}

impl<K: Key, V, S: SparseItem<Index = K::SparseIndex, Epoch = K::Epoch>> EpochSparseSet<K, V, S> {
    /// The value of `key`, which must resolve.
    pub fn index(&self, key: K) -> (value: &V)
        requires
            self.wf(),
            self@.contains_key(key),
        ensures
            *value == self@[key],
    {
        self.get(key).unwrap()
    }

    /// The value of `key` for change; the key must resolve.
    pub fn index_mut(&mut self, key: K) -> (value: &mut V)
        requires
            old(self).wf(),
            old(self)@.contains_key(key),
        ensures
            final(self).wf(),
            *value == old(self)@[key],
            final(self).dense_values_view() == old(self).dense_values_view().update(
                old(self).spec_lookup(key)->0 as int,
                *final(value),
            ),
            final(self).dense_keys_view() == old(self).dense_keys_view(),
            final(self).sparse_view() == old(self).sparse_view(),
    {
        self.get_mut(key).unwrap()
    }

    /// The dense index that slot `sparse_index` names, with the key there.
    fn find_slot(&self, sparse_index: K::SparseIndex) -> (found: Option<(usize, K)>)
        requires
            self.wf(),
        ensures
            found is Some <==> self.spec_slot_index(K::index_nat(sparse_index)) is Some,
            found is Some ==> {
                let j = K::index_nat(sparse_index);
                let d = self.spec_slot_index(j)->0;
                let key = (found->0).1;
                &&& (found->0).0 == d
                &&& d < self.spec_len()
                &&& key == self.dense_keys_view()[d as int]
                &&& key == K::spec_new(sparse_index, self.sparse_view()[j as int].spec_epoch())
                &&& self.spec_lookup(key) == Some(d)
            },
    {
        let sparse_len = self.sparse.len();
        let dense_len = self.dense_keys.len();
        let j = match K::index_into_usize(sparse_index) {
            Some(j) => j,
            None => return None,
        };
        if j >= sparse_len {
            return None;
        }
        let item = self.sparse[j];
        match item.dense_index() {
            Some(dense_index) => {
                proof {
                    assert(set_item_index::<K, S>(self.sparse@[j as int]) == Some(K::index_nat(dense_index)));
                    assert(set_sparse_ok::<K, S>(self.dense_keys@, self.sparse@, j as int));
                }
                let d = unwrap_into_usize::<K>(dense_index);
                let key = self.dense_keys[d];
                proof {
                    assert(set_dense_ok::<K, S>(self.dense_keys@, self.sparse@, d as int));
                    lemma_index_injective::<K>(key.spec_sparse_index(), sparse_index);
                    K::lemma_key_parts(key);
                }
                Some((d, key))
            },
            None => None,
        }
    }

    /// The key and the value of the entry that slot `sparse_index` names, if
    /// the slot exists and is occupied.
    pub fn get_with_key(&self, sparse_index: K::SparseIndex) -> (entry: Option<(K, &V)>)
        requires
            self.wf(),
        ensures
            entry is Some <==> self.spec_slot_index(K::index_nat(sparse_index)) is Some,
            entry is Some ==> {
                let j = K::index_nat(sparse_index);
                let d = self.spec_slot_index(j)->0 as int;
                let key = (entry->0).0;
                &&& key == self.dense_keys_view()[d]
                &&& key == K::spec_new(sparse_index, self.sparse_view()[j as int].spec_epoch())
                &&& self@.contains_key(key)
                &&& *(entry->0).1 == self@[key]
            },
    {
        match self.find_slot(sparse_index) {
            Some((d, key)) => Some((key, &self.dense_values[d])),
            None => None,
        }
    }

    /// The key and the value, for change, of the entry that slot
    /// `sparse_index` names, if the slot exists and is occupied.
    pub fn get_mut_with_key(&mut self, sparse_index: K::SparseIndex) -> (entry: Option<(K, &mut V)>)
        requires
            old(self).wf(),
        ensures
            final(self).wf(),
            entry is Some <==> old(self).spec_slot_index(K::index_nat(sparse_index)) is Some,
            entry is Some ==> {
                let j = K::index_nat(sparse_index);
                let d = old(self).spec_slot_index(j)->0 as int;
                let key = (entry->0).0;
                &&& key == old(self).dense_keys_view()[d]
                &&& key == K::spec_new(sparse_index, old(self).sparse_view()[j as int].spec_epoch())
                &&& old(self)@.contains_key(key)
                &&& *(entry->0).1 == old(self)@[key]
                &&& final(self).dense_values_view() == old(self).dense_values_view().update(
                    d,
                    *final((entry->0).1),
                )
                &&& final(self).dense_keys_view() == old(self).dense_keys_view()
                &&& final(self).sparse_view() == old(self).sparse_view()
            },
            entry is None ==> final(self).spec_same(old(self)),
    {
        match self.find_slot(sparse_index) {
            Some((d, key)) => Some((key, &mut self.dense_values[d])),
            None => None,
        }
    }

    /// The values of the entries, in dense order.
    pub fn as_value_slices(&self) -> (values: &[V])
        ensures
            values@ == self.dense_values_view(),
    {
        self.dense_values.as_slice()
    }

    /// The entries, borrowed, in dense order.
    pub fn iter(&self) -> (entries: Vec<DenseRefs<'_, K, V>>)
        requires
            self.wf(),
        ensures
            entries@.len() == self.spec_len(),
            forall|d: int|
                0 <= d < self.spec_len() ==> *(#[trigger] entries@[d]).key == self.dense_keys_view()[d]
                    && *entries@[d].value == self.dense_values_view()[d],
    {
        let n = self.dense_keys.len();
        let values_len = self.dense_values.len();
        let mut entries: Vec<DenseRefs<'_, K, V>> = Vec::new();
        let mut d: usize = 0;
        while d < n
            invariant
                d <= n,
                n == self.dense_keys@.len(),
                values_len == self.dense_values@.len(),
                values_len == n,
                entries@.len() == d,
                forall|e: int|
                    0 <= e < d ==> *(#[trigger] entries@[e]).key == self.dense_keys@[e]
                        && *entries@[e].value == self.dense_values@[e],
            decreases n - d,
        {
            entries.push(DenseRefs::new(&self.dense_keys[d], &self.dense_values[d]));
            d = d + 1;
        }
        entries
    }

    /// The keys, in dense order, taken out of the set.
    pub fn into_keys(self) -> (keys: Vec<K>)
        ensures
            keys@ == self.dense_keys_view(),
    {
        self.dense_keys
    }

    /// The values, in dense order, taken out of the set.
    pub fn into_values(self) -> (values: Vec<V>)
        ensures
            values@ == self.dense_values_view(),
    {
        self.dense_values
    }
}

/// The item of an arena's sparse array with the kind and the epoch of `item`.
pub open spec fn as_arena_item<K: Key>(item: DefaultSparseItem<K>) -> ArenaItem<K> {
    ArenaItem::<K> {
        kind: match item.kind {
            DefaultSparseItemKind::Occupied { dense_index } => SparseItemKind::Occupied { dense_index },
            DefaultSparseItemKind::Vacant { next_vacant } => SparseItemKind::Vacant { next_vacant },
        },
        epoch: item.epoch,
    }
}

/// The items of `sparse` as items of an arena's sparse array, one for one.
pub open spec fn as_arena_items<K: Key>(sparse: Seq<DefaultSparseItem<K>>) -> Seq<ArenaItem<K>> {
    Seq::new(sparse.len(), |j: int| as_arena_item(sparse[j]))
}

/// Each item of `sparse` as an item of an arena's sparse array.
fn to_arena_items<K: Key>(sparse: &Vec<DefaultSparseItem<K>>) -> (items: Vec<ArenaItem<K>>)
    ensures
        items@ == as_arena_items(sparse@),
{
    let n = sparse.len();
    let mut items: Vec<ArenaItem<K>> = Vec::new();
    let mut j: usize = 0;
    while j < n
        invariant
            j <= n,
            n == sparse@.len(),
            items@.len() == j,
            forall|i: int| 0 <= i < j ==> #[trigger] items@[i] == as_arena_item(sparse@[i]),
        decreases n - j,
    {
        let item = sparse[j];
        let converted = match item.kind {
            DefaultSparseItemKind::Occupied { dense_index } => ArenaItem::occupied(dense_index, item.epoch),
            DefaultSparseItemKind::Vacant { next_vacant } => ArenaItem::vacant(next_vacant, item.epoch),
        };
        items.push(converted);
        j = j + 1;
    }
    proof {
        assert(items@ =~= as_arena_items(sparse@));
    }
    items
}

impl<K: Key, V> EpochSparseSet<K, V, DefaultSparseItem<K>> {
    /// The parts of a set pass `check_parts`, so that a set taken apart can be
    /// put together again, unless its sparse array reaches past the largest
    /// representable sparse index.
    pub proof fn lemma_parts_check(&self)
        requires
            self.wf(),
            self.spec_sparse_len() > 0 ==> K::index_fits((self.spec_sparse_len() - 1) as nat),
        ensures
            parts_error(self.dense_keys_view(), as_arena_items(self.sparse_view())) is None,
    {
        let keys = self.dense_keys_view();
        let converted = as_arena_items(self.sparse_view());
        assert(self.dense_keys.len() == keys.len());
        assert(self.sparse.len() == converted.len());
        lemma_parts_error(keys, converted);
        assert forall|d: int| 0 <= d < keys.len() implies #[trigger] dense_ok(keys, converted, d) by {
            assert(set_dense_ok::<K, DefaultSparseItem<K>>(self.dense_keys@, self.sparse@, d));
        }
        assert forall|j: int| 0 <= j < converted.len() implies #[trigger] sparse_ok(keys, converted, j) by {
            assert(set_sparse_ok::<K, DefaultSparseItem<K>>(self.dense_keys@, self.sparse@, j));
        }
    }

    /// A set made of a dense part (keys and values, in dense order) and a
    /// sparse part, kept as they are; they must agree as `check_parts` checks,
    /// and the first disagreement it finds is the error.
    pub fn from_parts(dense: (Vec<K>, Vec<V>), sparse: Vec<DefaultSparseItem<K>>) -> (result: Result<
        Self,
        FromPartsError<K>,
    >)
        requires
            dense.0@.len() == dense.1@.len(),
        ensures
            (result is Err) == (parts_error(dense.0@, as_arena_items(sparse@)) is Some),
            result is Err ==> result->Err_0 == parts_error(dense.0@, as_arena_items(sparse@))->0,
            result is Ok ==> {
                let set = result->Ok_0;
                &&& set.wf()
                &&& set.dense_keys_view() == dense.0@
                &&& set.dense_values_view() == dense.1@
                &&& set.sparse_view() == sparse@
            },
    {
        let (dense_keys, dense_values) = dense;
        let items = to_arena_items(&sparse);
        match check_parts(dense_keys.as_slice(), items.as_slice()) {
            Err(error) => Err(error),
            Ok(()) => {
                let set = Self { dense_keys, dense_values, sparse };
                proof {
                    let keys = set.dense_keys@;
                    let converted = as_arena_items(sparse@);
                    assert forall|d: int| 0 <= d < keys.len() implies #[trigger] set_dense_ok::<
                        K,
                        DefaultSparseItem<K>,
                    >(keys, set.sparse@, d) by {
                        assert(dense_ok(keys, converted, d));
                    }
                    assert forall|j: int| 0 <= j < set.sparse@.len() implies #[trigger] set_sparse_ok::<
                        K,
                        DefaultSparseItem<K>,
                    >(keys, set.sparse@, j) by {
                        assert(sparse_ok(keys, converted, j));
                    }
                }
                Ok(set)
            },
        }
    }
}

/// The item of a set's sparse array with the kind and the epoch of `item`.
pub open spec fn as_default_item<K: Key>(item: ArenaItem<K>) -> DefaultSparseItem<K> {
    DefaultSparseItem::<K> {
        kind: match item.kind {
            SparseItemKind::Occupied { dense_index } => DefaultSparseItemKind::Occupied { dense_index },
            SparseItemKind::Vacant { next_vacant } => DefaultSparseItemKind::Vacant { next_vacant },
        },
        epoch: item.epoch,
    }
}

/// The items of an arena's sparse array as items of a set's, one for one.
pub open spec fn as_default_items<K: Key>(sparse: Seq<ArenaItem<K>>) -> Seq<DefaultSparseItem<K>> {
    Seq::new(sparse.len(), |j: int| as_default_item(sparse[j]))
}

/// Each item of an arena's sparse array as an item of a set's.
fn to_default_items<K: Key>(sparse: &Vec<ArenaItem<K>>) -> (items: Vec<DefaultSparseItem<K>>)
    ensures
        items@ == as_default_items(sparse@),
{
    let n = sparse.len();
    let mut items: Vec<DefaultSparseItem<K>> = Vec::new();
    let mut j: usize = 0;
    while j < n
        invariant
            j <= n,
            n == sparse@.len(),
            items@.len() == j,
            forall|i: int| 0 <= i < j ==> #[trigger] items@[i] == as_default_item(sparse@[i]),
        decreases n - j,
    {
        let item = sparse[j];
        let converted = match item.kind {
            SparseItemKind::Occupied { dense_index } => DefaultSparseItem::occupied(dense_index, item.epoch),
            SparseItemKind::Vacant { next_vacant } => DefaultSparseItem::vacant(next_vacant, item.epoch),
        };
        items.push(converted);
        j = j + 1;
    }
    proof {
        assert(items@ =~= as_default_items(sparse@));
    }
    items
}

impl<K: Key, V> EpochSparseSet<K, V, DefaultSparseItem<K>> {
    /// A set with the entries of `arena`, in the same dense order, and the
    /// same slots: each keeps its epoch, an occupied one its dense index and a
    /// vacant one its link.
    pub fn from_arena(arena: EpochSparseArena<K, V>) -> (set: Self)
        requires
            arena.wf(),
        ensures
            set.wf(),
            set.dense_keys_view() == arena.dense_keys_view(),
            set.dense_values_view() == arena.dense_values_view(),
            set.sparse_view() == as_default_items(arena.sparse_view()),
            set@ == arena@,
    {
        proof {
            arena.lemma_parts_agree();
            arena.lemma_view_domain();
        }
        let ghost source = arena;
        let ((dense_keys, dense_values), sparse) = arena.into_parts();
        let items = to_default_items(&sparse);
        let set = Self { dense_keys, dense_values, sparse: items };
        proof {
            let keys = set.dense_keys@;
            assert forall|d: int| 0 <= d < keys.len() implies #[trigger] set_dense_ok::<K, DefaultSparseItem<K>>(
                keys,
                set.sparse@,
                d,
            ) by {
                assert(dense_ok(keys, sparse@, d));
            }
            assert forall|j: int| 0 <= j < set.sparse@.len() implies #[trigger] set_sparse_ok::<
                K,
                DefaultSparseItem<K>,
            >(keys, set.sparse@, j) by {
                assert(sparse_ok(keys, sparse@, j));
            }
            assert forall|k: K| #[trigger] set.spec_lookup(k) == source.spec_lookup(k) by {}
            assert(set@ =~= source@);
        }
        set
    }
}

impl<K: Key, V> EpochSparseArena<K, V> {
    /// An arena with the entries of `set`, in the same dense order; its
    /// sparse array is built anew as `from_parts` builds it.  Every key's
    /// sparse index must have a representable successor, and so must the
    /// last slot of the set.
    pub fn from_set(set: EpochSparseSet<K, V, DefaultSparseItem<K>>) -> (arena: Self)
        requires
            set.wf(),
            set.spec_sparse_len() > 0 ==> K::index_fits((set.spec_sparse_len() - 1) as nat),
            forall|d: int|
                0 <= d < set.spec_len() ==> K::index_fits(key_index(#[trigger] set.dense_keys_view()[d]) + 1),
        ensures
            arena.wf(),
            arena.dense_keys_view() == set.dense_keys_view(),
            arena.dense_values_view() == set.dense_values_view(),
            arena@ == set@,
    {
        proof {
            set.lemma_parts_check();
            set.lemma_view_domain();
        }
        let ghost source = set;
        let (dense, sparse) = set.into_parts();
        let items = to_arena_items(&sparse);
        match Self::from_parts(dense, items) {
            Ok(arena) => {
                proof {
                    assert(arena@ =~= source@);
                }
                arena
            },
            Err(_) => {
                proof {
                    assert(false);
                }
                Self::new()
            },
        }
    }
}

/// Every item's key has a sparse index below `usize::MAX`, and the dense
/// indices below `len` plus the number of items are representable: inserting
/// the items one by one into `len` entries fits.
pub open spec fn set_items_fit<K: Key, V>(len: nat, items: Seq<DenseItem<K, V>>) -> bool {
    &&& items.len() > 0 ==> K::index_fits((len + items.len() - 1) as nat)
    &&& forall|i: int| 0 <= i < items.len() ==> key_index(#[trigger] items[i].key) < usize::MAX
}

impl<K: Key, V, S: SparseItem<Index = K::SparseIndex, Epoch = K::Epoch>> EpochSparseSet<K, V, S> {
    /// `new` is `self` after `insert` stored `value` under `key`.
    pub open spec fn spec_inserted(&self, new: &Self, key: K, value: V) -> bool {
        &&& new.wf()
        &&& exists|previous: Option<V>|
            #[trigger] self.spec_try_insert_outcome(
                new,
                key,
                value,
                Ok::<Option<V>, TryModifyError<K, V>>(previous),
            )
    }

    /// Inserts the items in order, each as `insert` does.
    pub fn extend(&mut self, items: Vec<DenseItem<K, V>>)
        requires
            old(self).wf(),
            set_items_fit(old(self).spec_len(), items@),
        ensures
            final(self).wf(),
            exists|states: Seq<Self>|
                {
                    &&& states.len() == items@.len() + 1
                    &&& states[0] == *old(self)
                    &&& states.last() == *final(self)
                    &&& forall|i: int|
                        0 <= i < items@.len() ==> (#[trigger] states[i]).spec_inserted(
                            &states[i + 1],
                            items@[i].key,
                            items@[i].value,
                        )
                },
    {
        let ghost all = items@;
        let n = items.len();
        let mut pending = reversed(items);
        let ghost mut states: Seq<Self> = seq![*self];
        let ghost first = *self;
        proof {
            assert(all.subrange(0, n as int) =~= all);
        }
        let mut i: usize = 0;
        while i < n
            invariant
                i <= n,
                n == all.len(),
                pending@ == all.subrange(i as int, n as int).reverse(),
                self.wf(),
                set_items_fit(first.spec_len(), all),
                self.spec_len() <= first.spec_len() + i,
                states.len() == i + 1,
                states[0] == first,
                states.last() == *self,
                forall|t: int|
                    0 <= t < i ==> (#[trigger] states[t]).spec_inserted(&states[t + 1], all[t].key, all[t].value),
            decreases n - i,
        {
            let ghost rest = pending@;
            let item = pending.pop().unwrap();
            let ghost before = *self;
            proof {
                assert(rest.last() == all[i as int]);
                assert(pending@ =~= all.subrange(i + 1, n as int).reverse());
                K::lemma_index_fits_below((first.spec_len() + n - 1) as nat, self.spec_len());
            }
            let DenseItem { key, value } = item;
            self.insert(key, value);
            proof {
                let j = key_index(key);
                if j < before.spec_sparse_len() {
                    assert(set_sparse_ok::<K, S>(before.dense_keys@, before.sparse@, j as int));
                }
                let old_states = states;
                states = states.push(*self);
                assert forall|t: int| 0 <= t < i + 1 implies (#[trigger] states[t]).spec_inserted(
                    &states[t + 1],
                    all[t].key,
                    all[t].value,
                ) by {
                    if t < i {
                        assert(states[t] == old_states[t]);
                        assert(states[t + 1] == old_states[t + 1]);
                    }
                }
            }
            i = i + 1;
        }
    }

    /// A set holding the items, inserted in order as `extend` does.
    pub fn from_items(items: Vec<DenseItem<K, V>>) -> (set: Self)
        requires
            set_items_fit(0, items@),
        ensures
            set.wf(),
            exists|states: Seq<Self>|
                {
                    &&& states.len() == items@.len() + 1
                    &&& states[0].spec_len() == 0
                    &&& states[0].spec_sparse_len() == 0
                    &&& states.last() == set
                    &&& forall|i: int|
                        0 <= i < items@.len() ==> (#[trigger] states[i]).spec_inserted(
                            &states[i + 1],
                            items@[i].key,
                            items@[i].value,
                        )
                },
    {
        let mut set = Self::new();
        set.extend(items);
        set
    }
}

} // verus!
