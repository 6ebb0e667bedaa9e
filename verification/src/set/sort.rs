use core::cmp::Ordering;
use vstd::prelude::*;
use vstd::std_specs::cmp::OrdSpec;

use crate::arena::sort::{
    answered_greater, entries_answered_greater, entries_placed_before, placed_before, seq_at, sorted_order,
    value_greater, value_placed_before,
};
use crate::item::sparse::traits::SparseItem;
use crate::key::Key;
use crate::set::{set_item_index, EpochSparseSet};

verus! {

impl<K: Key, V, S: SparseItem<Index = K::SparseIndex, Epoch = K::Epoch>> EpochSparseSet<K, V, S> {
    /// Orders the entries with `compare`, which sees each entry as its key and
    /// a reference to its value: a stable insertion sort, so `compare` placed
    /// each entry before the one that follows it, and an entry moved ahead of
    /// one that came before it only where `compare`, asked about the two in
    /// their old order, answered `Greater`.  The entries themselves and the
    /// epochs stay as they are; every slot points at its entry's new place.
    pub fn sort_by<F: Fn((K, &V), (K, &V)) -> Ordering>(&mut self, compare: F)
        requires
            old(self).wf(),
            forall|a: (K, &V), b: (K, &V)| call_requires(compare, (a, b)),
        ensures
            final(self).wf(),
            final(self)@ == old(self)@,
            final(self).spec_len() == old(self).spec_len(),
            forall|e: int|
                0 <= e < final(self).spec_len() - 1 ==> #[trigger] placed_before(
                    compare,
                    final(self).dense_keys_view()[e],
                    final(self).dense_values_view()[e],
                    final(self).dense_keys_view()[e + 1],
                    final(self).dense_values_view()[e + 1],
                ),
            forall|a: int, b: int|
                0 <= a < b < final(self).spec_len() && old(self).spec_lookup(
                    final(self).dense_keys_view()[b],
                )->0 < old(self).spec_lookup(final(self).dense_keys_view()[a])->0 ==> #[trigger] answered_greater(
                    compare,
                    final(self).dense_keys_view()[b],
                    final(self).dense_values_view()[b],
                    final(self).dense_keys_view()[a],
                    final(self).dense_values_view()[a],
                ),
            final(self).spec_sparse_len() == old(self).spec_sparse_len(),
            forall|j: int|
                0 <= j < old(self).spec_sparse_len() ==> {
                    let o = old(self).sparse_view()[j];
                    let nw = #[trigger] final(self).sparse_view()[j];
                    &&& nw.spec_epoch() == o.spec_epoch()
                    &&& set_item_index::<K, S>(o) is None ==> nw == o
                    &&& set_item_index::<K, S>(o) is Some ==> set_item_index::<K, S>(nw) is Some
                },
    {
        let ghost keys0 = self.dense_keys_view();
        let ghost values0 = self.dense_values_view();
        let ghost old_self = *self;
        proof {
            self.lemma_view_domain();
        }
        let order = sorted_order(&self.dense_keys, &self.dense_values, compare);
        let ghost sorted = order@;
        self.reorder(order);
        proof {
            assert forall|a: int, b: int|
                0 <= a < b < self.spec_len() && old_self.spec_lookup(self.dense_keys_view()[b])->0
                    < old_self.spec_lookup(self.dense_keys_view()[a])->0 implies #[trigger] answered_greater(
                compare,
                self.dense_keys_view()[b],
                self.dense_values_view()[b],
                self.dense_keys_view()[a],
                self.dense_values_view()[a],
            ) by {
                assert(self.dense_keys_view()[a] == seq_at(keys0, sorted[a]));
                assert(self.dense_keys_view()[b] == seq_at(keys0, sorted[b]));
                old_self.lemma_lookup(self.dense_keys_view()[a]);
                old_self.lemma_lookup(self.dense_keys_view()[b]);
                assert(entries_answered_greater(compare, keys0, values0, sorted[b], sorted[a]));
            }
            assert forall|e: int| 0 <= e < self.spec_len() - 1 implies #[trigger] placed_before(
                compare,
                self.dense_keys_view()[e],
                self.dense_values_view()[e],
                self.dense_keys_view()[e + 1],
                self.dense_values_view()[e + 1],
            ) by {
                assert(entries_placed_before(compare, keys0, values0, sorted[e], sorted[e + 1]));
            }
        }
    }

    /// Orders the entries with `compare` as `sort_by` does.
    pub fn sort_unstable_by<F: Fn((K, &V), (K, &V)) -> Ordering>(&mut self, compare: F)
        requires
            old(self).wf(),
            forall|a: (K, &V), b: (K, &V)| call_requires(compare, (a, b)),
        ensures
            final(self).wf(),
            final(self)@ == old(self)@,
            final(self).spec_len() == old(self).spec_len(),
            forall|e: int|
                0 <= e < final(self).spec_len() - 1 ==> #[trigger] placed_before(
                    compare,
                    final(self).dense_keys_view()[e],
                    final(self).dense_values_view()[e],
                    final(self).dense_keys_view()[e + 1],
                    final(self).dense_values_view()[e + 1],
                ),
            forall|a: int, b: int|
                0 <= a < b < final(self).spec_len() && old(self).spec_lookup(
                    final(self).dense_keys_view()[b],
                )->0 < old(self).spec_lookup(final(self).dense_keys_view()[a])->0 ==> #[trigger] answered_greater(
                    compare,
                    final(self).dense_keys_view()[b],
                    final(self).dense_values_view()[b],
                    final(self).dense_keys_view()[a],
                    final(self).dense_values_view()[a],
                ),
            final(self).spec_sparse_len() == old(self).spec_sparse_len(),
            forall|j: int|
                0 <= j < old(self).spec_sparse_len() ==> {
                    let o = old(self).sparse_view()[j];
                    let nw = #[trigger] final(self).sparse_view()[j];
                    &&& nw.spec_epoch() == o.spec_epoch()
                    &&& set_item_index::<K, S>(o) is None ==> nw == o
                    &&& set_item_index::<K, S>(o) is Some ==> set_item_index::<K, S>(nw) is Some
                },
    {
        self.sort_by(compare);
    }
}

impl<K: Key, V: Ord, S: SparseItem<Index = K::SparseIndex, Epoch = K::Epoch>> EpochSparseSet<K, V, S> {
    /// Orders the entries by their values, as `sort_by` does with the order
    /// of `V`.  Where that order follows its specification, each value may
    /// come before the one that follows it, and an entry moved ahead of one
    /// that came before it only where its value is the smaller.
    pub fn sort(&mut self)
        requires
            old(self).wf(),
        ensures
            final(self).wf(),
            final(self)@ == old(self)@,
            final(self).spec_len() == old(self).spec_len(),
            V::obeys_cmp_spec() ==> forall|e: int|
                0 <= e < final(self).spec_len() - 1 ==> #[trigger] value_placed_before(
                    final(self).dense_values_view()[e],
                    final(self).dense_values_view()[e + 1],
                ),
            V::obeys_cmp_spec() ==> forall|a: int, b: int|
                0 <= a < b < final(self).spec_len() && old(self).spec_lookup(
                    final(self).dense_keys_view()[b],
                )->0 < old(self).spec_lookup(final(self).dense_keys_view()[a])->0 ==> #[trigger] value_greater(
                    final(self).dense_values_view()[b],
                    final(self).dense_values_view()[a],
                ),
            final(self).spec_sparse_len() == old(self).spec_sparse_len(),
            forall|j: int|
                0 <= j < old(self).spec_sparse_len() ==> {
                    let o = old(self).sparse_view()[j];
                    let nw = #[trigger] final(self).sparse_view()[j];
                    &&& nw.spec_epoch() == o.spec_epoch()
                    &&& set_item_index::<K, S>(o) is None ==> nw == o
                    &&& set_item_index::<K, S>(o) is Some ==> set_item_index::<K, S>(nw) is Some
                },
    {
        let by_value = |a: (K, &V), b: (K, &V)| -> (r: Ordering)
            ensures
                V::obeys_cmp_spec() ==> r == a.1.cmp_spec(b.1),
            { a.1.cmp(b.1) };
        let ghost old_self = *self;
        self.sort_by(by_value);
        proof {
            if V::obeys_cmp_spec() {
                assert forall|a: int, b: int|
                    0 <= a < b < self.spec_len() && old_self.spec_lookup(self.dense_keys_view()[b])->0
                        < old_self.spec_lookup(self.dense_keys_view()[a])->0 implies #[trigger] value_greater(
                    self.dense_values_view()[b],
                    self.dense_values_view()[a],
                ) by {
                    assert(answered_greater(
                        by_value,
                        self.dense_keys_view()[b],
                        self.dense_values_view()[b],
                        self.dense_keys_view()[a],
                        self.dense_values_view()[a],
                    ));
                }
                assert forall|e: int| 0 <= e < self.spec_len() - 1 implies #[trigger] value_placed_before(
                    self.dense_values_view()[e],
                    self.dense_values_view()[e + 1],
                ) by {
                    assert(placed_before(
                        by_value,
                        self.dense_keys_view()[e],
                        self.dense_values_view()[e],
                        self.dense_keys_view()[e + 1],
                        self.dense_values_view()[e + 1],
                    ));
                }
            }
        }
    }

    /// Orders the entries by their values as `sort` does.
    pub fn sort_unstable(&mut self)
        requires
            old(self).wf(),
        ensures
            final(self).wf(),
            final(self)@ == old(self)@,
            final(self).spec_len() == old(self).spec_len(),
            V::obeys_cmp_spec() ==> forall|e: int|
                0 <= e < final(self).spec_len() - 1 ==> #[trigger] value_placed_before(
                    final(self).dense_values_view()[e],
                    final(self).dense_values_view()[e + 1],
                ),
            V::obeys_cmp_spec() ==> forall|a: int, b: int|
                0 <= a < b < final(self).spec_len() && old(self).spec_lookup(
                    final(self).dense_keys_view()[b],
                )->0 < old(self).spec_lookup(final(self).dense_keys_view()[a])->0 ==> #[trigger] value_greater(
                    final(self).dense_values_view()[b],
                    final(self).dense_values_view()[a],
                ),
            final(self).spec_sparse_len() == old(self).spec_sparse_len(),
            forall|j: int|
                0 <= j < old(self).spec_sparse_len() ==> {
                    let o = old(self).sparse_view()[j];
                    let nw = #[trigger] final(self).sparse_view()[j];
                    &&& nw.spec_epoch() == o.spec_epoch()
                    &&& set_item_index::<K, S>(o) is None ==> nw == o
                    &&& set_item_index::<K, S>(o) is Some ==> set_item_index::<K, S>(nw) is Some
                },
    {
        self.sort();
    }
}

} // verus!
