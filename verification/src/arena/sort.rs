use core::cmp::Ordering;
use vstd::prelude::*;
use vstd::std_specs::cmp::OrdSpec;

use crate::arena::{is_permutation, EpochSparseArena};
use crate::key::Key;

verus! {

/// Item `i` of `s`.
pub open spec fn seq_at<T>(s: Seq<T>, i: usize) -> T {
    s[i as int]
}

/// `i` as an integer.
pub open spec fn index_int(i: usize) -> int {
    i as int
}

/// `compare` put the entry of `pk` and `pv` before the entry of `qk` and
/// `qv`: asked about them in this order it answered other than `Greater`, or
/// asked the other way round it answered `Greater`.
pub open spec fn placed_before<K, V, F: Fn((K, &V), (K, &V)) -> Ordering>(
    compare: F,
    pk: K,
    pv: V,
    qk: K,
    qv: V,
) -> bool {
    ||| exists|o: Ordering| #[trigger] call_ensures(compare, ((pk, &pv), (qk, &qv)), o) && !(o is Greater)
    ||| call_ensures(compare, ((qk, &qv), (pk, &pv)), Ordering::Greater)
}

/// By the order of `V`, `p` may come before `q`: it is not greater than `q`,
/// or `q` is greater than it.
pub open spec fn value_placed_before<V: Ord>(p: V, q: V) -> bool {
    ||| !(p.cmp_spec(&q) is Greater)
    ||| q.cmp_spec(&p) is Greater
}

/// `compare` put entry `a` of `keys` and `values` before entry `b`.
pub open spec fn entries_placed_before<K, V, F: Fn((K, &V), (K, &V)) -> Ordering>(
    compare: F,
    keys: Seq<K>,
    values: Seq<V>,
    a: usize,
    b: usize,
) -> bool {
    placed_before(compare, seq_at(keys, a), seq_at(values, a), seq_at(keys, b), seq_at(values, b))
}

/// `compare`, asked about the entry of `pk` and `pv` and then the entry of
/// `qk` and `qv`, answered `Greater`.
pub open spec fn answered_greater<K, V, F: Fn((K, &V), (K, &V)) -> Ordering>(
    compare: F,
    pk: K,
    pv: V,
    qk: K,
    qv: V,
) -> bool {
    call_ensures(compare, ((pk, &pv), (qk, &qv)), Ordering::Greater)
}

/// By the order of `V`, `p` is greater than `q`.
pub open spec fn value_greater<V: Ord>(p: V, q: V) -> bool {
    p.cmp_spec(&q) is Greater
}

/// `compare`, asked about entry `a` of `keys` and `values` and then entry
/// `b`, answered `Greater`.
pub open spec fn entries_answered_greater<K, V, F: Fn((K, &V), (K, &V)) -> Ordering>(
    compare: F,
    keys: Seq<K>,
    values: Seq<V>,
    a: usize,
    b: usize,
) -> bool {
    answered_greater(compare, seq_at(keys, a), seq_at(values, a), seq_at(keys, b), seq_at(values, b))
}

/// The dense indices of `keys` and `values` in the order of an insertion sort
/// by `compare`: each index in turn moves left past the entries that
/// `compare` puts after it, and stops at the first that it does not.  An
/// index ends up ahead of a smaller one only where `compare`, asked about the
/// two in their first order, answered `Greater`.
pub(crate) fn sorted_order<K: Key, V, F: Fn((K, &V), (K, &V)) -> Ordering>(
    keys: &Vec<K>,
    values: &Vec<V>,
    compare: F,
) -> (order: Vec<usize>)
    requires
        keys@.len() == values@.len(),
        forall|a: (K, &V), b: (K, &V)| call_requires(compare, (a, b)),
    ensures
        is_permutation(order@, keys@.len()),
        forall|e: int|
            0 <= e < keys@.len() - 1 ==> #[trigger] entries_placed_before(
                compare,
                keys@,
                values@,
                order@[e],
                order@[e + 1],
            ),
        forall|a: int, b: int|
            0 <= a < b < keys@.len() && order@[b] < order@[a] ==> #[trigger] entries_answered_greater(
                compare,
                keys@,
                values@,
                order@[b],
                order@[a],
            ),
{
    let n = keys.len();
    let mut order: Vec<usize> = Vec::new();
    let mut i: usize = 0;
    while i < n
        invariant
            i <= n,
            n == keys@.len(),
            keys@.len() == values@.len(),
            forall|a: (K, &V), b: (K, &V)| call_requires(compare, (a, b)),
            order@.len() == i,
            order@.no_duplicates(),
            forall|e: int| 0 <= e < order@.len() ==> #[trigger] order@[e] < i,
            forall|d: usize| d < i ==> #[trigger] order@.contains(d),
            forall|e: int|
                0 <= e < order@.len() - 1 ==> #[trigger] entries_placed_before(
                    compare,
                    keys@,
                    values@,
                    order@[e],
                    order@[e + 1],
                ),
            forall|a: int, b: int|
                0 <= a < b < order@.len() && order@[b] < order@[a] ==> #[trigger] entries_answered_greater(
                    compare,
                    keys@,
                    values@,
                    order@[b],
                    order@[a],
                ),
        decreases n - i,
    {
        let mut j: usize = i;
        loop
            invariant
                j <= i,
                i < n,
                n == keys@.len(),
                keys@.len() == values@.len(),
                forall|a: (K, &V), b: (K, &V)| call_requires(compare, (a, b)),
                order@.len() == i,
                forall|e: int| 0 <= e < order@.len() ==> #[trigger] order@[e] < i,
                forall|t: int|
                    j <= t < i ==> #[trigger] entries_answered_greater(compare, keys@, values@, order@[t], i),
            ensures
                j <= i,
                forall|t: int|
                    j <= t < i ==> #[trigger] entries_answered_greater(compare, keys@, values@, order@[t], i),
                j > 0 ==> exists|o: Ordering|
                    #[trigger] call_ensures(
                        compare,
                        (
                            (seq_at(keys@, order@[j - 1]), &seq_at(values@, order@[j - 1])),
                            (seq_at(keys@, i), &seq_at(values@, i)),
                        ),
                        o,
                    ) && !(o is Greater),
            decreases j,
        {
            if j == 0 {
                break;
            }
            let before = order[j - 1];
            let answer = compare((keys[before], &values[before]), (keys[i], &values[i]));
            match answer {
                Ordering::Greater => {
                    proof {
                        assert(entries_answered_greater(compare, keys@, values@, order@[j - 1], i));
                    }
                    j = j - 1;
                },
                _ => {
                    proof {
                        assert(call_ensures(
                            compare,
                            (
                                (seq_at(keys@, order@[j - 1]), &seq_at(values@, order@[j - 1])),
                                (seq_at(keys@, i), &seq_at(values@, i)),
                            ),
                            answer,
                        ));
                    }
                    break;
                },
            }
        }
        let ghost old_order = order@;
        let ghost p = index_int(j);
        order.insert(j, i);
        proof {
            let new_order = order@;
            assert(new_order == old_order.insert(p, i));
            assert forall|e: int| 0 <= e < new_order.len() implies #[trigger] new_order[e] == (if e < p {
                old_order[e]
            } else if e == p {
                i
            } else {
                old_order[e - 1]
            }) by {}
            assert forall|a: int, b: int|
                0 <= a < new_order.len() && 0 <= b < new_order.len() && a != b implies new_order[a]
                != new_order[b] by {
                if a != p && b != p {
                    let a0 = if a < p { a } else { a - 1 };
                    let b0 = if b < p { b } else { b - 1 };
                    assert(new_order[a] == old_order[a0]);
                    assert(new_order[b] == old_order[b0]);
                } else if a == p {
                    let b0 = if b < p { b } else { b - 1 };
                    assert(new_order[b] == old_order[b0]);
                    assert(old_order[b0] < i);
                } else {
                    let a0 = if a < p { a } else { a - 1 };
                    assert(new_order[a] == old_order[a0]);
                    assert(old_order[a0] < i);
                }
            }
            assert(new_order.no_duplicates());
            assert forall|e: int| 0 <= e < new_order.len() implies #[trigger] new_order[e] < i + 1 by {
                if e < p {
                    assert(old_order[e] < i);
                } else if e > p {
                    assert(old_order[e - 1] < i);
                }
            }
            assert forall|d: usize| d < i + 1 implies #[trigger] new_order.contains(d) by {
                if d == i {
                    assert(new_order[p] == d);
                } else {
                    assert(old_order.contains(d));
                    let e0 = choose|e0: int| 0 <= e0 < old_order.len() && old_order[e0] == d;
                    if e0 < p {
                        assert(new_order[e0] == d);
                    } else {
                        assert(new_order[e0 + 1] == d);
                    }
                }
            }
            assert forall|e: int| 0 <= e < new_order.len() - 1 implies #[trigger] entries_placed_before(
                compare,
                keys@,
                values@,
                new_order[e],
                new_order[e + 1],
            ) by {
                if e + 1 < p {
                    assert(new_order[e] == old_order[e]);
                    assert(new_order[e + 1] == old_order[e + 1]);
                    assert(entries_placed_before(compare, keys@, values@, old_order[e], old_order[e + 1]));
                } else if e + 1 == p {
                    assert(new_order[e] == old_order[p - 1]);
                    assert(new_order[e + 1] == i);
                } else if e == p {
                    assert(new_order[e] == i);
                    assert(new_order[e + 1] == old_order[e]);
                    assert(entries_answered_greater(compare, keys@, values@, old_order[e], i));
                } else {
                    assert(new_order[e] == old_order[e - 1]);
                    assert(new_order[e + 1] == old_order[e]);
                    let x = e - 1;
                    assert(entries_placed_before(compare, keys@, values@, old_order[x], old_order[x + 1]));
                    assert(x + 1 == e);
                }
            }
            assert forall|a: int, b: int|
                0 <= a < b < new_order.len() && new_order[b] < new_order[a] implies #[trigger] entries_answered_greater(
                compare,
                keys@,
                values@,
                new_order[b],
                new_order[a],
            ) by {
                if a == p {
                    assert(new_order[b] == old_order[b - 1]);
                    assert(entries_answered_greater(compare, keys@, values@, old_order[b - 1], i));
                } else if b != p {
                    let a0 = if a < p { a } else { a - 1 };
                    let b0 = if b < p { b } else { b - 1 };
                    assert(new_order[a] == old_order[a0]);
                    assert(new_order[b] == old_order[b0]);
                    assert(entries_answered_greater(compare, keys@, values@, old_order[b0], old_order[a0]));
                }
            }
        }
        i = i + 1;
    }
    order
}

impl<K: Key, V> EpochSparseArena<K, V> {
    /// Orders the entries with `compare`, which sees each entry as its key and
    /// a reference to its value: a stable insertion sort, so `compare` placed
    /// each entry before the one that follows it, and an entry moved ahead of
    /// one that came before it only where `compare`, asked about the two in
    /// their old order, answered `Greater`.  The entries themselves, the
    /// epochs and the vacant list stay as they are; every slot points at its
    /// entry's new place.
    pub fn sort_by<F: Fn((K, &V), (K, &V)) -> Ordering>(&mut self, compare: F)
        requires
            old(self).wf(),
            forall|a: (K, &V), b: (K, &V)| call_requires(compare, (a, b)),
        ensures
            final(self).wf(),
            final(self)@ == old(self)@,
            final(self).spec_len() == old(self).spec_len(),
            forall|e: int|
                0 <= e < final(self).spec_len() - 1 ==> #[trigger] placed_before(
                    compare,
                    final(self).dense_keys_view()[e],
                    final(self).dense_values_view()[e],
                    final(self).dense_keys_view()[e + 1],
                    final(self).dense_values_view()[e + 1],
                ),
            forall|a: int, b: int|
                0 <= a < b < final(self).spec_len() && old(self).spec_lookup(
                    final(self).dense_keys_view()[b],
                )->0 < old(self).spec_lookup(final(self).dense_keys_view()[a])->0 ==> #[trigger] answered_greater(
                    compare,
                    final(self).dense_keys_view()[b],
                    final(self).dense_values_view()[b],
                    final(self).dense_keys_view()[a],
                    final(self).dense_values_view()[a],
                ),
            final(self).spec_sparse_len() == old(self).spec_sparse_len(),
            final(self).vacant_view() == old(self).vacant_view(),
            forall|j: int|
                0 <= j < old(self).spec_sparse_len() ==> {
                    let o = old(self).sparse_view()[j];
                    let n = #[trigger] final(self).sparse_view()[j];
                    &&& n.epoch == o.epoch
                    &&& o.kind is Vacant ==> n == o
                    &&& o.kind is Occupied ==> n.kind is Occupied
                },
    {
        let ghost keys0 = self.dense_keys_view();
        let ghost values0 = self.dense_values_view();
        let ghost old_self = *self;
        proof {
            self.lemma_view_domain();
        }
        let order = sorted_order(&self.dense_keys, &self.dense_values, compare);
        let ghost sorted = order@;
        self.reorder(order);
        proof {
            assert forall|a: int, b: int|
                0 <= a < b < self.spec_len() && old_self.spec_lookup(self.dense_keys_view()[b])->0
                    < old_self.spec_lookup(self.dense_keys_view()[a])->0 implies #[trigger] answered_greater(
                compare,
                self.dense_keys_view()[b],
                self.dense_values_view()[b],
                self.dense_keys_view()[a],
                self.dense_values_view()[a],
            ) by {
                assert(self.dense_keys_view()[a] == seq_at(keys0, sorted[a]));
                assert(self.dense_keys_view()[b] == seq_at(keys0, sorted[b]));
                old_self.lemma_lookup(self.dense_keys_view()[a]);
                old_self.lemma_lookup(self.dense_keys_view()[b]);
                assert(entries_answered_greater(compare, keys0, values0, sorted[b], sorted[a]));
            }
            assert forall|e: int| 0 <= e < self.spec_len() - 1 implies #[trigger] placed_before(
                compare,
                self.dense_keys_view()[e],
                self.dense_values_view()[e],
                self.dense_keys_view()[e + 1],
                self.dense_values_view()[e + 1],
            ) by {
                assert(entries_placed_before(compare, keys0, values0, sorted[e], sorted[e + 1]));
            }
        }
    }

    /// Orders the entries with `compare` as `sort_by` does.
    pub fn sort_unstable_by<F: Fn((K, &V), (K, &V)) -> Ordering>(&mut self, compare: F)
        requires
            old(self).wf(),
            forall|a: (K, &V), b: (K, &V)| call_requires(compare, (a, b)),
        ensures
            final(self).wf(),
            final(self)@ == old(self)@,
            final(self).spec_len() == old(self).spec_len(),
            forall|e: int|
                0 <= e < final(self).spec_len() - 1 ==> #[trigger] placed_before(
                    compare,
                    final(self).dense_keys_view()[e],
                    final(self).dense_values_view()[e],
                    final(self).dense_keys_view()[e + 1],
                    final(self).dense_values_view()[e + 1],
                ),
            forall|a: int, b: int|
                0 <= a < b < final(self).spec_len() && old(self).spec_lookup(
                    final(self).dense_keys_view()[b],
                )->0 < old(self).spec_lookup(final(self).dense_keys_view()[a])->0 ==> #[trigger] answered_greater(
                    compare,
                    final(self).dense_keys_view()[b],
                    final(self).dense_values_view()[b],
                    final(self).dense_keys_view()[a],
                    final(self).dense_values_view()[a],
                ),
            final(self).spec_sparse_len() == old(self).spec_sparse_len(),
            final(self).vacant_view() == old(self).vacant_view(),
            forall|j: int|
                0 <= j < old(self).spec_sparse_len() ==> {
                    let o = old(self).sparse_view()[j];
                    let n = #[trigger] final(self).sparse_view()[j];
                    &&& n.epoch == o.epoch
                    &&& o.kind is Vacant ==> n == o
                    &&& o.kind is Occupied ==> n.kind is Occupied
                },
    {
        self.sort_by(compare);
    }
}

impl<K: Key, V: Ord> EpochSparseArena<K, V> {
    /// Orders the entries by their values, as `sort_by` does with the order
    /// of `V`.  Where that order follows its specification, each value may
    /// come before the one that follows it, and an entry moved ahead of one
    /// that came before it only where its value is the smaller.
    pub fn sort(&mut self)
        requires
            old(self).wf(),
        ensures
            final(self).wf(),
            final(self)@ == old(self)@,
            final(self).spec_len() == old(self).spec_len(),
            V::obeys_cmp_spec() ==> forall|e: int|
                0 <= e < final(self).spec_len() - 1 ==> #[trigger] value_placed_before(
                    final(self).dense_values_view()[e],
                    final(self).dense_values_view()[e + 1],
                ),
            V::obeys_cmp_spec() ==> forall|a: int, b: int|
                0 <= a < b < final(self).spec_len() && old(self).spec_lookup(
                    final(self).dense_keys_view()[b],
                )->0 < old(self).spec_lookup(final(self).dense_keys_view()[a])->0 ==> #[trigger] value_greater(
                    final(self).dense_values_view()[b],
                    final(self).dense_values_view()[a],
                ),
            final(self).spec_sparse_len() == old(self).spec_sparse_len(),
            final(self).vacant_view() == old(self).vacant_view(),
            forall|j: int|
                0 <= j < old(self).spec_sparse_len() ==> {
                    let o = old(self).sparse_view()[j];
                    let n = #[trigger] final(self).sparse_view()[j];
                    &&& n.epoch == o.epoch
                    &&& o.kind is Vacant ==> n == o
                    &&& o.kind is Occupied ==> n.kind is Occupied
                },
    {
        let by_value = |a: (K, &V), b: (K, &V)| -> (r: Ordering)
            ensures
                V::obeys_cmp_spec() ==> r == a.1.cmp_spec(b.1),
            { a.1.cmp(b.1) };
        let ghost old_self = *self;
        self.sort_by(by_value);
        proof {
            if V::obeys_cmp_spec() {
                assert forall|a: int, b: int|
                    0 <= a < b < self.spec_len() && old_self.spec_lookup(self.dense_keys_view()[b])->0
                        < old_self.spec_lookup(self.dense_keys_view()[a])->0 implies #[trigger] value_greater(
                    self.dense_values_view()[b],
                    self.dense_values_view()[a],
                ) by {
                    assert(answered_greater(
                        by_value,
                        self.dense_keys_view()[b],
                        self.dense_values_view()[b],
                        self.dense_keys_view()[a],
                        self.dense_values_view()[a],
                    ));
                }
                assert forall|e: int| 0 <= e < self.spec_len() - 1 implies #[trigger] value_placed_before(
                    self.dense_values_view()[e],
                    self.dense_values_view()[e + 1],
                ) by {
                    assert(placed_before(
                        by_value,
                        self.dense_keys_view()[e],
                        self.dense_values_view()[e],
                        self.dense_keys_view()[e + 1],
                        self.dense_values_view()[e + 1],
                    ));
                }
            }
        }
    }

    /// Orders the entries by their values as `sort` does.
    pub fn sort_unstable(&mut self)
        requires
            old(self).wf(),
        ensures
            final(self).wf(),
            final(self)@ == old(self)@,
            final(self).spec_len() == old(self).spec_len(),
            V::obeys_cmp_spec() ==> forall|e: int|
                0 <= e < final(self).spec_len() - 1 ==> #[trigger] value_placed_before(
                    final(self).dense_values_view()[e],
                    final(self).dense_values_view()[e + 1],
                ),
            V::obeys_cmp_spec() ==> forall|a: int, b: int|
                0 <= a < b < final(self).spec_len() && old(self).spec_lookup(
                    final(self).dense_keys_view()[b],
                )->0 < old(self).spec_lookup(final(self).dense_keys_view()[a])->0 ==> #[trigger] value_greater(
                    final(self).dense_values_view()[b],
                    final(self).dense_values_view()[a],
                ),
            final(self).spec_sparse_len() == old(self).spec_sparse_len(),
            final(self).vacant_view() == old(self).vacant_view(),
            forall|j: int|
                0 <= j < old(self).spec_sparse_len() ==> {
                    let o = old(self).sparse_view()[j];
                    let n = #[trigger] final(self).sparse_view()[j];
                    &&& n.epoch == o.epoch
                    &&& o.kind is Vacant ==> n == o
                    &&& o.kind is Occupied ==> n.kind is Occupied
                },
    {
        self.sort();
    }
}

} // verus!
