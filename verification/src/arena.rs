//! A sparse arena: values stored densely, addressed by generational keys.
//!
//! The dense part holds the keys and the values side by side, in insertion
//! order.  The sparse part holds one item per sparse index: either the dense
//! index of the entry that the slot names, or a link in the list of vacant
//! slots.  Every slot carries an epoch; a key resolves only while its epoch is
//! the slot's epoch, and a slot's epoch moves on when its entry is removed.
use std::collections::TryReserveError as AllocTryReserveError;
use vstd::layout::size_of;
use vstd::prelude::*;

pub mod sort;

use crate::algo::{
    check_parts, dense_ok, item_dense_index, parts_consistent, parts_error, slot_dense_index,
    slot_resolves, sparse_get_with_key, sparse_lookup, sparse_ok,
};
use crate::asserts::{unwrap_into_index, unwrap_into_usize, unwrap_next_vacant};
pub use crate::entry::{Entry, OccupiedEntry, VacantEntry};
use crate::error::{
    FromPartsError, TooLargeSparseIndexError, TooSmallSparseIndexError, TryModifyError, TryModifyErrorKind,
    TryReserveError,
};
use crate::item::dense::{DenseItem, DenseRefs};
use crate::item::sparse::{SparseItem, SparseItemKind};
use crate::key::{key_epoch, key_index, lemma_index_injective, lemma_key_eq_parts, Key};

verus! {

/// The next vacant slot linked from a vacant item, as a number.
pub open spec fn item_next_vacant<K: Key>(item: SparseItem<K>) -> nat {
    K::index_nat(item.kind->next_vacant)
}

/// Position `t` of the vacant list is a vacant slot linking to position `t + 1`
/// (or, for the last position, to the length of the sparse array).
pub open spec fn vacant_link<K: Key>(sparse: Seq<SparseItem<K>>, vacant: Seq<nat>, t: int) -> bool {
    &&& vacant[t] < sparse.len()
    &&& sparse[vacant[t] as int].kind is Vacant
    &&& item_next_vacant(sparse[vacant[t] as int]) == (if t + 1 < vacant.len() {
        vacant[t + 1]
    } else {
        sparse.len()
    })
}

/// `vacant` is the list of vacant slots that starts at `head`.
pub open spec fn vacant_chain<K: Key>(sparse: Seq<SparseItem<K>>, vacant: Seq<nat>, head: nat) -> bool {
    &&& head == (if vacant.len() > 0 {
        vacant[0]
    } else {
        sparse.len()
    })
    &&& vacant.no_duplicates()
    &&& forall|t: int| 0 <= t < vacant.len() ==> #[trigger] vacant_link(sparse, vacant, t)
}

/// The slots that the sparse array gains when it grows from `old_len` to
/// `new_len` and slot `new_len - 1` is taken at once: they join the front of
/// the vacant list, highest first.
pub open spec fn fresh_vacant(old_len: nat, new_len: nat) -> Seq<nat> {
    Seq::new((new_len - 1 - old_len) as nat, |k: int| (new_len - 2 - k) as nat)
}

/// The invariant of an arena made of these parts.
pub open spec fn parts_wf<K: Key, V>(
    keys: Seq<K>,
    values: Seq<V>,
    sparse: Seq<SparseItem<K>>,
    vacant: Seq<nat>,
    head: nat,
) -> bool {
    &&& keys.len() == values.len()
    &&& forall|d: int| 0 <= d < keys.len() ==> #[trigger] dense_ok(keys, sparse, d)
    &&& forall|j: int| 0 <= j < sparse.len() ==> #[trigger] sparse_ok(keys, sparse, j)
    &&& vacant_chain(sparse, vacant, head)
    &&& forall|j: int|
        0 <= j < sparse.len() && (#[trigger] sparse[j]).kind is Vacant ==> vacant.contains(j as nat)
}

/// `Vec::try_reserve`.  Its documentation promises that on `Ok` the capacity is
/// at least the length plus `additional`, so that sum fits in `usize`, and a
/// vector never holds more than `isize::MAX` bytes, so that many items fit in
/// them; the contents are unchanged either way.  Whether it succeeds
/// otherwise rests on the allocator and is not stated.
#[verifier::external_body]
pub(crate) fn vec_try_reserve<T>(vec: &mut Vec<T>, additional: usize) -> (result: Result<
    (),
    AllocTryReserveError,
>)
    ensures
        final(vec)@ == old(vec)@,
        result is Ok ==> old(vec)@.len() + additional <= usize::MAX,
        result is Ok ==> (old(vec)@.len() + additional) * size_of::<T>() <= isize::MAX,
{
    vec.try_reserve(additional)
}

/// Only items that take no room fit `usize::MAX` times in `isize::MAX` bytes.
pub(crate) proof fn lemma_no_room_for_max<T>()
    ensures
        (usize::MAX as int) * size_of::<T>() <= isize::MAX ==> size_of::<T>() == 0,
{
    let size = size_of::<T>();
    if size > 0 {
        assert((usize::MAX as int) * size >= usize::MAX as int) by (nonlinear_arith)
            requires
                size > 0,
        ;
    }
}

/// `Vec::try_reserve_exact`.  As for `try_reserve`, its documentation
/// promises that on `Ok` the capacity is at least the length plus
/// `additional`, so that sum fits in `usize`, and a vector never holds more
/// than `isize::MAX` bytes, so that many items fit in them; the contents are
/// unchanged either way.  Whether it succeeds rests on the allocator and is not stated.
#[verifier::external_body]
pub(crate) fn vec_try_reserve_exact<T>(vec: &mut Vec<T>, additional: usize) -> (result: Result<
    (),
    AllocTryReserveError,
>)
    ensures
        final(vec)@ == old(vec)@,
        result is Ok ==> old(vec)@.len() + additional <= usize::MAX,
        result is Ok ==> (old(vec)@.len() + additional) * size_of::<T>() <= isize::MAX,
{
    vec.try_reserve_exact(additional)
}

/// `Vec::reserve_exact`: it changes the capacity only, so the contents stay
/// as they are.  It panics where the capacity it needs, the length plus
/// `additional`, overflows or takes more than `isize::MAX` bytes; `requires`
/// leaves those inputs out.  The capacity reached is not stated.
#[verifier::external_body]
pub(crate) fn vec_reserve_exact<T>(vec: &mut Vec<T>, additional: usize)
    requires
        old(vec)@.len() + additional <= usize::MAX,
        (old(vec)@.len() + additional) * size_of::<T>() <= isize::MAX,
    ensures
        final(vec)@ == old(vec)@,
{
    vec.reserve_exact(additional)
}

/// `Vec::shrink_to_fit`: it changes the capacity only, so the contents stay
/// as they are.  The capacity left is not stated.
#[verifier::external_body]
pub(crate) fn vec_shrink_to_fit<T>(vec: &mut Vec<T>)
    ensures
        final(vec)@ == old(vec)@,
{
    vec.shrink_to_fit()
}

/// `Vec::shrink_to`: it changes the capacity only, so the contents stay as
/// they are.  The capacity left is not stated.
#[verifier::external_body]
pub(crate) fn vec_shrink_to<T>(vec: &mut Vec<T>, min_capacity: usize)
    ensures
        final(vec)@ == old(vec)@,
{
    vec.shrink_to(min_capacity)
}

/// The items of `b` agree with those of `a` at every slot below `a.len()` but
/// `j`: same epochs, occupied items unchanged, vacant items still vacant (their
/// links are fixed by the vacant list).
pub open spec fn sparse_same_except<K: Key>(
    a: Seq<SparseItem<K>>,
    b: Seq<SparseItem<K>>,
    j: nat,
) -> bool {
    forall|i: int|
        0 <= i < a.len() && i != j ==> {
            &&& (#[trigger] b[i]).epoch == a[i].epoch
            &&& a[i].kind is Occupied ==> b[i] == a[i]
            &&& a[i].kind is Vacant ==> b[i].kind is Vacant
        }
}

/// The last slot of the vacant list that starts at `first_vacant`, or `None`
/// where `first_vacant` lies past the sparse array (the list is empty).
fn last_vacant_item<K: Key>(
    sparse: &mut Vec<SparseItem<K>>,
    first_vacant: usize,
    Ghost(vacant): Ghost<Seq<nat>>,
) -> (last: Option<&mut SparseItem<K>>)
    requires
        first_vacant < old(sparse)@.len() ==> vacant_chain(old(sparse)@, vacant, first_vacant as nat),
    ensures
        first_vacant >= old(sparse)@.len() ==> last is None && final(sparse)@ == old(sparse)@,
        first_vacant < old(sparse)@.len() ==> {
            &&& vacant.len() > 0
            &&& last is Some
            &&& *last->0 == old(sparse)@[vacant.last() as int]
            &&& final(sparse)@ == old(sparse)@.update(vacant.last() as int, *final(last->0))
        },
{
    let old_len = sparse.len();
    if first_vacant >= old_len {
        return None;
    }
    let mut last_vacant = first_vacant;
    let ghost mut t: int = 0;
    loop
        invariant
            sparse@ == old(sparse)@,
            old_len == sparse@.len(),
            first_vacant < old_len,
            vacant_chain(sparse@, vacant, first_vacant as nat),
            0 <= t < vacant.len(),
            last_vacant as nat == vacant[t],
        decreases vacant.len() - t,
    {
        proof {
            assert(vacant_link(sparse@, vacant, t));
            if t + 1 < vacant.len() {
                assert(vacant_link(sparse@, vacant, t + 1));
            }
        }
        let next_vacant = unwrap_into_usize::<K>(
            *unwrap_next_vacant(&sparse[last_vacant].kind),
        );
        if next_vacant == old_len {
            return Some(&mut sparse[last_vacant]);
        }
        last_vacant = next_vacant;
        proof {
            t = t + 1;
        }
    }
}

/// Grows the sparse array to `new_len` vacant slots; the new slots but the
/// last join the front of the vacant list, highest first, and the last vacant
/// slot of the old list now links to the new end.  The last new slot is left
/// out of the list for the caller to take; it links to the new head.  A
/// sparse array that is long enough already is left as it is; a `new_len`
/// that the sparse index type cannot represent is an error, and nothing
/// changes.
fn extend_sparse<K: Key>(
    sparse: &mut Vec<SparseItem<K>>,
    new_len: usize,
    sparse_vacant_head: &mut usize,
    Ghost(vacant): Ghost<Seq<nat>>,
) -> (result: Result<(), TooSmallSparseIndexError>)
    requires
        vacant_chain(old(sparse)@, vacant, *old(sparse_vacant_head) as nat),
    ensures
        new_len <= old(sparse)@.len() ==> result is Ok && final(sparse)@ == old(sparse)@
            && *final(sparse_vacant_head) == *old(sparse_vacant_head),
        old(sparse)@.len() < new_len && !K::index_fits(new_len as nat) ==> result == Err::<
            (),
            TooSmallSparseIndexError,
        >(TooSmallSparseIndexError { inner: new_len }) && final(sparse)@ == old(sparse)@
            && *final(sparse_vacant_head) == *old(sparse_vacant_head),
        old(sparse)@.len() < new_len && K::index_fits(new_len as nat) ==> {
            &&& result is Ok
            &&& final(sparse)@.len() == new_len
            &&& vacant_chain(
                final(sparse)@,
                fresh_vacant(old(sparse)@.len(), new_len as nat) + vacant,
                *final(sparse_vacant_head) as nat,
            )
            &&& sparse_same_except(old(sparse)@, final(sparse)@, new_len as nat)
            &&& forall|i: int|
                old(sparse)@.len() <= i < new_len ==> (#[trigger] final(sparse)@[i]).kind is Vacant
                    && final(sparse)@[i].epoch == K::spec_default_epoch()
            &&& item_next_vacant(final(sparse)@[new_len - 1]) == *final(sparse_vacant_head)
        },
{
    let old_len = sparse.len();
    if old_len >= new_len {
        return Ok(());
    }
    let max_vacant = match K::index_from_usize(new_len) {
        Some(max_vacant) => max_vacant,
        None => return Err(TooSmallSparseIndexError::new(new_len)),
    };
    let ghost old_sparse = sparse@;
    proof {
        K::lemma_index_nat(max_vacant);
        K::lemma_index_of_nat(new_len as nat);
        assert forall|t: int| 0 <= t < vacant.len() implies vacant[t] < old_len by {
            assert(vacant_link(old_sparse, vacant, t));
        }
        if vacant.len() > 0 {
            assert(vacant_link(old_sparse, vacant, 0));
        }
    }
    if let Some(last_item) = last_vacant_item(sparse, *sparse_vacant_head, Ghost(vacant)) {
        let epoch = last_item.epoch;
        *last_item = SparseItem::vacant(max_vacant, epoch);
    }
    let ghost linked = sparse@;
    proof {
        assert(linked.len() == old_len);
        if vacant.len() > 0 {
            assert(vacant_link(old_sparse, vacant, 0));
            assert(vacant_link(old_sparse, vacant, vacant.len() - 1));
            let last = vacant.last() as int;
            assert(linked == old_sparse.update(
                last,
                SparseItem::<K> {
                    kind: SparseItemKind::Vacant { next_vacant: max_vacant },
                    epoch: old_sparse[last].epoch,
                },
            ));
        }
    }
    let first_next: usize = if *sparse_vacant_head < old_len {
        *sparse_vacant_head
    } else {
        new_len
    };
    proof {
        K::lemma_index_fits_below(new_len as nat, first_next as nat);
    }
    let mut next_vacant = first_next;
    let mut current = old_len;
    while current < new_len
        invariant
            old_len <= current <= new_len,
            sparse@.len() == current,
            forall|i: int| 0 <= i < old_len ==> sparse@[i] == linked[i],
            forall|i: int|
                old_len <= i < current ==> {
                    &&& (#[trigger] sparse@[i]).kind is Vacant
                    &&& sparse@[i].epoch == K::spec_default_epoch()
                    &&& item_next_vacant(sparse@[i]) == (if i == old_len {
                        first_next as int
                    } else {
                        i - 1
                    })
                },
            next_vacant == (if current == old_len {
                first_next as int
            } else {
                current - 1
            }),
            next_vacant <= new_len,
            K::index_fits(new_len as nat),
        decreases new_len - current,
    {
        proof {
            K::lemma_index_fits_below(new_len as nat, next_vacant as nat);
        }
        let item = SparseItem::vacant(unwrap_into_index::<K>(next_vacant), K::default_epoch());
        sparse.push(item);
        next_vacant = current;
        current = current + 1;
    }
    let ghost final_sparse = sparse@;
    let ghost fresh = fresh_vacant(old_len as nat, new_len as nat);
    let ghost list = fresh + vacant;
    let last_index = new_len - 1;
    *sparse_vacant_head = unwrap_into_usize::<K>(*unwrap_next_vacant(&sparse[last_index].kind));
    proof {
        let m = new_len - 1 - old_len;
        let head = *old(sparse_vacant_head) as nat;
        assert(fresh.len() == m);
        assert(list.len() == m + vacant.len());
        if vacant.len() > 0 {
            assert(vacant_link(old_sparse, vacant, 0));
            assert(first_next == vacant[0]);
        } else {
            assert(first_next == new_len);
        }
        assert forall|t: int| 0 <= t < list.len() implies #[trigger] vacant_link(
            final_sparse,
            list,
            t,
        ) by {
            if t < m {
                let i = new_len - 2 - t;
                assert(list[t] == i);
                assert(old_len <= i < new_len);
                assert(final_sparse[i].kind is Vacant);
                assert(item_next_vacant(final_sparse[i]) == (if i == old_len {
                    first_next as int
                } else {
                    i - 1
                }));
                if t + 1 < m {
                    assert(list[t + 1] == new_len - 3 - t);
                } else if vacant.len() > 0 {
                    assert(list[t + 1] == vacant[0]);
                }
            } else {
                let u = t - m;
                assert(list[t] == vacant[u]);
                assert(vacant_link(old_sparse, vacant, u));
                let v = vacant[u] as int;
                assert(final_sparse[v] == linked[v]);
                if u + 1 < vacant.len() {
                    assert(list[t + 1] == vacant[u + 1]);
                    assert(vacant[u] != vacant.last());
                    assert(linked[v] == old_sparse[v]);
                } else {
                    assert(vacant[u] == vacant.last());
                    K::lemma_index_nat(max_vacant);
                }
            }
        }
        assert forall|a: int, b: int|
            0 <= a < list.len() && 0 <= b < list.len() && a != b implies list[a] != list[b] by {
            if a >= m {
                assert(list[a] == vacant[a - m]);
                assert(vacant_link(old_sparse, vacant, a - m));
            } else {
                assert(list[a] == new_len - 2 - a);
            }
            if b >= m {
                assert(list[b] == vacant[b - m]);
                assert(vacant_link(old_sparse, vacant, b - m));
            } else {
                assert(list[b] == new_len - 2 - b);
            }
        }
        assert(list.no_duplicates());
        let last_item = final_sparse[new_len - 1];
        assert(item_next_vacant(last_item) == (if new_len - 1 == old_len {
            first_next as int
        } else {
            new_len - 2
        }));
        if m > 0 {
            assert(list[0] == new_len - 2);
        } else if vacant.len() > 0 {
            assert(list[0] == vacant[0]);
        }
        assert forall|i: int| 0 <= i < old_len && i != new_len implies {
            &&& (#[trigger] final_sparse[i]).epoch == old_sparse[i].epoch
            &&& old_sparse[i].kind is Occupied ==> final_sparse[i] == old_sparse[i]
            &&& old_sparse[i].kind is Vacant ==> final_sparse[i].kind is Vacant
        } by {
            assert(final_sparse[i] == linked[i]);
            if vacant.len() > 0 && i == vacant.last() {
                assert(vacant_link(old_sparse, vacant, vacant.len() - 1));
            } else {
                assert(linked[i] == old_sparse[i]);
            }
        }
    }
    Ok(())
}

/// Takes slot `sparse_index`, at position `p` of the vacant list, out of the
/// list: its predecessor (or the head) now links to `next_vacant`, the slot
/// that followed it.
fn remove_from_vacant_list<K: Key>(
    sparse: &mut Vec<SparseItem<K>>,
    sparse_vacant_head: &mut usize,
    sparse_index: usize,
    next_vacant: usize,
    Ghost(vacant): Ghost<Seq<nat>>,
    Ghost(p): Ghost<int>,
)
    requires
        vacant_chain(old(sparse)@, vacant, *old(sparse_vacant_head) as nat),
        0 <= p < vacant.len(),
        vacant[p] == sparse_index,
        next_vacant == (if p + 1 < vacant.len() {
            vacant[p + 1]
        } else {
            old(sparse)@.len()
        }),
    ensures
        vacant_chain(final(sparse)@, vacant.remove(p), *final(sparse_vacant_head) as nat),
        final(sparse)@.len() == old(sparse)@.len(),
        sparse_same_except(old(sparse)@, final(sparse)@, sparse_index as nat),
        final(sparse)@[sparse_index as int] == old(sparse)@[sparse_index as int],
{
    let ghost old_sparse = sparse@;
    let sparse_len = sparse.len();
    proof {
        assert(vacant_link(old_sparse, vacant, p));
        K::lemma_index_nat(old_sparse[sparse_index as int].kind->next_vacant);
    }
    let mut previous: Option<usize> = None;
    let mut current = *sparse_vacant_head;
    let ghost mut t: int = 0;
    while current != sparse_index
        invariant
            sparse@ == old_sparse,
            sparse_len == old_sparse.len(),
            vacant_chain(old_sparse, vacant, *sparse_vacant_head as nat),
            0 <= p < vacant.len(),
            vacant[p] == sparse_index,
            0 <= t <= p,
            current as nat == vacant[t],
            t == 0 ==> previous is None,
            t > 0 ==> previous == Some(vacant[t - 1] as usize),
        decreases p - t,
    {
        proof {
            assert(vacant_link(old_sparse, vacant, t));
            assert(t != p);
            assert(vacant_link(old_sparse, vacant, t + 1));
            assert(item_next_vacant(sparse@[current as int]) == vacant[t + 1]);
            assert(vacant[t + 1] < sparse@.len());
        }
        previous = Some(current);
        current = unwrap_into_usize::<K>(*unwrap_next_vacant(&sparse[current].kind));
        proof {
            t = t + 1;
        }
    }
    proof {
        assert(t == p);
    }
    match previous {
        Some(previous) => {
            proof {
                assert(vacant_link(old_sparse, vacant, p - 1));
            }
            let epoch = sparse[previous].epoch;
            let next = unwrap_into_index::<K>(next_vacant);
            sparse.set(previous, SparseItem::vacant(next, epoch));
        },
        None => {
            *sparse_vacant_head = next_vacant;
        },
    }
    proof {
        let list = vacant.remove(p);
        let new_sparse = sparse@;
        assert(list.len() == vacant.len() - 1);
        if p > 0 {
            assert(vacant_link(old_sparse, vacant, p - 1));
            let q = vacant[p - 1] as int;
            assert(new_sparse == old_sparse.update(
                q,
                SparseItem::<K> {
                    kind: SparseItemKind::Vacant { next_vacant: K::index_of_nat(next_vacant as nat) },
                    epoch: old_sparse[q].epoch,
                },
            ));
            K::lemma_index_of_nat(next_vacant as nat);
        } else {
            assert(new_sparse == old_sparse);
        }
        assert forall|u: int| 0 <= u < list.len() implies #[trigger] vacant_link(
            new_sparse,
            list,
            u,
        ) by {
            if u < p {
                assert(list[u] == vacant[u]);
                assert(vacant_link(old_sparse, vacant, u));
                if u + 1 < p {
                    assert(list[u + 1] == vacant[u + 1]);
                    assert(vacant[u] != vacant[p - 1]);
                    assert(new_sparse[vacant[u] as int] == old_sparse[vacant[u] as int]);
                } else {
                    assert(u == p - 1);
                    if u + 1 < list.len() {
                        assert(list[u + 1] == vacant[u + 2]);
                    }
                }
            } else {
                assert(list[u] == vacant[u + 1]);
                assert(vacant_link(old_sparse, vacant, u + 1));
                if u + 1 < list.len() {
                    assert(list[u + 1] == vacant[u + 2]);
                }
                if p > 0 {
                    assert(vacant[u + 1] != vacant[p - 1]);
                }
                assert(new_sparse[vacant[u + 1] as int] == old_sparse[vacant[u + 1] as int]);
            }
        }
        assert forall|a: int, b: int|
            0 <= a < list.len() && 0 <= b < list.len() && a != b implies list[a] != list[b] by {
            let a0 = if a < p {
                a
            } else {
                a + 1
            };
            let b0 = if b < p {
                b
            } else {
                b + 1
            };
            assert(list[a] == vacant[a0]);
            assert(list[b] == vacant[b0]);
        }
        assert(list.no_duplicates());
        if list.len() > 0 {
            if p == 0 {
                assert(list[0] == vacant[1]);
            } else {
                assert(list[0] == vacant[0]);
            }
        }
        if p > 0 {
            assert(vacant[p - 1] != vacant[p]);
        }
    }
}

/// The vacant list stays intact when the slots on it keep their items.
proof fn lemma_chain_frame<K: Key>(
    sparse: Seq<SparseItem<K>>,
    new_sparse: Seq<SparseItem<K>>,
    vacant: Seq<nat>,
    head: nat,
)
    requires
        vacant_chain(sparse, vacant, head),
        new_sparse.len() == sparse.len(),
        forall|t: int| 0 <= t < vacant.len() ==> new_sparse[#[trigger] vacant[t] as int] == sparse[vacant[t] as int],
    ensures
        vacant_chain(new_sparse, vacant, head),
{
    assert forall|t: int| 0 <= t < vacant.len() implies #[trigger] vacant_link(new_sparse, vacant, t) by {
        assert(vacant_link(sparse, vacant, t));
    }
}

/// No occupied slot is on the vacant list.
proof fn lemma_chain_excludes_occupied<K: Key>(
    sparse: Seq<SparseItem<K>>,
    vacant: Seq<nat>,
    head: nat,
    j: int,
)
    requires
        vacant_chain(sparse, vacant, head),
        0 <= j < sparse.len(),
        sparse[j].kind is Occupied,
    ensures
        forall|t: int| 0 <= t < vacant.len() ==> #[trigger] vacant[t] != j,
        !vacant.contains(j as nat),
{
    assert forall|t: int| 0 <= t < vacant.len() implies #[trigger] vacant[t] != j by {
        assert(vacant_link(sparse, vacant, t));
    }
}

/// Makes the vacant or vacated slot `sparse_index` the head of the vacant
/// list, with epoch `epoch`.
fn link_front<K: Key>(
    sparse: &mut Vec<SparseItem<K>>,
    sparse_vacant_head: &mut usize,
    sparse_index: usize,
    epoch: K::Epoch,
    Ghost(vacant): Ghost<Seq<nat>>,
)
    requires
        vacant_chain(old(sparse)@, vacant, *old(sparse_vacant_head) as nat),
        sparse_index < old(sparse)@.len(),
        !vacant.contains(sparse_index as nat),
        K::index_fits(*old(sparse_vacant_head) as nat),
    ensures
        final(sparse)@ == old(sparse)@.update(
            sparse_index as int,
            SparseItem::<K> {
                kind: SparseItemKind::Vacant {
                    next_vacant: K::index_of_nat(*old(sparse_vacant_head) as nat),
                },
                epoch,
            },
        ),
        *final(sparse_vacant_head) == sparse_index,
        vacant_chain(final(sparse)@, seq![sparse_index as nat] + vacant, sparse_index as nat),
{
    let ghost old_sparse = sparse@;
    let ghost old_head = *sparse_vacant_head;
    let next_vacant = unwrap_into_index::<K>(*sparse_vacant_head);
    sparse.set(sparse_index, SparseItem::vacant(next_vacant, epoch));
    *sparse_vacant_head = sparse_index;
    proof {
        let new_sparse = sparse@;
        let list = seq![sparse_index as nat] + vacant;
        K::lemma_index_of_nat(old_head as nat);
        assert forall|t: int| 0 <= t < list.len() implies #[trigger] vacant_link(new_sparse, list, t) by {
            if t == 0 {
                assert(list[0] == sparse_index);
                if vacant.len() > 0 {
                    assert(list[1] == vacant[0]);
                }
            } else {
                assert(list[t] == vacant[t - 1]);
                assert(vacant_link(old_sparse, vacant, t - 1));
                assert(vacant[t - 1] != sparse_index);
                if t + 1 < list.len() {
                    assert(list[t + 1] == vacant[t]);
                }
            }
        }
        assert forall|a: int, b: int|
            0 <= a < list.len() && 0 <= b < list.len() && a != b implies list[a] != list[b] by {
            if a > 0 {
                assert(list[a] == vacant[a - 1]);
            }
            if b > 0 {
                assert(list[b] == vacant[b - 1]);
            }
        }
        assert(list.no_duplicates());
    }
}

/// Makes the occupied slot `sparse_index` vacant with the epoch after `epoch`
/// and puts it at the front of the vacant list.
fn vacate_slot<K: Key>(
    sparse: &mut Vec<SparseItem<K>>,
    sparse_vacant_head: &mut usize,
    sparse_index: usize,
    epoch: K::Epoch,
    Ghost(vacant): Ghost<Seq<nat>>,
)
    requires
        vacant_chain(old(sparse)@, vacant, *old(sparse_vacant_head) as nat),
        sparse_index < old(sparse)@.len(),
        !vacant.contains(sparse_index as nat),
        K::index_fits(*old(sparse_vacant_head) as nat),
    ensures
        final(sparse)@ == old(sparse)@.update(
            sparse_index as int,
            SparseItem::<K> {
                kind: SparseItemKind::Vacant {
                    next_vacant: K::index_of_nat(*old(sparse_vacant_head) as nat),
                },
                epoch: K::spec_next_epoch(epoch),
            },
        ),
        *final(sparse_vacant_head) == sparse_index,
        vacant_chain(final(sparse)@, seq![sparse_index as nat] + vacant, sparse_index as nat),
{
    link_front(sparse, sparse_vacant_head, sparse_index, K::next_epoch(epoch), Ghost(vacant));
}

pub type SparseArena<V> = EpochSparseArena<usize, V>;

/// A sparse arena mapping keys of type `K` to values of type `V`.
pub struct EpochSparseArena<K: Key, V> {
    dense_keys: Vec<K>,
    dense_values: Vec<V>,
    sparse: Vec<SparseItem<K>>,
    sparse_vacant_head: usize,
    vacant: Ghost<Seq<nat>>,
}

impl<K: Key, V> EpochSparseArena<K, V> {
    /// The keys of the entries, in dense order.
    pub closed spec fn dense_keys_view(&self) -> Seq<K> {
        self.dense_keys@
    }

    /// The values of the entries, in dense order.
    pub closed spec fn dense_values_view(&self) -> Seq<V> {
        self.dense_values@
    }

    /// The items of the sparse array.
    pub closed spec fn sparse_view(&self) -> Seq<SparseItem<K>> {
        self.sparse@
    }

    /// The vacant slots, in the order in which `push` hands them out.
    pub closed spec fn vacant_view(&self) -> Seq<nat> {
        self.vacant@
    }

    /// The dense index that `key` resolves to, if any.
    pub open spec fn spec_lookup(&self, key: K) -> Option<nat> {
        sparse_lookup(self.sparse_view(), key)
    }

    pub open spec fn spec_len(&self) -> nat {
        self.dense_keys_view().len()
    }

    pub open spec fn spec_sparse_len(&self) -> nat {
        self.sparse_view().len()
    }

    /// The epoch of slot `j` as a number.
    pub open spec fn spec_epoch_at(&self, j: int) -> nat {
        K::epoch_nat(self.sparse_view()[j].epoch)
    }

    /// The invariant of the arena.
    pub closed spec fn wf(&self) -> bool {
        parts_wf(
            self.dense_keys@,
            self.dense_values@,
            self.sparse@,
            self.vacant@,
            self.sparse_vacant_head as nat,
        )
    }

    /// The vacant list of an arena: it starts at the slot that `push` takes,
    /// holds no slot twice, and each slot on it is vacant and links to the
    /// slot after it (the last one to the end of the sparse array); every
    /// vacant slot is on it.
    pub proof fn lemma_vacant_list(&self)
        requires
            self.wf(),
        ensures
            vacant_chain(self.sparse_view(), self.vacant_view(), self.spec_push_slot()),
            forall|j: int|
                0 <= j < self.spec_sparse_len() && (#[trigger] self.sparse_view()[j]).kind is Vacant
                    ==> self.vacant_view().contains(j as nat),
    {
    }

    /// The dense index that a key resolves to is the position of that very
    /// key among the dense keys, and the other way round.
    pub proof fn lemma_lookup(&self, key: K)
        requires
            self.wf(),
        ensures
            self.spec_lookup(key) is Some ==> {
                let d = self.spec_lookup(key)->0;
                d < self.spec_len() && self.dense_keys_view()[d as int] == key
            },
            forall|d: int|
                0 <= d < self.spec_len() && #[trigger] self.dense_keys_view()[d] == key
                    ==> self.spec_lookup(key) == Some(d as nat),
    {
        if self.spec_lookup(key) is Some {
            let d = self.spec_lookup(key)->0;
            let j = key_index(key);
            assert(sparse_ok(self.dense_keys@, self.sparse@, j as int));
            let k = self.dense_keys@[d as int];
            assert(dense_ok(self.dense_keys@, self.sparse@, d as int));
            lemma_index_injective::<K>(k.spec_sparse_index(), key.spec_sparse_index());
            lemma_key_eq_parts(k, key);
        }
        assert forall|d: int|
            0 <= d < self.spec_len() && #[trigger] self.dense_keys_view()[d] == key implies self.spec_lookup(
            key,
        ) == Some(d as nat) by {
            assert(dense_ok(self.dense_keys@, self.sparse@, d));
        }
    }

    /// The dense keys are pairwise distinct; so are their sparse indices.
    pub proof fn lemma_dense_keys_distinct(&self)
        requires
            self.wf(),
        ensures
            forall|a: int, b: int|
                0 <= a < b < self.spec_len() ==> key_index(#[trigger] self.dense_keys_view()[a])
                    != key_index(#[trigger] self.dense_keys_view()[b]),
    {
        assert forall|a: int, b: int|
            0 <= a < b < self.spec_len() implies key_index(#[trigger] self.dense_keys_view()[a])
            != key_index(#[trigger] self.dense_keys_view()[b]) by {
            assert(dense_ok(self.dense_keys@, self.sparse@, a));
            assert(dense_ok(self.dense_keys@, self.sparse@, b));
        }
    }
}

impl<K: Key, V> EpochSparseArena<K, V> {
    /// All four views of `self` and `other` agree.
    pub open spec fn spec_same(&self, other: &Self) -> bool {
        &&& self.dense_keys_view() == other.dense_keys_view()
        &&& self.dense_values_view() == other.dense_values_view()
        &&& self.sparse_view() == other.sparse_view()
        &&& self.vacant_view() == other.vacant_view()
    }

    /// The arena holds nothing, not even sparse slots.
    pub open spec fn spec_is_blank(&self) -> bool {
        &&& self.dense_keys_view() == Seq::<K>::empty()
        &&& self.dense_values_view() == Seq::<V>::empty()
        &&& self.sparse_view() == Seq::<SparseItem<K>>::empty()
        &&& self.vacant_view() == Seq::<nat>::empty()
    }

    /// The slot that `key` names exists and is newer than `key`: the key is
    /// stale and cannot store a value.
    pub open spec fn spec_slot_stale(&self, key: K) -> bool {
        let j = key_index(key);
        j < self.spec_sparse_len() && key_epoch(key) < self.spec_epoch_at(j as int)
    }

    /// The slot that `key` names holds an entry that `key` takes over.
    pub open spec fn spec_slot_taken(&self, key: K) -> bool {
        let j = key_index(key);
        &&& j < self.spec_sparse_len()
        &&& self.sparse_view()[j as int].kind is Occupied
        &&& key_epoch(key) >= self.spec_epoch_at(j as int)
    }

    /// The slot that `key` names is free for a new entry: it lies beyond the
    /// sparse array, or it is vacant and not newer than `key`.
    pub open spec fn spec_slot_free(&self, key: K) -> bool {
        let j = key_index(key);
        ||| j >= self.spec_sparse_len()
        ||| self.sparse_view()[j as int].kind is Vacant && key_epoch(key) >= self.spec_epoch_at(
            j as int,
        )
    }

    /// The key that holds the slot that `key` names.
    pub open spec fn spec_slot_holder(&self, key: K) -> K {
        self.dense_keys_view()[item_dense_index(self.sparse_view()[key_index(key) as int]) as int]
    }

    /// `new` is `self` with the entry in the slot of `key` taken over by
    /// `key` and `value`.
    pub open spec fn spec_taken_over(&self, new: &Self, key: K, value: V) -> bool {
        let j = key_index(key) as int;
        let d = item_dense_index(self.sparse_view()[j]) as int;
        &&& new.dense_keys_view() == self.dense_keys_view().update(d, key)
        &&& new.dense_values_view() == self.dense_values_view().update(d, value)
        &&& new.sparse_view() == self.sparse_view().update(
            j,
            SparseItem::<K> { kind: self.sparse_view()[j].kind, epoch: key.spec_epoch() },
        )
        &&& new.vacant_view() == self.vacant_view()
    }

    /// `new` is `self` with a new entry of `key` and `value` at the end of the
    /// dense array, in the slot of `key`.  A slot beyond the sparse array makes
    /// it grow; the slots gained in between join the front of the vacant list.
    pub open spec fn spec_opened(&self, new: &Self, key: K, value: V) -> bool {
        let j = key_index(key);
        let n = self.spec_len();
        let old_sparse_len = self.spec_sparse_len();
        &&& new.dense_keys_view() == self.dense_keys_view().push(key)
        &&& new.dense_values_view() == self.dense_values_view().push(value)
        &&& new.sparse_view()[j as int] == SparseItem::<K> {
            kind: SparseItemKind::Occupied { dense_index: K::index_of_nat(n) },
            epoch: key.spec_epoch(),
        }
        &&& sparse_same_except(self.sparse_view(), new.sparse_view(), j)
        &&& if j < old_sparse_len {
            &&& new.spec_sparse_len() == old_sparse_len
            &&& new.vacant_view() == self.vacant_view().remove_value(j)
        } else {
            &&& new.spec_sparse_len() == j + 1
            &&& forall|i: int|
                old_sparse_len <= i < j ==> (#[trigger] new.sparse_view()[i]).kind is Vacant
                    && new.sparse_view()[i].epoch == K::spec_default_epoch()
            &&& new.vacant_view() == fresh_vacant(old_sparse_len, j + 1) + self.vacant_view()
        }
    }

    /// An empty arena.
    pub fn new() -> (arena: Self)
        ensures
            arena.wf(),
            arena.spec_is_blank(),
            arena@ == Map::<K, V>::empty(),
    {
        let arena = Self {
            dense_keys: Vec::new(),
            dense_values: Vec::new(),
            sparse: Vec::new(),
            sparse_vacant_head: 0,
            vacant: Ghost(Seq::empty()),
        };
        proof {
            assert(arena@ =~= Map::<K, V>::empty());
        }
        arena
    }

    /// An empty arena with room for `dense` entries and `sparse` slots; the
    /// room asked for must fit in `isize::MAX` bytes for each array.
    pub fn with_capacity(dense: usize, sparse: usize) -> (arena: Self)
        requires
            dense * size_of::<K>() <= isize::MAX,
            dense * size_of::<V>() <= isize::MAX,
            sparse * size_of::<SparseItem<K>>() <= isize::MAX,
        ensures
            arena.wf(),
            arena.spec_is_blank(),
            arena@ == Map::<K, V>::empty(),
    {
        let arena = Self {
            dense_keys: Vec::with_capacity(dense),
            dense_values: Vec::with_capacity(dense),
            sparse: Vec::with_capacity(sparse),
            sparse_vacant_head: 0,
            vacant: Ghost(Seq::empty()),
        };
        proof {
            assert(arena@ =~= Map::<K, V>::empty());
        }
        arena
    }

    /// Reserves room for `additional_dense` more entries and
    /// `additional_sparse` more slots; the contents stay as they are.  The
    /// dense arrays are asked first: where they cannot grow the error is
    /// `Dense`, where the sparse array cannot it is `Sparse`.  A length plus
    /// the room asked for that overflows `usize` always fails.
    pub fn try_reserve(&mut self, additional_dense: usize, additional_sparse: usize) -> (result:
        Result<(), TryReserveError>)
        requires
            old(self).wf(),
        ensures
            final(self).wf(),
            final(self).spec_same(old(self)),
            result is Ok ==> old(self).spec_len() + additional_dense <= usize::MAX
                && old(self).spec_sparse_len() + additional_sparse <= usize::MAX,
            result is Ok ==> (old(self).spec_len() + additional_dense) * size_of::<K>() <= isize::MAX
                && (old(self).spec_len() + additional_dense) * size_of::<V>() <= isize::MAX
                && (old(self).spec_sparse_len() + additional_sparse) * size_of::<SparseItem<K>>() <= isize::MAX,
            old(self).spec_len() + additional_dense > usize::MAX ==> result matches Err(
                TryReserveError::Dense(_),
            ),
            result matches Err(TryReserveError::Sparse(_)) ==> old(self).spec_len() + additional_dense
                <= usize::MAX,
    {
        proof {
            self.lemma_view_domain();
        }
        if let Err(error) = vec_try_reserve(&mut self.dense_keys, additional_dense) {
            return Err(TryReserveError::Dense(error));
        }
        if let Err(error) = vec_try_reserve(&mut self.dense_values, additional_dense) {
            return Err(TryReserveError::Dense(error));
        }
        if let Err(error) = vec_try_reserve(&mut self.sparse, additional_sparse) {
            return Err(TryReserveError::Sparse(error));
        }
        Ok(())
    }

    /// Reserves room for `additional_dense` more entries and
    /// `additional_sparse` more slots, asking for no more than needed; the
    /// contents stay as they are.  The room asked for must fit in `isize::MAX`
    /// bytes for each array.
    pub fn reserve_exact(&mut self, additional_dense: usize, additional_sparse: usize)
        requires
            old(self).wf(),
            old(self).spec_len() + additional_dense <= usize::MAX,
            (old(self).spec_len() + additional_dense) * size_of::<K>() <= isize::MAX,
            (old(self).spec_len() + additional_dense) * size_of::<V>() <= isize::MAX,
            old(self).spec_sparse_len() + additional_sparse <= usize::MAX,
            (old(self).spec_sparse_len() + additional_sparse) * size_of::<SparseItem<K>>() <= isize::MAX,
        ensures
            final(self).wf(),
            final(self).spec_same(old(self)),
    {
        proof {
            self.lemma_view_domain();
        }
        vec_reserve_exact(&mut self.dense_keys, additional_dense);
        vec_reserve_exact(&mut self.dense_values, additional_dense);
        vec_reserve_exact(&mut self.sparse, additional_sparse);
    }

    /// Reserves room as `try_reserve` does, asking for no more than needed;
    /// it fails as `try_reserve` does.
    pub fn try_reserve_exact(&mut self, additional_dense: usize, additional_sparse: usize) -> (result:
        Result<(), TryReserveError>)
        requires
            old(self).wf(),
        ensures
            final(self).wf(),
            final(self).spec_same(old(self)),
            result is Ok ==> old(self).spec_len() + additional_dense <= usize::MAX
                && old(self).spec_sparse_len() + additional_sparse <= usize::MAX,
            result is Ok ==> (old(self).spec_len() + additional_dense) * size_of::<K>() <= isize::MAX
                && (old(self).spec_len() + additional_dense) * size_of::<V>() <= isize::MAX
                && (old(self).spec_sparse_len() + additional_sparse) * size_of::<SparseItem<K>>() <= isize::MAX,
            old(self).spec_len() + additional_dense > usize::MAX ==> result matches Err(
                TryReserveError::Dense(_),
            ),
            result matches Err(TryReserveError::Sparse(_)) ==> old(self).spec_len() + additional_dense
                <= usize::MAX,
    {
        proof {
            self.lemma_view_domain();
        }
        if let Err(error) = vec_try_reserve_exact(&mut self.dense_keys, additional_dense) {
            return Err(TryReserveError::Dense(error));
        }
        if let Err(error) = vec_try_reserve_exact(&mut self.dense_values, additional_dense) {
            return Err(TryReserveError::Dense(error));
        }
        if let Err(error) = vec_try_reserve_exact(&mut self.sparse, additional_sparse) {
            return Err(TryReserveError::Sparse(error));
        }
        Ok(())
    }

    /// Gives back unused room of the dense and the sparse array; the contents
    /// stay as they are.
    pub fn shrink_to_fit(&mut self)
        requires
            old(self).wf(),
        ensures
            final(self).wf(),
            final(self).spec_same(old(self)),
    {
        vec_shrink_to_fit(&mut self.dense_keys);
        vec_shrink_to_fit(&mut self.dense_values);
        vec_shrink_to_fit(&mut self.sparse);
    }

    /// Gives back unused room of the dense array; the contents stay as they
    /// are.
    pub fn dense_shrink_to_fit(&mut self)
        requires
            old(self).wf(),
        ensures
            final(self).wf(),
            final(self).spec_same(old(self)),
    {
        vec_shrink_to_fit(&mut self.dense_keys);
        vec_shrink_to_fit(&mut self.dense_values);
    }

    /// Gives back unused room of the sparse array; the contents stay as they
    /// are.
    pub fn sparse_shrink_to_fit(&mut self)
        requires
            old(self).wf(),
        ensures
            final(self).wf(),
            final(self).spec_same(old(self)),
    {
        vec_shrink_to_fit(&mut self.sparse);
    }

    /// An empty arena with room reserved as `try_reserve` does.
    pub fn try_with_capacity(dense: usize, sparse: usize) -> (result: Result<Self, TryReserveError>)
        ensures
            result is Ok ==> result->Ok_0.wf() && result->Ok_0.spec_is_blank()
                && result->Ok_0@ == Map::<K, V>::empty(),
            result is Ok ==> dense * size_of::<K>() <= isize::MAX && dense * size_of::<V>() <= isize::MAX
                && sparse * size_of::<SparseItem<K>>() <= isize::MAX,
    {
        let mut arena = Self::new();
        match arena.try_reserve(dense, sparse) {
            Ok(()) => Ok(arena),
            Err(error) => Err(error),
        }
    }

    /// Reserves room for at least `additional_dense` more entries and
    /// `additional_sparse` more slots; the contents stay as they are.  The
    /// room asked for must fit in `isize::MAX` bytes for each array.
    pub fn reserve(&mut self, additional_dense: usize, additional_sparse: usize)
        requires
            old(self).wf(),
            old(self).spec_len() + additional_dense <= usize::MAX,
            (old(self).spec_len() + additional_dense) * size_of::<K>() <= isize::MAX,
            (old(self).spec_len() + additional_dense) * size_of::<V>() <= isize::MAX,
            old(self).spec_sparse_len() + additional_sparse <= usize::MAX,
            (old(self).spec_sparse_len() + additional_sparse) * size_of::<SparseItem<K>>() <= isize::MAX,
        ensures
            final(self).wf(),
            final(self).spec_same(old(self)),
    {
        self.dense_keys.reserve(additional_dense);
        self.dense_values.reserve(additional_dense);
        self.sparse.reserve(additional_sparse);
    }

    /// The number of entries.
    pub fn len(&self) -> (len: usize)
        requires
            self.wf(),
        ensures
            len == self.spec_len(),
    {
        self.dense_keys.len()
    }

    pub fn is_empty(&self) -> (empty: bool)
        requires
            self.wf(),
        ensures
            empty == (self.spec_len() == 0),
    {
        self.len() == 0
    }

    /// The number of slots of the sparse array.
    pub fn sparse_len(&self) -> (len: usize)
        ensures
            len == self.spec_sparse_len(),
    {
        self.sparse.len()
    }

    pub fn sparse_is_empty(&self) -> (empty: bool)
        ensures
            empty == (self.spec_sparse_len() == 0),
    {
        self.sparse_len() == 0
    }

    /// The dense index that `key` resolves to.
    fn find(&self, key: &K) -> (found: Option<usize>)
        requires
            self.wf(),
        ensures
            match self.spec_lookup(*key) {
                Some(d) => found is Some && found->0 == d && d < self.spec_len(),
                None => found is None,
            },
    {
        let sparse_len = self.sparse.len();
        let dense_len = self.dense_keys.len();
        let sparse_index = match K::index_into_usize(key.sparse_index()) {
            Some(sparse_index) => sparse_index,
            None => return None,
        };
        if sparse_index >= sparse_len {
            return None;
        }
        let item = &self.sparse[sparse_index];
        if !K::epoch_eq(item.epoch, key.epoch()) {
            return None;
        }
        match &item.kind {
            SparseItemKind::Occupied { dense_index } => {
                proof {
                    assert(sparse_ok(self.dense_keys@, self.sparse@, sparse_index as int));
                }
                Some(unwrap_into_usize::<K>(*dense_index))
            },
            SparseItemKind::Vacant { .. } => None,
        }
    }

    /// The value of `key`, if the key resolves.
    pub fn get(&self, key: K) -> (value: Option<&V>)
        requires
            self.wf(),
        ensures
            value is Some == self@.contains_key(key),
            value is Some ==> *value->0 == self@[key],
    {
        match self.find(&key) {
            Some(dense_index) => {
                proof {
                    assert(self@.contains_key(key));
                    assert(self@[key] == self.dense_values@[dense_index as int]);
                }
                Some(&self.dense_values[dense_index])
            },
            None => None,
        }
    }

    /// The value of `key` for change, if the key resolves.
    pub fn get_mut(&mut self, key: K) -> (value: Option<&mut V>)
        requires
            old(self).wf(),
        ensures
            final(self).wf(),
            value is Some == old(self)@.contains_key(key),
            value is Some ==> {
                let d = old(self).spec_lookup(key)->0 as int;
                &&& *value->0 == old(self)@[key]
                &&& final(self).dense_values_view() == old(self).dense_values_view().update(
                    d,
                    *final(value->0),
                )
                &&& final(self).dense_keys_view() == old(self).dense_keys_view()
                &&& final(self).sparse_view() == old(self).sparse_view()
                &&& final(self).vacant_view() == old(self).vacant_view()
            },
            value is None ==> final(self).spec_same(old(self)),
    {
        match self.find(&key) {
            Some(dense_index) => {
                proof {
                    assert(self@.contains_key(key));
                    assert(self@[key] == self.dense_values@[dense_index as int]);
                }
                Some(&mut self.dense_values[dense_index])
            },
            None => None,
        }
    }

    /// The entry of `key`: occupied if the key resolves, vacant otherwise.  A
    /// key whose sparse index does not fit in `usize` has no entry.
    pub fn try_entry(&mut self, key: K) -> (entry: Result<Entry<'_, K, V>, TooLargeSparseIndexError<K>>)
        requires
            old(self).wf(),
        ensures
            (entry is Err) == (key_index(key) > usize::MAX),
            entry is Err ==> entry->Err_0.inner == key.spec_sparse_index() && *final(self) == *old(self),
            entry is Ok ==> (entry->Ok_0 is Occupied) == (old(self).spec_lookup(key) is Some),
            entry matches Ok(Entry::Occupied(o)) ==> {
                &&& o.key == key
                &&& old(self).spec_lookup(key) == Some(o.dense_index as nat)
                &&& o.spec_arena() == *old(self)
                &&& *final(o.arena) == *final(self)
            },
            entry matches Ok(Entry::Vacant(v)) ==> {
                &&& v.key == key
                &&& v.spec_arena() == *old(self)
                &&& *final(v.arena) == *final(self)
            },
    {
        if K::index_into_usize(key.sparse_index()).is_none() {
            return Err(TooLargeSparseIndexError::new(key.sparse_index()));
        }
        match self.find(&key) {
            Some(dense_index) => Ok(Entry::Occupied(OccupiedEntry { key, dense_index, arena: self })),
            None => Ok(Entry::Vacant(VacantEntry { key, arena: self })),
        }
    }

    /// The entry of `key`, as `try_entry` finds it; the key's sparse index
    /// must fit in `usize`.
    pub fn entry(&mut self, key: K) -> (entry: Entry<'_, K, V>)
        requires
            old(self).wf(),
            key_index(key) <= usize::MAX,
        ensures
            (entry is Occupied) == (old(self).spec_lookup(key) is Some),
            entry matches Entry::Occupied(o) ==> {
                &&& o.key == key
                &&& old(self).spec_lookup(key) == Some(o.dense_index as nat)
                &&& o.spec_arena() == *old(self)
                &&& *final(o.arena) == *final(self)
            },
            entry matches Entry::Vacant(v) ==> {
                &&& v.key == key
                &&& v.spec_arena() == *old(self)
                &&& *final(v.arena) == *final(self)
            },
    {
        match self.find(&key) {
            Some(dense_index) => Entry::Occupied(OccupiedEntry { key, dense_index, arena: self }),
            None => Entry::Vacant(VacantEntry { key, arena: self }),
        }
    }

    /// Whether `key` resolves.
    pub fn contains_key(&self, key: K) -> (contains: bool)
        requires
            self.wf(),
        ensures
            contains == self@.contains_key(key),
    {
        self.find(&key).is_some()
    }

    /// The value of `key`, which must resolve.
    pub fn index(&self, key: K) -> (value: &V)
        requires
            self.wf(),
            self@.contains_key(key),
        ensures
            *value == self@[key],
    {
        self.get(key).unwrap()
    }

    /// The value of `key` for change; the key must resolve.
    pub fn index_mut(&mut self, key: K) -> (value: &mut V)
        requires
            old(self).wf(),
            old(self)@.contains_key(key),
        ensures
            final(self).wf(),
            *value == old(self)@[key],
            final(self).dense_values_view() == old(self).dense_values_view().update(
                old(self).spec_lookup(key)->0 as int,
                *final(value),
            ),
            final(self).dense_keys_view() == old(self).dense_keys_view(),
            final(self).sparse_view() == old(self).sparse_view(),
            final(self).vacant_view() == old(self).vacant_view(),
    {
        self.get_mut(key).unwrap()
    }

    /// An occupied slot names an entry whose key is made of the slot's sparse
    /// index and epoch.
    proof fn lemma_slot_resolves(&self, j: nat)
        requires
            self.wf(),
        ensures
            slot_resolves(self.dense_keys_view(), self.sparse_view(), j),
    {
        if slot_dense_index(self.sparse@, j) is Some {
            let d = item_dense_index(self.sparse@[j as int]) as int;
            assert(sparse_ok(self.dense_keys@, self.sparse@, j as int));
            assert(dense_ok(self.dense_keys@, self.sparse@, d));
            let k = self.dense_keys@[d];
            K::lemma_index_nat(k.spec_sparse_index());
            K::lemma_key_parts(k);
        }
    }

    /// The key and the value of the entry that slot `sparse_index` names, if
    /// the slot exists and is occupied.
    pub fn get_with_key(&self, sparse_index: K::SparseIndex) -> (entry: Option<(K, &V)>)
        requires
            self.wf(),
        ensures
            entry is Some <==> slot_dense_index(self.sparse_view(), K::index_nat(sparse_index)) is Some,
            entry is Some ==> {
                let j = K::index_nat(sparse_index);
                let d = slot_dense_index(self.sparse_view(), j)->0 as int;
                let key = (entry->0).0;
                &&& key == self.dense_keys_view()[d]
                &&& key == K::spec_new(sparse_index, self.sparse_view()[j as int].epoch)
                &&& self@.contains_key(key)
                &&& *(entry->0).1 == self@[key]
            },
    {
        proof {
            self.lemma_slot_resolves(K::index_nat(sparse_index));
            self.lemma_view_domain();
        }
        sparse_get_with_key(
            self.dense_keys.as_slice(),
            self.dense_values.as_slice(),
            self.sparse.as_slice(),
            sparse_index,
        )
    }

    /// The key and the value, for change, of the entry that slot
    /// `sparse_index` names, if the slot exists and is occupied.
    pub fn get_mut_with_key(&mut self, sparse_index: K::SparseIndex) -> (entry: Option<(K, &mut V)>)
        requires
            old(self).wf(),
        ensures
            final(self).wf(),
            entry is Some <==> slot_dense_index(old(self).sparse_view(), K::index_nat(sparse_index)) is Some,
            entry is Some ==> {
                let j = K::index_nat(sparse_index);
                let d = slot_dense_index(old(self).sparse_view(), j)->0 as int;
                let key = (entry->0).0;
                &&& key == old(self).dense_keys_view()[d]
                &&& key == K::spec_new(sparse_index, old(self).sparse_view()[j as int].epoch)
                &&& old(self)@.contains_key(key)
                &&& *(entry->0).1 == old(self)@[key]
                &&& final(self).dense_values_view() == old(self).dense_values_view().update(
                    d,
                    *final((entry->0).1),
                )
                &&& final(self).dense_keys_view() == old(self).dense_keys_view()
                &&& final(self).sparse_view() == old(self).sparse_view()
                &&& final(self).vacant_view() == old(self).vacant_view()
            },
            entry is None ==> final(self).spec_same(old(self)),
    {
        proof {
            self.lemma_slot_resolves(K::index_nat(sparse_index));
            self.lemma_view_domain();
        }
        let key = match sparse_get_with_key(
            self.dense_keys.as_slice(),
            self.dense_values.as_slice(),
            self.sparse.as_slice(),
            sparse_index,
        ) {
            Some((key, _)) => key,
            None => return None,
        };
        proof {
            self.lemma_lookup(key);
            K::lemma_new_parts(sparse_index, self.sparse@[K::index_nat(sparse_index) as int].epoch);
        }
        match self.get_mut(key) {
            Some(value) => Some((key, value)),
            None => None,
        }
    }

    /// The keys of the entries, in dense order.
    pub fn as_keys_slice(&self) -> (keys: &[K])
        ensures
            keys@ == self.dense_keys_view(),
    {
        self.dense_keys.as_slice()
    }

    /// The values of the entries, in dense order.
    pub fn as_slices(&self) -> (values: &[V])
        ensures
            values@ == self.dense_values_view(),
    {
        self.dense_values.as_slice()
    }

    /// The items of the sparse array.
    pub fn as_sparse_slice(&self) -> (sparse: &[SparseItem<K>])
        ensures
            sparse@ == self.sparse_view(),
    {
        self.sparse.as_slice()
    }

    /// An arena holding `values` in this order under the keys made of the
    /// sparse indices `0, 1, ...` and the default epoch; no slot is vacant.
    pub fn from_values(values: Vec<V>) -> (arena: Self)
        requires
            values@.len() > 0 ==> K::index_fits((values@.len() - 1) as nat),
        ensures
            arena.wf(),
            arena.dense_values_view() == values@,
            arena.spec_sparse_len() == values@.len(),
            arena.vacant_view() == Seq::<nat>::empty(),
            forall|d: int|
                0 <= d < values@.len() ==> #[trigger] arena.dense_keys_view()[d] == K::spec_new(
                    K::index_of_nat(d as nat),
                    K::spec_default_epoch(),
                ),
    {
        let n = values.len();
        let mut keys: Vec<K> = Vec::new();
        let mut sparse: Vec<SparseItem<K>> = Vec::new();
        let mut d: usize = 0;
        while d < n
            invariant
                d <= n,
                n == values@.len(),
                n > 0 ==> K::index_fits((n - 1) as nat),
                keys@.len() == d,
                sparse@.len() == d,
                forall|e: int|
                    0 <= e < d ==> #[trigger] keys@[e] == K::spec_new(
                        K::index_of_nat(e as nat),
                        K::spec_default_epoch(),
                    ),
                forall|e: int|
                    0 <= e < d ==> #[trigger] sparse@[e] == (SparseItem::<K> {
                        kind: SparseItemKind::Occupied { dense_index: K::index_of_nat(e as nat) },
                        epoch: K::spec_default_epoch(),
                    }),
            decreases n - d,
        {
            proof {
                K::lemma_index_fits_below((n - 1) as nat, d as nat);
            }
            let index = unwrap_into_index::<K>(d);
            keys.push(K::new(index, K::default_epoch()));
            sparse.push(SparseItem::occupied(index, K::default_epoch()));
            d = d + 1;
        }
        let arena = Self {
            dense_keys: keys,
            dense_values: values,
            sparse,
            sparse_vacant_head: n,
            vacant: Ghost(Seq::empty()),
        };
        proof {
            assert forall|e: int| 0 <= e < n implies #[trigger] dense_ok(arena.dense_keys@, arena.sparse@, e) by {
                K::lemma_index_fits_below((n - 1) as nat, e as nat);
                K::lemma_index_of_nat(e as nat);
                K::lemma_new_parts(K::index_of_nat(e as nat), K::spec_default_epoch());
            }
            assert forall|j: int| 0 <= j < n implies #[trigger] sparse_ok(arena.dense_keys@, arena.sparse@, j) by {
                K::lemma_index_fits_below((n - 1) as nat, j as nat);
                K::lemma_index_of_nat(j as nat);
                K::lemma_new_parts(K::index_of_nat(j as nat), K::spec_default_epoch());
            }
        }
        arena
    }

    /// The entries, borrowed, in dense order.
    pub fn iter(&self) -> (entries: Vec<DenseRefs<'_, K, V>>)
        requires
            self.wf(),
        ensures
            entries@.len() == self.spec_len(),
            forall|d: int|
                0 <= d < self.spec_len() ==> *(#[trigger] entries@[d]).key == self.dense_keys_view()[d]
                    && *entries@[d].value == self.dense_values_view()[d],
    {
        let n = self.dense_keys.len();
        let values_len = self.dense_values.len();
        let mut entries: Vec<DenseRefs<'_, K, V>> = Vec::new();
        let mut d: usize = 0;
        while d < n
            invariant
                d <= n,
                n == self.dense_keys@.len(),
                values_len == self.dense_values@.len(),
                values_len == n,
                entries@.len() == d,
                forall|e: int|
                    0 <= e < d ==> *(#[trigger] entries@[e]).key == self.dense_keys@[e]
                        && *entries@[e].value == self.dense_values@[e],
            decreases n - d,
        {
            entries.push(DenseRefs::new(&self.dense_keys[d], &self.dense_values[d]));
            d = d + 1;
        }
        entries
    }

    /// The keys, in dense order, taken out of the arena.
    pub fn into_keys(self) -> (keys: Vec<K>)
        ensures
            keys@ == self.dense_keys_view(),
    {
        self.dense_keys
    }

    /// The values, in dense order, taken out of the arena.
    pub fn into_values(self) -> (values: Vec<V>)
        ensures
            values@ == self.dense_values_view(),
    {
        self.dense_values
    }

    /// The items of the sparse array, taken out of the arena.
    pub fn into_sparse_vec(self) -> (sparse: Vec<SparseItem<K>>)
        ensures
            sparse@ == self.sparse_view(),
    {
        self.sparse
    }

    /// The epoch of the slot at `sparse_index`, if the slot exists.
    pub fn get_epoch(&self, sparse_index: K::SparseIndex) -> (epoch: Option<K::Epoch>)
        requires
            self.wf(),
        ensures
            K::index_nat(sparse_index) < self.spec_sparse_len() ==> epoch == Some(
                self.sparse_view()[K::index_nat(sparse_index) as int].epoch,
            ),
            K::index_nat(sparse_index) >= self.spec_sparse_len() ==> epoch is None,
    {
        let sparse_len = self.sparse.len();
        let sparse_index = match K::index_into_usize(sparse_index) {
            Some(sparse_index) => sparse_index,
            None => return None,
        };
        if sparse_index < sparse_len {
            Some(self.sparse[sparse_index].epoch)
        } else {
            None
        }
    }
}

impl<K: Key, V> EpochSparseArena<K, V> {
    /// What `try_insert` does with `key` and `value`, given the arena before
    /// (`self`) and after (`new`) and the result.
    pub open spec fn spec_try_insert_outcome(
        &self,
        new: &Self,
        key: K,
        value: V,
        result: Result<Option<V>, TryModifyError<K, V>>,
    ) -> bool {
        let j = key_index(key);
        let n = self.spec_len();
        let too_large = TryModifyErrorKind::<K>::TooLargeSparseIndex(
            TooLargeSparseIndexError { inner: key.spec_sparse_index() },
        );
        if j > usize::MAX {
            &&& result is Err
            &&& result->Err_0.kind == too_large
            &&& result->Err_0.value == value
            &&& new.spec_same(self)
        } else if j == usize::MAX {
            &&& result is Err
            &&& (result->Err_0.kind matches TryModifyErrorKind::TryReserve(TryReserveError::Sparse(_)))
                || (size_of::<SparseItem<K>>() == 0 && result->Err_0.kind == too_large)
            &&& result->Err_0.value == value
            &&& new.spec_same(self)
        } else if self.spec_slot_stale(key) {
            &&& result matches Ok(None)
            &&& new.spec_same(self)
        } else if self.spec_slot_taken(key) {
            &&& result == Ok::<Option<V>, TryModifyError<K, V>>(
                Some(self.dense_values_view()[item_dense_index(self.sparse_view()[j as int]) as int]),
            )
            &&& self.spec_taken_over(new, key, value)
        } else {
            let reserve_failed = {
                &&& result is Err
                &&& result->Err_0.kind is TryReserve
                &&& result->Err_0.value == value
                &&& new.spec_same(self)
            };
            let grows = j >= self.spec_sparse_len();
            if grows && !K::index_fits(j + 1) {
                ||| reserve_failed
                ||| {
                    &&& result is Err
                    &&& result->Err_0.kind == TryModifyErrorKind::<K>::TooSmallSparseIndex(
                        TooSmallSparseIndexError { inner: (j + 1) as usize },
                    )
                    &&& result->Err_0.value == value
                    &&& new.spec_same(self)
                }
            } else if !K::index_fits(n) {
                ||| grows && reserve_failed
                ||| {
                    &&& result is Err
                    &&& result->Err_0.kind == TryModifyErrorKind::<K>::TooSmallSparseIndex(
                        TooSmallSparseIndexError { inner: n as usize },
                    )
                    &&& result->Err_0.value == value
                    &&& new.spec_same(self)
                }
            } else {
                ||| reserve_failed
                ||| {
                    &&& result matches Ok(None)
                    &&& self.spec_opened(new, key, value)
                }
            }
        }
    }

    /// The slot that `push` takes: the head of the vacant list, or the next
    /// slot past the sparse array when no slot is vacant.
    pub open spec fn spec_push_slot(&self) -> nat {
        if self.vacant_view().len() > 0 {
            self.vacant_view()[0]
        } else {
            self.spec_sparse_len()
        }
    }

    /// The key that `push` hands out: the slot it takes, with the slot's epoch
    /// (the default epoch for a new slot).
    pub open spec fn spec_push_key(&self) -> K {
        let h = self.spec_push_slot();
        let epoch = if self.vacant_view().len() > 0 {
            self.sparse_view()[h as int].epoch
        } else {
            K::spec_default_epoch()
        };
        K::spec_new(K::index_of_nat(h), epoch)
    }

    /// `key` takes over the entry in its slot `sparse_index`.
    fn take_over(&mut self, key: K, value: V, sparse_index: usize) -> (previous: V)
        requires
            old(self).wf(),
            old(self).spec_slot_taken(key),
            key_index(key) == sparse_index,
        ensures
            final(self).wf(),
            old(self).spec_taken_over(final(self), key, value),
            previous == old(self).dense_values_view()[item_dense_index(
                old(self).sparse_view()[sparse_index as int],
            ) as int],
            old(self)@.contains_key(old(self).spec_slot_holder(key)),
            previous == old(self)@[old(self).spec_slot_holder(key)],
            final(self)@ == old(self)@.remove(old(self).spec_slot_holder(key)).insert(key, value),
    {
        let ghost keys = self.dense_keys@;
        let ghost sparse = self.sparse@;
        let ghost vacant = self.vacant@;
        let ghost head = self.sparse_vacant_head as nat;
        let ghost j = sparse_index as int;
        let dense_len = self.dense_keys.len();
        let item = self.sparse[sparse_index];
        proof {
            assert(sparse_ok(keys, sparse, j));
        }
        let dense_index = unwrap_into_usize::<K>(*crate::asserts::unwrap_dense_index(&item.kind));
        let ghost d = dense_index as int;
        let ghost new_value = value;
        let mut value = value;
        core::mem::swap(&mut self.dense_values[dense_index], &mut value);
        self.dense_keys.set(dense_index, key);
        self.sparse.set(sparse_index, SparseItem::new(item.kind, key.epoch()));
        proof {
            let keys2 = self.dense_keys@;
            let sparse2 = self.sparse@;
            lemma_chain_excludes_occupied(sparse, vacant, head, j);
            assert forall|t: int| 0 <= t < vacant.len() implies sparse2[#[trigger] vacant[t] as int]
                == sparse[vacant[t] as int] by {
                assert(vacant_link(sparse, vacant, t));
                assert(vacant[t] != j);
            }
            lemma_chain_frame(sparse, sparse2, vacant, head);
            assert forall|e: int| 0 <= e < keys2.len() implies #[trigger] dense_ok(keys2, sparse2, e) by {
                assert(dense_ok(keys, sparse, e));
                if e != d {
                    assert(key_index(keys[e]) != j);
                }
            }
            assert forall|i: int| 0 <= i < sparse2.len() implies #[trigger] sparse_ok(
                keys2,
                sparse2,
                i,
            ) by {
                assert(sparse_ok(keys, sparse, i));
                if i != j && sparse[i].kind is Occupied {
                    assert(dense_ok(keys, sparse, item_dense_index(sparse[i]) as int));
                }
            }
            assert forall|i: int|
                0 <= i < sparse2.len() && (#[trigger] sparse2[i]).kind is Vacant implies vacant.contains(
                i as nat,
            ) by {
                assert(sparse[i] == sparse2[i]);
            }
            assert(self.wf());
            assert(self.dense_values@ == old(self).dense_values@.update(d, new_value));
            old(self).lemma_taken_over_view(self, key, new_value);
            old(self).lemma_view_domain();
        }
        value
    }

    /// A new entry for `key` and `value` in the vacant slot `sparse_index`,
    /// which leaves the vacant list.
    fn open_vacant(
        &mut self,
        key: K,
        value: V,
        sparse_index: usize,
        dense_index: K::SparseIndex,
    )
        requires
            old(self).wf(),
            key_index(key) == sparse_index,
            sparse_index < old(self).spec_sparse_len(),
            old(self).sparse_view()[sparse_index as int].kind is Vacant,
            K::index_nat(dense_index) == old(self).spec_len(),
        ensures
            final(self).wf(),
            old(self).spec_opened(final(self), key, value),
            !old(self)@.contains_key(key),
            final(self)@ == old(self)@.insert(key, value),
    {
        let ghost keys = self.dense_keys@;
        let ghost sparse = self.sparse@;
        let ghost vacant = self.vacant@;
        let ghost j = sparse_index as int;
        let sparse_len = self.sparse.len();
        let item = self.sparse[sparse_index];
        proof {
            assert(vacant.contains(j as nat));
        }
        let ghost p = choose|p: int| 0 <= p < vacant.len() && vacant[p] == j;
        proof {
            assert(vacant_link(sparse, vacant, p));
            if p + 1 < vacant.len() {
                assert(vacant_link(sparse, vacant, p + 1));
            }
        }
        let next_vacant = unwrap_into_usize::<K>(*unwrap_next_vacant(&item.kind));
        remove_from_vacant_list(
            &mut self.sparse,
            &mut self.sparse_vacant_head,
            sparse_index,
            next_vacant,
            Ghost(vacant),
            Ghost(p),
        );
        let ghost sparse1 = self.sparse@;
        let ghost list = vacant.remove(p);
        self.vacant = Ghost(list);
        self.dense_keys.push(key);
        self.dense_values.push(value);
        self.sparse.set(sparse_index, SparseItem::occupied(dense_index, key.epoch()));
        proof {
            let keys2 = self.dense_keys@;
            let sparse2 = self.sparse@;
            let n = keys.len() as int;
            K::lemma_index_nat(dense_index);
            assert forall|t: int| 0 <= t < list.len() implies sparse2[#[trigger] list[t] as int]
                == sparse1[list[t] as int] by {
                if t < p {
                    assert(list[t] == vacant[t]);
                } else {
                    assert(list[t] == vacant[t + 1]);
                }
                assert(list[t] != j);
                assert(vacant_link(sparse1, list, t));
            }
            lemma_chain_frame(sparse1, sparse2, list, self.sparse_vacant_head as nat);
            assert forall|e: int| 0 <= e < keys2.len() implies #[trigger] dense_ok(keys2, sparse2, e) by {
                if e < n {
                    assert(dense_ok(keys, sparse, e));
                    assert(keys2[e] == keys[e]);
                }
            }
            assert forall|i: int| 0 <= i < sparse2.len() implies #[trigger] sparse_ok(
                keys2,
                sparse2,
                i,
            ) by {
                assert(sparse_ok(keys, sparse, i));
                if i != j {
                    assert(sparse2[i] == sparse1[i]);
                }
            }
            assert forall|i: int|
                0 <= i < sparse2.len() && (#[trigger] sparse2[i]).kind is Vacant implies list.contains(
                i as nat,
            ) by {
                assert(sparse2[i] == sparse1[i]);
                assert(sparse[i].kind is Vacant);
                assert(vacant.contains(i as nat));
                let q = choose|q: int| 0 <= q < vacant.len() && vacant[q] == i;
                if q < p {
                    assert(list[q] == i);
                } else {
                    assert(q != p);
                    assert(list[q - 1] == i);
                }
            }
            vacant.index_of_first_ensures(j as nat);
            assert(vacant.remove_value(j as nat) == list);
            assert(self.wf());
            old(self).lemma_opened_view(self, key, value);
        }
    }

    /// A new entry for `key` and `value` in slot `sparse_index` past the end
    /// of the sparse array, which grows to `sparse_index + 1` slots.
    fn open_beyond(
        &mut self,
        key: K,
        value: V,
        sparse_index: usize,
        dense_index: K::SparseIndex,
    )
        requires
            old(self).wf(),
            key_index(key) == sparse_index,
            sparse_index >= old(self).spec_sparse_len(),
            sparse_index < usize::MAX,
            K::index_fits((sparse_index + 1) as nat),
            K::index_nat(dense_index) == old(self).spec_len(),
        ensures
            final(self).wf(),
            old(self).spec_opened(final(self), key, value),
            !old(self)@.contains_key(key),
            final(self)@ == old(self)@.insert(key, value),
    {
        let ghost keys = self.dense_keys@;
        let ghost sparse = self.sparse@;
        let ghost vacant = self.vacant@;
        let ghost j = sparse_index as int;
        let sparse_len = self.sparse.len();
        let new_sparse_len = sparse_index + 1;
        proof {
            assert forall|t: int| 0 <= t < vacant.len() implies vacant[t] < sparse.len() by {
                assert(vacant_link(sparse, vacant, t));
            }
        }
        let extended = extend_sparse(
            &mut self.sparse,
            new_sparse_len,
            &mut self.sparse_vacant_head,
            Ghost(vacant),
        );
        proof {
            assert(extended is Ok);
        }
        let ghost sparse1 = self.sparse@;
        let ghost list = fresh_vacant(sparse_len as nat, new_sparse_len as nat) + vacant;
        self.vacant = Ghost(list);
        self.dense_keys.push(key);
        self.dense_values.push(value);
        self.sparse.set(sparse_index, SparseItem::occupied(dense_index, key.epoch()));
        proof {
            let keys2 = self.dense_keys@;
            let sparse2 = self.sparse@;
            let n = keys.len() as int;
            let m = new_sparse_len - 1 - sparse_len;
            K::lemma_index_nat(dense_index);
            assert forall|t: int| 0 <= t < list.len() implies sparse2[#[trigger] list[t] as int]
                == sparse1[list[t] as int] by {
                if t < m {
                    assert(list[t] == new_sparse_len - 2 - t);
                } else {
                    assert(list[t] == vacant[t - m]);
                    assert(vacant_link(sparse, vacant, t - m));
                }
                assert(vacant_link(sparse1, list, t));
            }
            lemma_chain_frame(sparse1, sparse2, list, self.sparse_vacant_head as nat);
            assert forall|e: int| 0 <= e < keys2.len() implies #[trigger] dense_ok(keys2, sparse2, e) by {
                if e < n {
                    assert(dense_ok(keys, sparse, e));
                    assert(keys2[e] == keys[e]);
                    assert(sparse1[key_index(keys[e]) as int] == sparse[key_index(keys[e]) as int]);
                }
            }
            assert forall|i: int| 0 <= i < sparse2.len() implies #[trigger] sparse_ok(
                keys2,
                sparse2,
                i,
            ) by {
                if i < sparse_len {
                    assert(sparse_ok(keys, sparse, i));
                    assert(sparse2[i] == sparse1[i]);
                } else if i < j {
                    assert(sparse2[i] == sparse1[i]);
                }
            }
            assert forall|i: int|
                0 <= i < sparse2.len() && (#[trigger] sparse2[i]).kind is Vacant implies list.contains(
                i as nat,
            ) by {
                if i < sparse_len {
                    assert(sparse2[i] == sparse1[i]);
                    assert(sparse[i].kind is Vacant);
                    assert(vacant.contains(i as nat));
                    let q = choose|q: int| 0 <= q < vacant.len() && vacant[q] == i;
                    assert(list[m + q] == i);
                } else {
                    assert(list[new_sparse_len - 2 - i] == i);
                }
            }
            assert(self.wf());
            old(self).lemma_opened_view(self, key, value);
        }
    }

    /// Stores `value` under `key`.
    ///
    /// A key whose epoch is older than its slot's is stale: nothing is stored
    /// and `Ok(None)` comes back.  A key that names an occupied slot takes the
    /// entry over (the slot's epoch becomes the key's) and the old value comes
    /// back.  Otherwise a new entry is appended to the dense array, growing the
    /// sparse array up to the key's slot if needed.  On every error the arena
    /// is left as it was and the value is handed back.
    pub fn try_insert(&mut self, key: K, value: V) -> (result: Result<Option<V>, TryModifyError<K, V>>)
        requires
            old(self).wf(),
        ensures
            final(self).wf(),
            old(self).spec_try_insert_outcome(final(self), key, value, result),
            result is Ok && old(self).spec_slot_stale(key) ==> final(self)@ == old(self)@,
            result is Ok && old(self).spec_slot_taken(key) ==> final(self)@ == old(self)@.remove(
                old(self).spec_slot_holder(key),
            ).insert(key, value),
            result is Ok && old(self).spec_slot_free(key) ==> final(self)@ == old(self)@.insert(
                key,
                value,
            ),
            result is Err ==> final(self)@ == old(self)@,
    {
        let sparse_len = self.sparse.len();
        let dense_len = self.dense_keys.len();
        let sparse_index = match K::index_into_usize(key.sparse_index()) {
            Some(sparse_index) => sparse_index,
            None => {
                let error = TooLargeSparseIndexError::new(key.sparse_index());
                return Err(TryModifyError::new(TryModifyErrorKind::TooLargeSparseIndex(error), value));
            },
        };
        if sparse_index < sparse_len {
            let item = self.sparse[sparse_index];
            if !K::epoch_ge(key.epoch(), item.epoch) {
                return Ok(None);
            }
            if item.is_occupied() {
                let previous = self.take_over(key, value, sparse_index);
                return Ok(Some(previous));
            }
            let dense_index = match K::index_from_usize(dense_len) {
                Some(dense_index) => dense_index,
                None => {
                    let error = TooSmallSparseIndexError::new(dense_len);
                    return Err(TryModifyError::new(TryModifyErrorKind::TooSmallSparseIndex(error), value));
                },
            };
            if let Err(error) = vec_try_reserve(&mut self.dense_keys, 1) {
                let kind = TryModifyErrorKind::TryReserve(TryReserveError::Dense(error));
                return Err(TryModifyError::new(kind, value));
            }
            if let Err(error) = vec_try_reserve(&mut self.dense_values, 1) {
                let kind = TryModifyErrorKind::TryReserve(TryReserveError::Dense(error));
                return Err(TryModifyError::new(kind, value));
            }
            proof {
                K::lemma_index_of_nat(dense_len as nat);
            }
            self.open_vacant(key, value, sparse_index, dense_index);
            Ok(None)
        } else {
            if sparse_index == usize::MAX {
                // The sparse array would have to reach past `usize::MAX` items;
                // asking for room up to there fails unless the items take none.
                if let Err(error) = vec_try_reserve(&mut self.sparse, usize::MAX - sparse_len) {
                    let kind = TryModifyErrorKind::TryReserve(TryReserveError::Sparse(error));
                    return Err(TryModifyError::new(kind, value));
                }
                proof {
                    lemma_no_room_for_max::<SparseItem<K>>();
                }
                let error = TooLargeSparseIndexError::new(key.sparse_index());
                return Err(TryModifyError::new(TryModifyErrorKind::TooLargeSparseIndex(error), value));
            }
            let new_sparse_len = sparse_index + 1;
            if let Err(error) = vec_try_reserve(&mut self.sparse, new_sparse_len - sparse_len) {
                let kind = TryModifyErrorKind::TryReserve(TryReserveError::Sparse(error));
                return Err(TryModifyError::new(kind, value));
            }
            if K::index_from_usize(new_sparse_len).is_none() {
                let error = TooSmallSparseIndexError::new(new_sparse_len);
                return Err(TryModifyError::new(TryModifyErrorKind::TooSmallSparseIndex(error), value));
            }
            let dense_index = match K::index_from_usize(dense_len) {
                Some(dense_index) => dense_index,
                None => {
                    let error = TooSmallSparseIndexError::new(dense_len);
                    return Err(TryModifyError::new(TryModifyErrorKind::TooSmallSparseIndex(error), value));
                },
            };
            if let Err(error) = vec_try_reserve(&mut self.dense_keys, 1) {
                let kind = TryModifyErrorKind::TryReserve(TryReserveError::Dense(error));
                return Err(TryModifyError::new(kind, value));
            }
            if let Err(error) = vec_try_reserve(&mut self.dense_values, 1) {
                let kind = TryModifyErrorKind::TryReserve(TryReserveError::Dense(error));
                return Err(TryModifyError::new(kind, value));
            }
            proof {
                K::lemma_index_of_nat(dense_len as nat);
            }
            self.open_beyond(key, value, sparse_index, dense_index);
            Ok(None)
        }
    }

    /// Whether `insert` can store under `key` without failing: the key's slot
    /// and, for a new entry, the new dense index (and the grown sparse length)
    /// are representable.
    pub open spec fn spec_insert_fits(&self, key: K) -> bool {
        let j = key_index(key);
        &&& j < usize::MAX
        &&& self.spec_slot_free(key) ==> {
            &&& K::index_fits(self.spec_len())
            &&& j >= self.spec_sparse_len() ==> K::index_fits(j + 1)
        }
    }

    /// `new` is `self` after `insert` stored `value` under `key`: nothing
    /// changes for a stale key, the slot's entry is taken over, or a new entry
    /// is opened in a free slot.
    pub open spec fn spec_inserted(&self, new: &Self, key: K, value: V) -> bool {
        &&& new.wf()
        &&& self.spec_slot_stale(key) ==> new.spec_same(self)
        &&& self.spec_slot_taken(key) ==> self.spec_taken_over(new, key, value)
        &&& self.spec_slot_free(key) ==> self.spec_opened(new, key, value)
    }

    /// Stores `value` under `key`, as `try_insert` does where it succeeds.
    pub fn insert(&mut self, key: K, value: V) -> (previous: Option<V>)
        requires
            old(self).wf(),
            old(self).spec_insert_fits(key),
        ensures
            final(self).wf(),
            old(self).spec_slot_stale(key) ==> previous is None && final(self).spec_same(old(self)),
            old(self).spec_slot_taken(key) ==> previous == Some(
                old(self).dense_values_view()[item_dense_index(
                    old(self).sparse_view()[key_index(key) as int],
                ) as int],
            ) && old(self).spec_taken_over(final(self), key, value),
            old(self).spec_slot_free(key) ==> previous is None && old(self).spec_opened(
                final(self),
                key,
                value,
            ),
            old(self).spec_slot_stale(key) ==> final(self)@ == old(self)@,
            old(self).spec_slot_taken(key) ==> previous == Some(old(self)@[old(self).spec_slot_holder(key)])
                && final(self)@ == old(self)@.remove(old(self).spec_slot_holder(key)).insert(key, value),
            old(self).spec_slot_free(key) ==> !old(self)@.contains_key(key) && final(self)@ == old(
                self,
            )@.insert(key, value),
    {
        let sparse_len = self.sparse.len();
        let dense_len = self.dense_keys.len();
        let sparse_index = unwrap_into_usize::<K>(key.sparse_index());
        if sparse_index < sparse_len {
            let item = self.sparse[sparse_index];
            if !K::epoch_ge(key.epoch(), item.epoch) {
                return None;
            }
            if item.is_occupied() {
                let previous = self.take_over(key, value, sparse_index);
                return Some(previous);
            }
            let dense_index = unwrap_into_index::<K>(dense_len);
            self.open_vacant(key, value, sparse_index, dense_index);
            None
        } else {
            let new_sparse_len = sparse_index + 1;
            let dense_index = unwrap_into_index::<K>(dense_len);
            self.open_beyond(key, value, sparse_index, dense_index);
            None
        }
    }

    /// A new entry for `key` and `value` in a new slot past the end of the
    /// sparse array, where no slot is vacant.
    fn open_end(&mut self, key: K, value: V, dense_index: K::SparseIndex)
        requires
            old(self).wf(),
            old(self).vacant_view().len() == 0,
            key_index(key) == old(self).spec_sparse_len(),
            key.spec_epoch() == K::spec_default_epoch(),
            K::index_nat(dense_index) == old(self).spec_len(),
        ensures
            final(self).wf(),
            old(self).spec_opened(final(self), key, value),
            !old(self)@.contains_key(key),
            final(self)@ == old(self)@.insert(key, value),
    {
        let ghost keys = self.dense_keys@;
        let ghost sparse = self.sparse@;
        let ghost j = sparse.len() as int;
        self.dense_keys.push(key);
        self.dense_values.push(value);
        self.sparse.push(SparseItem::occupied(dense_index, key.epoch()));
        self.sparse_vacant_head = self.sparse.len();
        proof {
            let keys2 = self.dense_keys@;
            let sparse2 = self.sparse@;
            let n = keys.len() as int;
            K::lemma_index_nat(dense_index);
            assert forall|e: int| 0 <= e < keys2.len() implies #[trigger] dense_ok(keys2, sparse2, e) by {
                if e < n {
                    assert(dense_ok(keys, sparse, e));
                    assert(keys2[e] == keys[e]);
                }
            }
            assert forall|i: int| 0 <= i < sparse2.len() implies #[trigger] sparse_ok(
                keys2,
                sparse2,
                i,
            ) by {
                if i < j {
                    assert(sparse_ok(keys, sparse, i));
                    assert(sparse2[i] == sparse[i]);
                }
            }
            assert forall|i: int|
                0 <= i < sparse2.len() && (#[trigger] sparse2[i]).kind is Vacant implies self.vacant@.contains(
                i as nat,
            ) by {
                assert(sparse2[i] == sparse[i]);
            }
            assert(fresh_vacant(j as nat, (j + 1) as nat) =~= Seq::<nat>::empty());
            assert(fresh_vacant(j as nat, (j + 1) as nat) + self.vacant@ =~= self.vacant@);
            assert(self.wf());
            old(self).lemma_opened_view(self, key, value);
        }
    }

    /// What `try_push` does with `value`, given the arena before (`self`) and
    /// after (`new`) and the result.
    pub open spec fn spec_try_push_outcome(
        &self,
        new: &Self,
        value: V,
        result: Result<K, TryModifyError<K, V>>,
    ) -> bool {
        let h = self.spec_push_slot();
        let n = self.spec_len();
        if !K::index_fits(h) {
            &&& result is Err
            &&& result->Err_0.kind == TryModifyErrorKind::<K>::TooSmallSparseIndex(
                TooSmallSparseIndexError { inner: h as usize },
            )
            &&& result->Err_0.value == value
            &&& new.spec_same(self)
        } else if !K::index_fits(n) {
            &&& result is Err
            &&& result->Err_0.kind == TryModifyErrorKind::<K>::TooSmallSparseIndex(
                TooSmallSparseIndexError { inner: n as usize },
            )
            &&& result->Err_0.value == value
            &&& new.spec_same(self)
        } else {
            ||| {
                &&& result is Err
                &&& result->Err_0.kind is TryReserve
                &&& result->Err_0.value == value
                &&& new.spec_same(self)
            }
            ||| {
                &&& result == Ok::<K, TryModifyError<K, V>>(self.spec_push_key())
                &&& self.spec_opened(new, self.spec_push_key(), value)
            }
        }
    }

    /// Stores `value` under a new key: the head of the vacant list with its
    /// epoch, or else a new slot past the sparse array with the default epoch.
    pub fn try_push(&mut self, value: V) -> (result: Result<K, TryModifyError<K, V>>)
        requires
            old(self).wf(),
        ensures
            final(self).wf(),
            old(self).spec_try_push_outcome(final(self), value, result),
            result is Ok ==> !old(self)@.contains_key(result->Ok_0) && final(self)@ == old(self)@.insert(
                result->Ok_0,
                value,
            ),
            result is Err ==> final(self)@ == old(self)@,
    {
        let sparse_len = self.sparse.len();
        let dense_len = self.dense_keys.len();
        let head = self.sparse_vacant_head;
        let ghost vacant = self.vacant@;
        proof {
            if vacant.len() > 0 {
                assert(vacant_link(self.sparse@, vacant, 0));
            }
        }
        let sparse_index = match K::index_from_usize(head) {
            Some(sparse_index) => sparse_index,
            None => {
                let error = TooSmallSparseIndexError::new(head);
                return Err(TryModifyError::new(TryModifyErrorKind::TooSmallSparseIndex(error), value));
            },
        };
        let dense_index = match K::index_from_usize(dense_len) {
            Some(dense_index) => dense_index,
            None => {
                let error = TooSmallSparseIndexError::new(dense_len);
                return Err(TryModifyError::new(TryModifyErrorKind::TooSmallSparseIndex(error), value));
            },
        };
        if let Err(error) = vec_try_reserve(&mut self.dense_keys, 1) {
            let kind = TryModifyErrorKind::TryReserve(TryReserveError::Dense(error));
            return Err(TryModifyError::new(kind, value));
        }
        if let Err(error) = vec_try_reserve(&mut self.dense_values, 1) {
            let kind = TryModifyErrorKind::TryReserve(TryReserveError::Dense(error));
            return Err(TryModifyError::new(kind, value));
        }
        proof {
            K::lemma_index_of_nat(head as nat);
            K::lemma_index_of_nat(dense_len as nat);
        }
        if head < sparse_len {
            let epoch = self.sparse[head].epoch;
            let key = K::new(sparse_index, epoch);
            proof {
                K::lemma_new_parts(sparse_index, epoch);
            }
            self.open_vacant(key, value, head, dense_index);
            Ok(key)
        } else {
            if let Err(error) = vec_try_reserve(&mut self.sparse, 1) {
                let kind = TryModifyErrorKind::TryReserve(TryReserveError::Sparse(error));
                return Err(TryModifyError::new(kind, value));
            }
            let key = K::new(sparse_index, K::default_epoch());
            proof {
                K::lemma_new_parts(sparse_index, K::spec_default_epoch());
            }
            self.open_end(key, value, dense_index);
            Ok(key)
        }
    }

    /// Whether `push` can store a value without failing: the slot it takes and
    /// the new dense index are representable.
    pub open spec fn spec_push_fits(&self) -> bool {
        &&& K::index_fits(self.spec_push_slot())
        &&& K::index_fits(self.spec_len())
    }

    /// Stores `value` under a new key, as `try_push` does where it succeeds.
    pub fn push(&mut self, value: V) -> (key: K)
        requires
            old(self).wf(),
            old(self).spec_push_fits(),
        ensures
            final(self).wf(),
            key == old(self).spec_push_key(),
            old(self).spec_opened(final(self), key, value),
            !old(self)@.contains_key(key),
            final(self)@ == old(self)@.insert(key, value),
    {
        let sparse_len = self.sparse.len();
        let dense_len = self.dense_keys.len();
        let head = self.sparse_vacant_head;
        proof {
            if self.vacant@.len() > 0 {
                assert(vacant_link(self.sparse@, self.vacant@, 0));
            }
            K::lemma_index_of_nat(head as nat);
            K::lemma_index_of_nat(dense_len as nat);
        }
        let sparse_index = unwrap_into_index::<K>(head);
        let dense_index = unwrap_into_index::<K>(dense_len);
        if head < sparse_len {
            let epoch = self.sparse[head].epoch;
            let key = K::new(sparse_index, epoch);
            proof {
                K::lemma_new_parts(sparse_index, epoch);
            }
            self.open_vacant(key, value, head, dense_index);
            key
        } else {
            let key = K::new(sparse_index, K::default_epoch());
            proof {
                K::lemma_new_parts(sparse_index, K::spec_default_epoch());
            }
            self.open_end(key, value, dense_index);
            key
        }
    }
}

impl<K: Key, V> EpochSparseArena<K, V> {
    /// Whether a slot can be made vacant: the head of the vacant list (or the
    /// end of the sparse array) is representable as a sparse index, so that
    /// the freed slot can link to it.
    pub open spec fn spec_can_vacate(&self) -> bool {
        K::index_fits(self.spec_push_slot())
    }

    /// The sparse side of removing the entry of slot `j`, whose key had epoch
    /// `epoch`: the slot becomes vacant with the next epoch and heads the
    /// vacant list.
    pub open spec fn spec_vacated(&self, new: &Self, j: nat, epoch: K::Epoch) -> bool {
        &&& new.spec_sparse_len() == self.spec_sparse_len()
        &&& new.sparse_view()[j as int].kind is Vacant
        &&& new.sparse_view()[j as int].epoch == K::spec_next_epoch(epoch)
        &&& new.vacant_view() == seq![j] + self.vacant_view()
    }

    /// `new` is `self` without the entry at dense index `d`, whose key is
    /// `key`; the entries after it move one place down.
    pub open spec fn spec_removed(&self, new: &Self, key: K, d: nat) -> bool {
        let j = key_index(key);
        &&& new.dense_keys_view() == self.dense_keys_view().remove(d as int)
        &&& new.dense_values_view() == self.dense_values_view().remove(d as int)
        &&& self.spec_vacated(new, j, key.spec_epoch())
        &&& forall|i: int|
            0 <= i < self.spec_sparse_len() && i != j ==> {
                let old_item = self.sparse_view()[i];
                let new_item = #[trigger] new.sparse_view()[i];
                &&& new_item.epoch == old_item.epoch
                &&& old_item.kind is Vacant ==> new_item == old_item
                &&& old_item.kind is Occupied ==> new_item.kind is Occupied && item_dense_index(
                    new_item,
                ) == if item_dense_index(old_item) > d {
                    (item_dense_index(old_item) - 1) as nat
                } else {
                    item_dense_index(old_item)
                }
            }
    }

    /// Removes the entry of `key`, keeping the order of the others.
    pub fn remove(&mut self, key: K) -> (removed: Option<V>)
        requires
            old(self).wf(),
            old(self).spec_lookup(key) is Some ==> old(self).spec_can_vacate(),
        ensures
            final(self).wf(),
            match old(self).spec_lookup(key) {
                Some(d) => removed == Some(old(self).dense_values_view()[d as int])
                    && old(self).spec_removed(final(self), key, d),
                None => removed is None && final(self).spec_same(old(self)),
            },
            removed == (if old(self)@.contains_key(key) {
                Some(old(self)@[key])
            } else {
                None
            }),
            final(self)@ == old(self)@.remove(key),
    {
        let ghost keys = self.dense_keys@;
        let ghost sparse = self.sparse@;
        let ghost vacant = self.vacant@;
        let sparse_len = self.sparse.len();
        let dense_index = match self.find(&key) {
            Some(dense_index) => dense_index,
            None => return None,
        };
        let ghost d = dense_index as int;
        let ghost j = key_index(key) as int;
        let sparse_index = unwrap_into_usize::<K>(key.sparse_index());
        proof {
            self.lemma_lookup(key);
            assert(keys[d] == key);
        }
        let dense_key = self.dense_keys.remove(dense_index);
        let value = self.dense_values.remove(dense_index);
        let ghost keys1 = self.dense_keys@;
        let ghost values1 = self.dense_values@;
        let ghost head0 = self.sparse_vacant_head as nat;
        let len = self.dense_keys.len();
        let mut index = dense_index;
        while index < len
            invariant
                0 <= d <= index <= len,
                sparse_len == sparse.len(),
                len == keys1.len(),
                keys1 == keys.remove(d),
                self.dense_keys@ == keys1,
                keys.len() == len + 1,
                self.sparse@.len() == sparse.len(),
                self.dense_values@ == values1,
                values1 == old(self).dense_values@.remove(d),
                self.vacant@ == vacant,
                self.sparse_vacant_head as nat == head0,
                parts_wf(keys, old(self).dense_values@, sparse, vacant, head0),
                forall|s: int|
                    0 <= s < sparse.len() ==> #[trigger] self.sparse@[s] == (if sparse[s].kind is Occupied
                        && d < item_dense_index(sparse[s]) <= index {
                        SparseItem::<K> {
                            kind: SparseItemKind::Occupied {
                                dense_index: K::index_of_nat((item_dense_index(sparse[s]) - 1) as nat),
                            },
                            epoch: sparse[s].epoch,
                        }
                    } else {
                        sparse[s]
                    }),
            decreases len - index,
        {
            let ghost e = index as int;
            proof {
                keys.remove_ensures(d);
                assert(keys1[e] == keys[e + 1]);
                assert(dense_ok(keys, sparse, e + 1));
            }
            let moved = self.dense_keys[index];
            let moved_sparse_index = unwrap_into_usize::<K>(moved.sparse_index());
            let item = self.sparse[moved_sparse_index];
            proof {
                let s = moved_sparse_index as int;
                assert(item == sparse[s]);
                K::lemma_index_nat(sparse[s].kind->dense_index);
                K::lemma_index_fits_below(item_dense_index(sparse[s]), index as nat);
            }
            let shifted = unwrap_into_usize::<K>(*crate::asserts::unwrap_dense_index(&item.kind)) - 1;
            proof {
                K::lemma_index_nat(item.kind->dense_index);
                K::lemma_index_fits_below(item_dense_index(sparse[moved_sparse_index as int]), shifted as nat);
            }
            self.sparse.set(
                moved_sparse_index,
                SparseItem::occupied(unwrap_into_index::<K>(shifted), item.epoch),
            );
            index = index + 1;
            proof {
                let s0 = moved_sparse_index as int;
                assert forall|s: int| 0 <= s < sparse.len() implies #[trigger] self.sparse@[s] == (if sparse[s].kind
                    is Occupied && d < item_dense_index(sparse[s]) <= index {
                    SparseItem::<K> {
                        kind: SparseItemKind::Occupied {
                            dense_index: K::index_of_nat((item_dense_index(sparse[s]) - 1) as nat),
                        },
                        epoch: sparse[s].epoch,
                    }
                } else {
                    sparse[s]
                }) by {
                    if s != s0 && sparse[s].kind is Occupied && item_dense_index(sparse[s]) == index {
                        assert(sparse_ok(keys, sparse, s));
                        assert(sparse_ok(keys, sparse, s0));
                    }
                }
            }
        }
        proof {
            keys.remove_ensures(d);
            lemma_chain_excludes_occupied(sparse, vacant, self.sparse_vacant_head as nat, j);
            if vacant.len() > 0 {
                assert(vacant_link(sparse, vacant, 0));
            }
            let sparse1 = self.sparse@;
            assert forall|t: int| 0 <= t < vacant.len() implies sparse1[#[trigger] vacant[t] as int]
                == sparse[vacant[t] as int] by {
                assert(vacant_link(sparse, vacant, t));
            }
            lemma_chain_frame(sparse, sparse1, vacant, self.sparse_vacant_head as nat);
        }
        vacate_slot(
            &mut self.sparse,
            &mut self.sparse_vacant_head,
            sparse_index,
            key.epoch(),
            Ghost(vacant),
        );
        self.vacant = Ghost(seq![j as nat] + vacant);
        proof {
            let keys2 = self.dense_keys@;
            let sparse2 = self.sparse@;
            let list = self.vacant@;
            keys.remove_ensures(d);
            old(self).dense_values@.remove_ensures(d);
            assert(sparse_ok(keys, sparse, j));
            assert forall|e: int| 0 <= e < keys2.len() implies #[trigger] dense_ok(keys2, sparse2, e) by {
                if e < d {
                    assert(keys2[e] == keys[e]);
                    assert(dense_ok(keys, sparse, e));
                } else {
                    assert(keys2[e] == keys[e + 1]);
                    assert(dense_ok(keys, sparse, e + 1));
                    let s1 = key_index(keys[e + 1]) as int;
                    K::lemma_index_nat(sparse[s1].kind->dense_index);
                    K::lemma_index_fits_below((e + 1) as nat, e as nat);
                    K::lemma_index_of_nat(e as nat);
                }
            }
            assert forall|i: int| 0 <= i < sparse2.len() implies #[trigger] sparse_ok(
                keys2,
                sparse2,
                i,
            ) by {
                assert(sparse_ok(keys, sparse, i));
                if i != j && sparse[i].kind is Occupied {
                    let e0 = item_dense_index(sparse[i]) as int;
                    assert(e0 != d);
                    K::lemma_index_nat(sparse[i].kind->dense_index);
                    if e0 > d {
                        K::lemma_index_fits_below(e0 as nat, (e0 - 1) as nat);
                        K::lemma_index_of_nat((e0 - 1) as nat);
                        assert(keys2[e0 - 1] == keys[e0]);
                    } else {
                        assert(keys2[e0] == keys[e0]);
                    }
                }
            }
            assert forall|i: int|
                0 <= i < sparse2.len() && (#[trigger] sparse2[i]).kind is Vacant implies list.contains(
                i as nat,
            ) by {
                if i == j {
                    assert(list[0] == j);
                } else {
                    assert(sparse[i].kind is Vacant);
                    let q = choose|q: int| 0 <= q < vacant.len() && vacant[q] == i;
                    assert(list[q + 1] == i);
                }
            }
            assert forall|i: int| 0 <= i < sparse.len() && i != j implies {
                let old_item = sparse[i];
                let new_item = #[trigger] sparse2[i];
                &&& new_item.epoch == old_item.epoch
                &&& old_item.kind is Vacant ==> new_item == old_item
                &&& old_item.kind is Occupied ==> new_item.kind is Occupied && item_dense_index(new_item)
                    == if item_dense_index(old_item) > d {
                    (item_dense_index(old_item) - 1) as nat
                } else {
                    item_dense_index(old_item)
                }
            } by {
                if sparse[i].kind is Occupied && item_dense_index(sparse[i]) > d {
                    assert(sparse_ok(keys, sparse, i));
                    K::lemma_index_nat(sparse[i].kind->dense_index);
                    K::lemma_index_fits_below(item_dense_index(sparse[i]), (item_dense_index(sparse[i]) - 1) as nat);
                    K::lemma_index_of_nat((item_dense_index(sparse[i]) - 1) as nat);
                }
            }
            assert(keys2.len() == self.dense_values@.len());
            assert(vacant_chain(sparse2, list, self.sparse_vacant_head as nat));
            assert(self.wf());
            assert(dense_key == key);
            assert(old(self).spec_removed(self, key, d as nat));
            old(self).lemma_removed_view(self, key, d as nat);
        }
        Some(value)
    }
}

impl<K: Key, V> EpochSparseArena<K, V> {
    /// `new` is `self` without the entry at dense index `d`, whose key is
    /// `key`; the last entry takes its place.
    pub open spec fn spec_swap_removed(&self, new: &Self, key: K, d: nat) -> bool {
        let j = key_index(key);
        let last = self.spec_len() - 1;
        &&& new.dense_keys_view() == self.dense_keys_view().update(
            d as int,
            self.dense_keys_view().last(),
        ).drop_last()
        &&& new.dense_values_view() == self.dense_values_view().update(
            d as int,
            self.dense_values_view().last(),
        ).drop_last()
        &&& self.spec_vacated(new, j, key.spec_epoch())
        &&& forall|i: int|
            0 <= i < self.spec_sparse_len() && i != j ==> {
                let old_item = self.sparse_view()[i];
                let new_item = #[trigger] new.sparse_view()[i];
                &&& new_item.epoch == old_item.epoch
                &&& old_item.kind is Vacant ==> new_item == old_item
                &&& old_item.kind is Occupied ==> new_item.kind is Occupied && item_dense_index(
                    new_item,
                ) == if item_dense_index(old_item) == last {
                    d
                } else {
                    item_dense_index(old_item)
                }
            }
    }

    /// Removes the entry of `key`; the last entry moves into its place.
    pub fn swap_remove(&mut self, key: K) -> (removed: Option<V>)
        requires
            old(self).wf(),
            old(self).spec_lookup(key) is Some ==> old(self).spec_can_vacate(),
        ensures
            final(self).wf(),
            match old(self).spec_lookup(key) {
                Some(d) => removed == Some(old(self).dense_values_view()[d as int])
                    && old(self).spec_swap_removed(final(self), key, d),
                None => removed is None && final(self).spec_same(old(self)),
            },
            removed == (if old(self)@.contains_key(key) {
                Some(old(self)@[key])
            } else {
                None
            }),
            final(self)@ == old(self)@.remove(key),
    {
        let ghost keys = self.dense_keys@;
        let ghost values = self.dense_values@;
        let ghost sparse = self.sparse@;
        let ghost vacant = self.vacant@;
        let ghost head = self.sparse_vacant_head as nat;
        let sparse_len = self.sparse.len();
        let dense_index = match self.find(&key) {
            Some(dense_index) => dense_index,
            None => return None,
        };
        let ghost d = dense_index as int;
        let ghost j = key_index(key) as int;
        let ghost n = keys.len() as int;
        let sparse_index = unwrap_into_usize::<K>(key.sparse_index());
        proof {
            self.lemma_lookup(key);
            assert(keys[d] == key);
            assert(dense_ok(keys, sparse, n - 1));
        }
        let dense_key = self.dense_keys.swap_remove(dense_index);
        let value = self.dense_values.swap_remove(dense_index);
        let ghost s_last = key_index(keys[n - 1]) as int;
        if dense_index < self.dense_keys.len() {
            let moved = self.dense_keys[dense_index];
            let moved_sparse_index = unwrap_into_usize::<K>(moved.sparse_index());
            let item = self.sparse[moved_sparse_index];
            proof {
                assert(moved == keys[n - 1]);
                K::lemma_index_nat(sparse[s_last].kind->dense_index);
                K::lemma_index_fits_below((n - 1) as nat, d as nat);
                K::lemma_index_of_nat(d as nat);
            }
            self.sparse.set(
                moved_sparse_index,
                SparseItem::occupied(unwrap_into_index::<K>(dense_index), item.epoch),
            );
        }
        let ghost sparse1 = self.sparse@;
        proof {
            lemma_chain_excludes_occupied(sparse, vacant, head, j);
            lemma_chain_excludes_occupied(sparse, vacant, head, s_last);
            if vacant.len() > 0 {
                assert(vacant_link(sparse, vacant, 0));
            }
            assert forall|t: int| 0 <= t < vacant.len() implies sparse1[#[trigger] vacant[t] as int]
                == sparse[vacant[t] as int] by {
                assert(vacant_link(sparse, vacant, t));
            }
            lemma_chain_frame(sparse, sparse1, vacant, head);
        }
        vacate_slot(
            &mut self.sparse,
            &mut self.sparse_vacant_head,
            sparse_index,
            key.epoch(),
            Ghost(vacant),
        );
        self.vacant = Ghost(seq![j as nat] + vacant);
        proof {
            let keys2 = self.dense_keys@;
            let sparse2 = self.sparse@;
            let list = self.vacant@;
            assert(sparse_ok(keys, sparse, j));
            assert(sparse_ok(keys, sparse, s_last));
            assert forall|e: int| 0 <= e < keys2.len() implies #[trigger] dense_ok(keys2, sparse2, e) by {
                if e == d {
                    assert(keys2[e] == keys[n - 1]);
                    assert(dense_ok(keys, sparse, n - 1));
                    K::lemma_index_nat(sparse[s_last].kind->dense_index);
                    K::lemma_index_fits_below((n - 1) as nat, d as nat);
                    K::lemma_index_of_nat(d as nat);
                } else {
                    assert(keys2[e] == keys[e]);
                    assert(dense_ok(keys, sparse, e));
                }
            }
            assert forall|i: int| 0 <= i < sparse2.len() implies #[trigger] sparse_ok(
                keys2,
                sparse2,
                i,
            ) by {
                assert(sparse_ok(keys, sparse, i));
                if i != j && sparse[i].kind is Occupied {
                    let e0 = item_dense_index(sparse[i]) as int;
                    if e0 == n - 1 {
                        K::lemma_index_nat(sparse[s_last].kind->dense_index);
                        K::lemma_index_fits_below((n - 1) as nat, d as nat);
                        K::lemma_index_of_nat(d as nat);
                    } else {
                        assert(keys2[e0] == keys[e0]);
                    }
                }
            }
            assert forall|i: int|
                0 <= i < sparse2.len() && (#[trigger] sparse2[i]).kind is Vacant implies list.contains(
                i as nat,
            ) by {
                if i == j {
                    assert(list[0] == j);
                } else {
                    assert(sparse[i].kind is Vacant);
                    let q = choose|q: int| 0 <= q < vacant.len() && vacant[q] == i;
                    assert(list[q + 1] == i);
                }
            }
            assert forall|i: int| 0 <= i < sparse.len() && i != j implies {
                let old_item = sparse[i];
                let new_item = #[trigger] sparse2[i];
                &&& new_item.epoch == old_item.epoch
                &&& old_item.kind is Vacant ==> new_item == old_item
                &&& old_item.kind is Occupied ==> new_item.kind is Occupied && item_dense_index(new_item)
                    == if item_dense_index(old_item) == n - 1 {
                    d as nat
                } else {
                    item_dense_index(old_item)
                }
            } by {
                if sparse[i].kind is Occupied && item_dense_index(sparse[i]) == n - 1 {
                    assert(sparse_ok(keys, sparse, i));
                    K::lemma_index_nat(sparse[s_last].kind->dense_index);
                    K::lemma_index_fits_below((n - 1) as nat, d as nat);
                    K::lemma_index_of_nat(d as nat);
                }
            }
            assert(vacant_chain(sparse2, list, self.sparse_vacant_head as nat));
            assert(self.wf());
            assert(dense_key == key);
            assert(old(self).spec_swap_removed(self, key, d as nat));
            old(self).lemma_swap_removed_view(self, key, d as nat);
        }
        Some(value)
    }

    /// Removes the last entry of the dense array and hands back its key and
    /// value.
    pub fn pop(&mut self) -> (popped: Option<(K, V)>)
        requires
            old(self).wf(),
            old(self).spec_len() > 0 ==> old(self).spec_can_vacate(),
        ensures
            final(self).wf(),
            old(self).spec_len() == 0 ==> popped is None && final(self).spec_same(old(self)),
            old(self).spec_len() > 0 ==> {
                let key = old(self).dense_keys_view().last();
                let j = key_index(key);
                &&& popped == Some((key, old(self).dense_values_view().last()))
                &&& final(self).dense_keys_view() == old(self).dense_keys_view().drop_last()
                &&& final(self).dense_values_view() == old(self).dense_values_view().drop_last()
                &&& old(self).spec_vacated(final(self), j, key.spec_epoch())
                &&& forall|i: int|
                    0 <= i < old(self).spec_sparse_len() && i != j ==> #[trigger] final(self).sparse_view()[i]
                        == old(self).sparse_view()[i]
            },
            popped matches Some((k, v)) ==> old(self)@.contains_key(k) && old(self)@[k] == v
                && final(self)@ == old(self)@.remove(k),
    {
        let ghost keys = self.dense_keys@;
        let ghost sparse = self.sparse@;
        let ghost vacant = self.vacant@;
        let ghost head = self.sparse_vacant_head as nat;
        let sparse_len = self.sparse.len();
        let key = match self.dense_keys.pop() {
            Some(key) => key,
            None => return None,
        };
        let value = self.dense_values.pop().unwrap();
        let ghost n = keys.len() as int;
        let ghost j = key_index(key) as int;
        proof {
            assert(dense_ok(keys, sparse, n - 1));
            lemma_chain_excludes_occupied(sparse, vacant, head, j);
            if vacant.len() > 0 {
                assert(vacant_link(sparse, vacant, 0));
            }
        }
        let sparse_index = unwrap_into_usize::<K>(key.sparse_index());
        vacate_slot(
            &mut self.sparse,
            &mut self.sparse_vacant_head,
            sparse_index,
            key.epoch(),
            Ghost(vacant),
        );
        self.vacant = Ghost(seq![j as nat] + vacant);
        proof {
            let keys2 = self.dense_keys@;
            let sparse2 = self.sparse@;
            let list = self.vacant@;
            assert forall|e: int| 0 <= e < keys2.len() implies #[trigger] dense_ok(keys2, sparse2, e) by {
                assert(keys2[e] == keys[e]);
                assert(dense_ok(keys, sparse, e));
            }
            assert forall|i: int| 0 <= i < sparse2.len() implies #[trigger] sparse_ok(
                keys2,
                sparse2,
                i,
            ) by {
                assert(sparse_ok(keys, sparse, i));
                if i != j && sparse[i].kind is Occupied {
                    assert(keys2[item_dense_index(sparse[i]) as int] == keys[item_dense_index(
                        sparse[i],
                    ) as int]);
                }
            }
            assert forall|i: int|
                0 <= i < sparse2.len() && (#[trigger] sparse2[i]).kind is Vacant implies list.contains(
                i as nat,
            ) by {
                if i == j {
                    assert(list[0] == j);
                } else {
                    assert(sparse[i].kind is Vacant);
                    let q = choose|q: int| 0 <= q < vacant.len() && vacant[q] == i;
                    assert(list[q + 1] == i);
                }
            }
            assert(vacant_chain(sparse2, list, self.sparse_vacant_head as nat));
            assert(self.wf());
            old(self).lemma_popped_view(self);
            old(self).lemma_view_domain();
            assert(old(self).dense_keys_view()[n - 1] == key);
        }
        Some((key, value))
    }
}

/// The sparse indices of `keys`, in order.
pub open spec fn key_slots<K: Key>(keys: Seq<K>) -> Seq<nat> {
    keys.map_values(|k: K| key_index(k))
}

/// Freeing the slot of one more key, front to back, puts it before the slots
/// freed so far.
proof fn lemma_key_slots_step<K: Key>(keys: Seq<K>, i: int)
    requires
        0 <= i < keys.len(),
    ensures
        key_slots(keys.subrange(0, i + 1)).reverse() == seq![key_index(keys[i])] + key_slots(
            keys.subrange(0, i),
        ).reverse(),
{
    let a = key_slots(keys.subrange(0, i + 1)).reverse();
    let b = seq![key_index(keys[i])] + key_slots(keys.subrange(0, i)).reverse();
    assert(a.len() == b.len());
    assert forall|k: int| 0 <= k < a.len() implies a[k] == b[k] by {
        if k > 0 {
            assert(b[k] == key_slots(keys.subrange(0, i)).reverse()[k - 1]);
        }
    }
    assert(a =~= b);
}

impl<K: Key, V> EpochSparseArena<K, V> {
    /// The sparse side of removing every entry, front to back: each slot of an
    /// entry becomes vacant with the next epoch, and the slots join the front
    /// of the vacant list, the last entry's slot first.
    pub open spec fn spec_all_vacated(&self, new: &Self) -> bool {
        &&& new.spec_sparse_len() == self.spec_sparse_len()
        &&& new.vacant_view() == key_slots(self.dense_keys_view()).reverse() + self.vacant_view()
        &&& forall|i: int|
            0 <= i < self.spec_sparse_len() ==> {
                let old_item = self.sparse_view()[i];
                let new_item = #[trigger] new.sparse_view()[i];
                &&& new_item.kind is Vacant
                &&& old_item.kind is Vacant ==> new_item == old_item
                &&& old_item.kind is Occupied ==> new_item.epoch == K::spec_next_epoch(old_item.epoch)
            }
    }

    /// Frees the slots of all entries, front to back; the dense array is left
    /// as it is.
    fn vacate_all(&mut self)
        requires
            old(self).wf(),
            old(self).spec_len() > 0 ==> old(self).spec_can_vacate(),
        ensures
            final(self).dense_keys_view() == old(self).dense_keys_view(),
            final(self).dense_values_view() == old(self).dense_values_view(),
            old(self).spec_all_vacated(final(self)),
            parts_wf(
                Seq::<K>::empty(),
                Seq::<V>::empty(),
                final(self).sparse@,
                final(self).vacant@,
                final(self).sparse_vacant_head as nat,
            ),
    {
        let ghost keys = self.dense_keys@;
        let ghost sparse = self.sparse@;
        let ghost vacant = self.vacant@;
        let sparse_len = self.sparse.len();
        let len = self.dense_keys.len();
        proof {
            if vacant.len() > 0 {
                assert(vacant_link(sparse, vacant, 0));
            }
            assert(key_slots(keys.subrange(0, 0)).reverse() + vacant =~= vacant);
        }
        let mut index: usize = 0;
        while index < len
            invariant
                0 <= index <= len,
                len == keys.len(),
                sparse_len == sparse.len(),
                self.dense_keys@ == keys,
                self.dense_values@ == old(self).dense_values@,
                parts_wf(keys, old(self).dense_values@, sparse, vacant, old(self).sparse_vacant_head as nat),
                self.sparse@.len() == sparse.len(),
                self.vacant@ == key_slots(keys.subrange(0, index as int)).reverse() + vacant,
                vacant_chain(self.sparse@, self.vacant@, self.sparse_vacant_head as nat),
                len > 0 ==> K::index_fits(self.sparse_vacant_head as nat),
                forall|s: int|
                    0 <= s < sparse.len() ==> {
                        let old_item = sparse[s];
                        let new_item = #[trigger] self.sparse@[s];
                        if old_item.kind is Occupied && item_dense_index(old_item) < index {
                            new_item.kind is Vacant && new_item.epoch == K::spec_next_epoch(old_item.epoch)
                        } else {
                            new_item == old_item
                        }
                    },
                forall|s: int|
                    0 <= s < sparse.len() && (#[trigger] self.sparse@[s]).kind is Vacant
                        ==> self.vacant@.contains(s as nat),
            decreases len - index,
        {
            let key = self.dense_keys[index];
            let ghost e = index as int;
            let ghost j = key_index(key) as int;
            proof {
                assert(dense_ok(keys, sparse, e));
                assert(self.sparse@[j] == sparse[j]);
                lemma_chain_excludes_occupied(self.sparse@, self.vacant@, self.sparse_vacant_head as nat, j);
                K::lemma_index_nat(key.spec_sparse_index());
            }
            let sparse_index = unwrap_into_usize::<K>(key.sparse_index());
            let ghost list = self.vacant@;
            let ghost before = self.sparse@;
            vacate_slot(
                &mut self.sparse,
                &mut self.sparse_vacant_head,
                sparse_index,
                key.epoch(),
                Ghost(list),
            );
            self.vacant = Ghost(seq![j as nat] + list);
            index = index + 1;
            proof {
                lemma_key_slots_step(keys, e);
                let prefix = key_slots(keys.subrange(0, e)).reverse();
                assert((seq![j as nat] + prefix) + vacant =~= seq![j as nat] + (prefix + vacant));
                assert forall|s: int| 0 <= s < sparse.len() implies {
                    let old_item = sparse[s];
                    let new_item = #[trigger] self.sparse@[s];
                    if old_item.kind is Occupied && item_dense_index(old_item) < index {
                        new_item.kind is Vacant && new_item.epoch == K::spec_next_epoch(old_item.epoch)
                    } else {
                        new_item == old_item
                    }
                } by {
                    assert(sparse_ok(keys, sparse, s));
                    if s != j {
                        assert(self.sparse@[s] == before[s]);
                    }
                }
                assert forall|s: int|
                    0 <= s < sparse.len() && (#[trigger] self.sparse@[s]).kind is Vacant
                        implies self.vacant@.contains(s as nat) by {
                    if s == j {
                        assert(self.vacant@[0] == j);
                    } else {
                        assert(self.sparse@[s] == before[s]);
                        assert(list.contains(s as nat));
                        let q = choose|q: int| 0 <= q < list.len() && list[q] == s;
                        assert(self.vacant@[q + 1] == s);
                    }
                }
            }
        }
        proof {
            assert(keys.subrange(0, len as int) =~= keys);
            assert(key_slots(keys.subrange(0, len as int)) == key_slots(keys));
            assert forall|i: int| 0 <= i < sparse.len() implies {
                let old_item = sparse[i];
                let new_item = #[trigger] self.sparse@[i];
                &&& new_item.kind is Vacant
                &&& old_item.kind is Vacant ==> new_item == old_item
                &&& old_item.kind is Occupied ==> new_item.epoch == K::spec_next_epoch(old_item.epoch)
            } by {
                assert(sparse_ok(keys, sparse, i));
            }
            assert forall|s: int| 0 <= s < sparse.len() implies #[trigger] sparse_ok(
                Seq::<K>::empty(),
                self.sparse@,
                s,
            ) by {
                assert(sparse_ok(keys, sparse, s));
            }
        }
    }

    /// Removes every entry; each slot of an entry becomes vacant with the
    /// next epoch, so that no key of the arena resolves any more.
    pub fn clear(&mut self)
        requires
            old(self).wf(),
            old(self).spec_len() > 0 ==> old(self).spec_can_vacate(),
        ensures
            final(self).wf(),
            final(self).dense_keys_view() == Seq::<K>::empty(),
            final(self).dense_values_view() == Seq::<V>::empty(),
            old(self).spec_all_vacated(final(self)),
            final(self)@ == Map::<K, V>::empty(),
    {
        self.vacate_all();
        self.dense_keys.clear();
        self.dense_values.clear();
        proof {
            self.lemma_view_domain();
            assert(self@ =~= Map::<K, V>::empty());
        }
    }

    /// Removes every entry as `clear` does and hands back the keys and the
    /// values, in dense order.
    pub fn drain(&mut self) -> (drained: (Vec<K>, Vec<V>))
        requires
            old(self).wf(),
            old(self).spec_len() > 0 ==> old(self).spec_can_vacate(),
        ensures
            final(self).wf(),
            final(self).dense_keys_view() == Seq::<K>::empty(),
            final(self).dense_values_view() == Seq::<V>::empty(),
            old(self).spec_all_vacated(final(self)),
            drained.0@ == old(self).dense_keys_view(),
            drained.1@ == old(self).dense_values_view(),
            final(self)@ == Map::<K, V>::empty(),
    {
        self.vacate_all();
        let mut keys = Vec::new();
        let mut values = Vec::new();
        core::mem::swap(&mut keys, &mut self.dense_keys);
        core::mem::swap(&mut values, &mut self.dense_values);
        proof {
            self.lemma_view_domain();
            assert(self@ =~= Map::<K, V>::empty());
        }
        (keys, values)
    }

    /// Removes every entry and every slot.
    pub fn clear_sparse(&mut self)
        ensures
            final(self).wf(),
            final(self).spec_is_blank(),
    {
        self.sparse.clear();
        self.sparse_vacant_head = 0;
        self.dense_keys.clear();
        self.dense_values.clear();
        self.vacant = Ghost(Seq::empty());
    }
}

impl<K: Key, V> EpochSparseArena<K, V> {
    /// The dense keys are pairwise distinct.
    pub proof fn lemma_keys_unique(&self)
        requires
            self.wf(),
        ensures
            self.dense_keys_view().no_duplicates(),
    {
        self.lemma_dense_keys_distinct();
        assert forall|a: int, b: int|
            0 <= a < self.spec_len() && 0 <= b < self.spec_len() && a != b implies self.dense_keys_view()[a]
            != self.dense_keys_view()[b] by {
            if a < b {
                assert(key_index(self.dense_keys_view()[a]) != key_index(self.dense_keys_view()[b]));
            } else {
                assert(key_index(self.dense_keys_view()[b]) != key_index(self.dense_keys_view()[a]));
            }
        }
    }

    /// The keys that resolve are exactly the dense keys, each with the value
    /// at its place; there are as many values as keys.
    pub proof fn lemma_view_domain(&self)
        requires
            self.wf(),
        ensures
            self.dense_values_view().len() == self.spec_len(),
            self@.dom() == self.dense_keys_view().to_set(),
            forall|d: int|
                0 <= d < self.spec_len() ==> self@[#[trigger] self.dense_keys_view()[d]]
                    == self.dense_values_view()[d],
    {
        assert forall|k: K| self@.dom().contains(k) <==> self.dense_keys_view().to_set().contains(k) by {
            self.lemma_lookup(k);
            if self@.dom().contains(k) {
                let d = self.spec_lookup(k)->0;
                assert(self.dense_keys_view()[d as int] == k);
            }
            if self.dense_keys_view().to_set().contains(k) {
                let d = choose|d: int| 0 <= d < self.spec_len() && self.dense_keys_view()[d] == k;
                assert(self.spec_lookup(k) == Some(d as nat));
            }
        }
        assert(self@.dom() =~= self.dense_keys_view().to_set());
        assert forall|d: int| 0 <= d < self.spec_len() implies self@[#[trigger] self.dense_keys_view()[d]]
            == self.dense_values_view()[d] by {
            let k = self.dense_keys_view()[d];
            self.lemma_lookup(k);
            assert(self.spec_lookup(k) == Some(d as nat));
        }
    }

    /// The number of entries is the number of keys that resolve.
    pub proof fn lemma_len_is_entry_count(&self)
        requires
            self.wf(),
        ensures
            self@.dom().finite(),
            self@.dom().len() == self.spec_len(),
    {
        self.lemma_view_domain();
        self.lemma_keys_unique();
        self.dense_keys_view().unique_seq_to_set();
        vstd::seq_lib::seq_to_set_is_finite(self.dense_keys_view());
    }

    /// A new entry (`spec_opened`) in a free slot adds exactly the pair
    /// `key`, `value`; the key did not resolve before.
    pub proof fn lemma_opened_view(&self, new: &Self, key: K, value: V)
        requires
            self.wf(),
            new.wf(),
            key_index(key) >= self.spec_sparse_len() || self.sparse_view()[key_index(key) as int].kind is Vacant,
            self.spec_opened(new, key, value),
        ensures
            !self@.contains_key(key),
            new@ == self@.insert(key, value),
    {
        let n = self.spec_len();
        let j = key_index(key);
        self.lemma_lookup(key);
        if self@.contains_key(key) {
            let d = self.spec_lookup(key)->0;
            assert(dense_ok(self.dense_keys@, self.sparse@, d as int));
        }
        assert forall|k: K| #[trigger] new@.contains_key(k) == self@.insert(key, value).contains_key(k)
            && (new@.contains_key(k) ==> new@[k] == self@.insert(key, value)[k]) by {
            self.lemma_lookup(k);
            new.lemma_lookup(k);
            if k == key {
                assert(new.dense_keys_view()[n as int] == key);
                assert(new.spec_lookup(k) == Some(n));
            } else {
                if self.spec_lookup(k) is Some {
                    let d = self.spec_lookup(k)->0;
                    assert(new.dense_keys_view()[d as int] == k);
                    assert(new.spec_lookup(k) == Some(d));
                }
                if new.spec_lookup(k) is Some {
                    let d = new.spec_lookup(k)->0;
                    assert(new.dense_keys_view()[d as int] == k);
                    assert(d < n);
                    assert(self.dense_keys_view()[d as int] == k);
                    assert(self.spec_lookup(k) == Some(d));
                }
            }
        }
        assert(new@ =~= self@.insert(key, value));
    }

    /// Taking an entry over (`spec_taken_over`) replaces the pair of the key
    /// that held the slot with the pair `key`, `value`.
    pub proof fn lemma_taken_over_view(&self, new: &Self, key: K, value: V)
        requires
            self.wf(),
            new.wf(),
            self.spec_slot_taken(key),
            self.spec_taken_over(new, key, value),
        ensures
            ({
                let holder = self.dense_keys_view()[item_dense_index(
                    self.sparse_view()[key_index(key) as int],
                ) as int];
                &&& self@.contains_key(holder)
                &&& key_index(holder) == key_index(key)
                &&& new@ == self@.remove(holder).insert(key, value)
            }),
    {
        let j = key_index(key) as int;
        let d = item_dense_index(self.sparse@[j]) as int;
        assert(sparse_ok(self.dense_keys@, self.sparse@, j));
        let holder = self.dense_keys@[d];
        self.lemma_lookup(holder);
        self.lemma_keys_unique();
        new.lemma_keys_unique();
        assert(self.spec_lookup(holder) == Some(d as nat));
        assert forall|k: K| #[trigger] new@.contains_key(k) == self@.remove(holder).insert(
            key,
            value,
        ).contains_key(k) && (new@.contains_key(k) ==> new@[k] == self@.remove(holder).insert(
            key,
            value,
        )[k]) by {
            self.lemma_lookup(k);
            new.lemma_lookup(k);
            if k == key {
                assert(new.dense_keys_view()[d] == key);
                assert(new.spec_lookup(k) == Some(d as nat));
            } else if k == holder {
                if new.spec_lookup(k) is Some {
                    let e = new.spec_lookup(k)->0 as int;
                    assert(new.dense_keys_view()[e] == k);
                    assert(e != d);
                    assert(self.dense_keys_view()[e] == holder);
                    assert(self.dense_keys_view()[d] == holder);
                }
            } else {
                if self.spec_lookup(k) is Some {
                    let e = self.spec_lookup(k)->0;
                    assert(e != d);
                    assert(new.dense_keys_view()[e as int] == k);
                    assert(new.spec_lookup(k) == Some(e));
                }
                if new.spec_lookup(k) is Some {
                    let e = new.spec_lookup(k)->0;
                    assert(e != d);
                    assert(self.dense_keys_view()[e as int] == k);
                    assert(self.spec_lookup(k) == Some(e));
                }
            }
        }
        assert(new@ =~= self@.remove(holder).insert(key, value));
    }

    /// The pairs that stay after removing the entry at dense index `d` are
    /// those of every other key.
    proof fn lemma_removed_at_view(
        &self,
        new: &Self,
        d: int,
        position: spec_fn(int) -> int,
        back: spec_fn(int) -> int,
    )
        requires
            self.wf(),
            new.wf(),
            0 <= d < self.spec_len(),
            new.spec_len() + 1 == self.spec_len(),
            forall|e: int|
                0 <= e < new.spec_len() ==> {
                    let p = #[trigger] position(e);
                    &&& 0 <= p < self.spec_len()
                    &&& p != d
                    &&& new.dense_keys_view()[e] == self.dense_keys_view()[p]
                    &&& new.dense_values_view()[e] == self.dense_values_view()[p]
                },
            forall|p: int|
                0 <= p < self.spec_len() && p != d ==> {
                    let e = #[trigger] back(p);
                    0 <= e < new.spec_len() && position(e) == p
                },
        ensures
            new@ == self@.remove(self.dense_keys_view()[d]),
    {
        let key = self.dense_keys_view()[d];
        self.lemma_keys_unique();
        assert forall|k: K| #[trigger] new@.contains_key(k) == self@.remove(key).contains_key(k) && (
        new@.contains_key(k) ==> new@[k] == self@.remove(key)[k]) by {
            self.lemma_lookup(k);
            new.lemma_lookup(k);
            if new.spec_lookup(k) is Some {
                let e = new.spec_lookup(k)->0 as int;
                let p = position(e);
                assert(self.dense_keys_view()[p] == k);
                assert(self.spec_lookup(k) == Some(p as nat));
                assert(k != key);
            }
            if k != key && self.spec_lookup(k) is Some {
                let p = self.spec_lookup(k)->0 as int;
                assert(p != d);
                let e = back(p);
                assert(new.dense_keys_view()[e] == k);
                assert(new.spec_lookup(k) == Some(e as nat));
            }
        }
        assert(new@ =~= self@.remove(key));
    }

    /// `remove` takes exactly the pair of `key` out.
    pub proof fn lemma_removed_view(&self, new: &Self, key: K, d: nat)
        requires
            self.wf(),
            new.wf(),
            self.spec_lookup(key) == Some(d),
            self.spec_removed(new, key, d),
        ensures
            new@ == self@.remove(key),
    {
        self.lemma_lookup(key);
        self.dense_keys_view().remove_ensures(d as int);
        self.dense_values_view().remove_ensures(d as int);
        let position = |e: int| if e < d { e } else { e + 1 };
        let back = |p: int| if p < d { p } else { p - 1 };
        self.lemma_removed_at_view(new, d as int, position, back);
    }

    /// `swap_remove` takes exactly the pair of `key` out.
    pub proof fn lemma_swap_removed_view(&self, new: &Self, key: K, d: nat)
        requires
            self.wf(),
            new.wf(),
            self.spec_lookup(key) == Some(d),
            self.spec_swap_removed(new, key, d),
        ensures
            new@ == self@.remove(key),
    {
        self.lemma_lookup(key);
        let n = self.spec_len() as int;
        let position = |e: int| if e == d { n - 1 } else { e };
        let back = |p: int| if p == n - 1 { d as int } else { p };
        self.lemma_removed_at_view(new, d as int, position, back);
    }

    /// `pop` takes exactly the pair of the last key out.
    pub proof fn lemma_popped_view(&self, new: &Self)
        requires
            self.wf(),
            new.wf(),
            self.spec_len() > 0,
            new.dense_keys_view() == self.dense_keys_view().drop_last(),
            new.dense_values_view() == self.dense_values_view().drop_last(),
        ensures
            new@ == self@.remove(self.dense_keys_view().last()),
    {
        let n = self.spec_len() as int;
        let position = |e: int| e;
        self.lemma_removed_at_view(new, n - 1, position, position);
    }
}

/// `order` lists each of `0..n` exactly once.
pub open spec fn is_permutation(order: Seq<usize>, n: nat) -> bool {
    &&& order.len() == n
    &&& order.no_duplicates()
    &&& forall|e: int| 0 <= e < n ==> #[trigger] order[e] < n
    &&& forall|d: usize| d < n ==> #[trigger] order.contains(d)
}

/// One past the largest sparse index among the first `n` keys; 0 for none.
pub open spec fn keys_span<K: Key>(keys: Seq<K>, n: nat) -> nat
    decreases n,
{
    if n == 0 {
        0
    } else {
        let rest = keys_span(keys, (n - 1) as nat);
        let end = key_index(keys[n - 1]) + 1;
        if end > rest {
            end
        } else {
            rest
        }
    }
}

/// The vacant list of the arena that `from_parts` builds from `keys`, after
/// the first `n` keys: each key in turn takes its slot off the list, or grows
/// the sparse array to reach it, the slots gained in between joining the
/// front of the list, highest first.
pub open spec fn parts_vacant<K: Key>(keys: Seq<K>, n: nat) -> Seq<nat>
    decreases n,
{
    if n == 0 {
        Seq::empty()
    } else {
        let before = parts_vacant(keys, (n - 1) as nat);
        let span = keys_span(keys, (n - 1) as nat);
        let j = key_index(keys[n - 1]);
        if j < span {
            before.remove_value(j)
        } else {
            fresh_vacant(span, j + 1) + before
        }
    }
}

/// Every key among the first `n` lies below their span, and a nonempty span
/// ends just after one of them.
proof fn lemma_keys_span<K: Key>(keys: Seq<K>, n: nat)
    requires
        n <= keys.len(),
    ensures
        forall|i: int| 0 <= i < n ==> key_index(#[trigger] keys[i]) < keys_span(keys, n),
        n > 0 ==> exists|i: int| 0 <= i < n && keys_span(keys, n) == key_index(#[trigger] keys[i]) + 1,
    decreases n,
{
    if n > 0 {
        lemma_keys_span(keys, (n - 1) as nat);
        let last = (n - 1) as int;
        if key_index(keys[last]) + 1 > keys_span(keys, (n - 1) as nat) {
            assert(keys_span(keys, n) == key_index(keys[last]) + 1);
        } else {
            let i = choose|i: int|
                0 <= i < n - 1 && keys_span(keys, (n - 1) as nat) == key_index(#[trigger] keys[i]) + 1;
            assert(keys_span(keys, n) == key_index(keys[i]) + 1);
        }
    }
}

impl<K: Key, V> EpochSparseArena<K, V> {
    /// The dense part (the keys and the values, in dense order) and the sparse
    /// part of the arena.
    pub fn into_parts(self) -> (parts: ((Vec<K>, Vec<V>), Vec<SparseItem<K>>))
        ensures
            (parts.0).0@ == self.dense_keys_view(),
            (parts.0).1@ == self.dense_values_view(),
            parts.1@ == self.sparse_view(),
    {
        ((self.dense_keys, self.dense_values), self.sparse)
    }

    /// An arena made of a dense part (keys and values, in dense order) and a
    /// sparse part, which must agree as `check_parts` checks.  The dense part
    /// is kept as it is; the sparse part is built anew from the keys, in dense
    /// order: it reaches just past the largest sparse index of a key, and its
    /// vacant slots carry the default epoch.
    pub fn from_parts(dense: (Vec<K>, Vec<V>), sparse: Vec<SparseItem<K>>) -> (result: Result<
        Self,
        FromPartsError<K>,
    >)
        requires
            dense.0@.len() == dense.1@.len(),
        ensures
            parts_error(dense.0@, sparse@) is Some ==> result is Err && result->Err_0 == parts_error(
                dense.0@,
                sparse@,
            )->0,
            parts_error(dense.0@, sparse@) is None ==> (result is Err <==> exists|d: int|
                0 <= d < dense.0@.len() && !K::index_fits(key_index(#[trigger] dense.0@[d]) + 1)),
            parts_error(dense.0@, sparse@) is None && result is Err ==> exists|d: int|
                0 <= d < dense.0@.len() && !K::index_fits(key_index(#[trigger] dense.0@[d]) + 1)
                    && result->Err_0 == FromPartsError::<K>::TooSmallSparseIndex(
                    TooSmallSparseIndexError { inner: (key_index(dense.0@[d]) + 1) as usize },
                ),
            result is Ok ==> {
                let arena = result->Ok_0;
                &&& arena.wf()
                &&& arena.dense_keys_view() == dense.0@
                &&& arena.dense_values_view() == dense.1@
                &&& arena.spec_sparse_len() == keys_span(dense.0@, dense.0@.len())
                &&& arena.vacant_view() == parts_vacant(dense.0@, dense.0@.len())
                &&& forall|j: int|
                    0 <= j < arena.spec_sparse_len() && (#[trigger] arena.sparse_view()[j]).kind is Vacant
                        ==> arena.sparse_view()[j].epoch == K::spec_default_epoch()
                &&& arena@.dom() == dense.0@.to_set()
                &&& forall|d: int| 0 <= d < dense.0@.len() ==> arena@[#[trigger] dense.0@[d]] == dense.1@[d]
            },
    {
        let (keys, mut values) = dense;
        let dense_len = keys.len();
        let input_len = sparse.len();
        let ghost input_sparse = sparse@;
        let ghost all_values = values@;
        if let Err(error) = check_parts(keys.as_slice(), sparse.as_slice()) {
            return Err(error);
        }
        // The values in reverse, so that `pop` hands them out in dense order.
        let mut pending: Vec<V> = Vec::new();
        while values.len() > 0
            invariant
                values@ + pending@.reverse() == all_values,
            decreases values@.len(),
        {
            let ghost before = values@;
            let ghost pending_before = pending@;
            let value = values.pop().unwrap();
            pending.push(value);
            proof {
                assert(pending@.reverse() =~= seq![value] + pending_before.reverse());
                assert(before =~= values@.push(value));
                assert(values@ + pending@.reverse() =~= before + pending_before.reverse());
            }
        }
        proof {
            assert(pending@.reverse() =~= all_values);
            assert(all_values.subrange(0, dense_len as int).reverse() =~= pending@) by {
                assert(all_values.subrange(0, dense_len as int) =~= all_values);
                assert(pending@.reverse().reverse() =~= pending@);
            }
            assert(keys@.subrange(0, 0) =~= Seq::<K>::empty());
            assert(all_values.subrange(0, 0) =~= Seq::<V>::empty());
        }
        let mut arena = Self::new();
        let mut d: usize = 0;
        while d < dense_len
            invariant
                d <= dense_len,
                dense_len == keys@.len(),
                keys@ == dense.0@,
                sparse@ == input_sparse,
                keys@.len() == all_values.len(),
                input_len == input_sparse.len(),
                parts_error(keys@, input_sparse) is None,
                parts_consistent(keys@, input_sparse),
                arena.wf(),
                arena.dense_keys_view() == keys@.subrange(0, d as int),
                arena.dense_values_view() == all_values.subrange(0, d as int),
                pending@ == all_values.subrange(d as int, dense_len as int).reverse(),
                arena.spec_sparse_len() == keys_span(keys@, d as nat),
                arena.vacant_view() == parts_vacant(keys@, d as nat),
                forall|i: int| 0 <= i < d ==> K::index_fits(key_index(#[trigger] keys@[i]) + 1),
                forall|j: int|
                    0 <= j < arena.spec_sparse_len() && (#[trigger] arena.sparse_view()[j]).kind is Vacant
                        ==> arena.sparse_view()[j].epoch == K::spec_default_epoch(),
            decreases dense_len - d,
        {
            let key = keys[d];
            let ghost rest = pending@;
            let value = pending.pop().unwrap();
            let sparse_len = arena.sparse.len();
            let ghost j = key_index(key);
            proof {
                assert(rest.last() == all_values[d as int]);
                assert(pending@ =~= all_values.subrange(d + 1, dense_len as int).reverse());
                assert(dense_ok(keys@, input_sparse, d as int));
                K::lemma_index_nat(input_sparse[j as int].kind->dense_index);
                lemma_keys_span(keys@, d as nat);
            }
            let sparse_index = unwrap_into_usize::<K>(key.sparse_index());
            let dense_index = unwrap_into_index::<K>(d);
            let ghost old_arena = arena;
            if sparse_index < sparse_len {
                proof {
                    if arena.sparse_view()[j as int].kind is Occupied {
                        assert(sparse_ok(arena.dense_keys_view(), arena.sparse_view(), j as int));
                        let e = item_dense_index(arena.sparse_view()[j as int]) as int;
                        assert(arena.dense_keys_view()[e] == keys@[e]);
                        assert(dense_ok(keys@, input_sparse, e));
                    }
                    let i = choose|i: int|
                        0 <= i < d && keys_span(keys@, d as nat) == key_index(#[trigger] keys@[i]) + 1;
                    K::lemma_index_fits_below(key_index(keys@[i]) + 1, j + 1);
                }
                arena.open_vacant(key, value, sparse_index, dense_index);
            } else {
                let new_sparse_len = sparse_index + 1;
                if K::index_from_usize(new_sparse_len).is_none() {
                    let error = TooSmallSparseIndexError::new(new_sparse_len);
                    return Err(FromPartsError::TooSmallSparseIndex(error));
                }
                arena.open_beyond(key, value, sparse_index, dense_index);
            }
            proof {
                assert(arena.dense_keys_view() =~= keys@.subrange(0, d + 1));
                assert(arena.dense_values_view() =~= all_values.subrange(0, d + 1));
                assert(keys@[d as int] == key);
                assert(arena.vacant_view() == parts_vacant(keys@, (d + 1) as nat));
                assert forall|i: int|
                    0 <= i < arena.spec_sparse_len() && (#[trigger] arena.sparse_view()[i]).kind is Vacant
                        implies arena.sparse_view()[i].epoch == K::spec_default_epoch() by {
                    if i < old_arena.spec_sparse_len() {
                        assert(old_arena.sparse_view()[i].kind is Vacant);
                    }
                }
            }
            d = d + 1;
        }
        proof {
            assert(keys@.subrange(0, dense_len as int) =~= keys@);
            assert(all_values.subrange(0, dense_len as int) =~= all_values);
            arena.lemma_view_domain();
        }
        Ok(arena)
    }
}

impl<K: Key, V> EpochSparseArena<K, V> {
    /// The parts of an arena pass `check_parts`: taken apart, an arena can be
    /// put together again (unless a key has the largest representable sparse
    /// index, so that the sparse array cannot reach past it).
    pub proof fn lemma_parts_check(&self)
        requires
            self.wf(),
            forall|d: int|
                0 <= d < self.spec_len() ==> K::index_fits(key_index(#[trigger] self.dense_keys_view()[d]) + 1),
        ensures
            parts_error(self.dense_keys_view(), self.sparse_view()) is None,
            !(exists|d: int|
                0 <= d < self.spec_len() && !K::index_fits(key_index(#[trigger] self.dense_keys_view()[d]) + 1)),
    {
        let keys = self.dense_keys@;
        let sparse = self.sparse@;
        self.lemma_slots_fit();
        assert(self.dense_keys.len() == keys.len());
        assert(self.sparse.len() == sparse.len());
        crate::algo::lemma_parts_error(keys, sparse);
    }

    /// The dense and the sparse part of an arena agree as `check_parts`
    /// requires.
    pub proof fn lemma_parts_agree(&self)
        requires
            self.wf(),
        ensures
            parts_consistent(self.dense_keys_view(), self.sparse_view()),
    {
        self.lemma_slots_fit();
    }

    /// Every slot index of an arena is representable.
    pub proof fn lemma_slots_fit(&self)
        requires
            self.wf(),
        ensures
            self.spec_sparse_len() > 0 ==> K::index_fits((self.spec_sparse_len() - 1) as nat),
    {
        let keys = self.dense_keys@;
        let sparse = self.sparse@;
        let len = sparse.len();
        if len > 0 {
            let last = (len - 1) as int;
            if self.vacant@.len() > 0 {
                let t = self.vacant@.len() - 1;
                assert(vacant_link(sparse, self.vacant@, t));
                K::lemma_index_nat(sparse[self.vacant@[t] as int].kind->next_vacant);
                K::lemma_index_fits_below(len, (len - 1) as nat);
            } else {
                assert(sparse[last].kind is Occupied);
                assert(sparse_ok(keys, sparse, last));
                let d = item_dense_index(sparse[last]) as int;
                K::lemma_index_nat(keys[d].spec_sparse_index());
            }
        }
    }

    /// Removing a key that was just added undoes the addition: the same
    /// entries are left, and as many of them.
    pub proof fn lemma_remove_undoes_insert(&self, inserted: &Self, removed: &Self, key: K, value: V)
        requires
            self.wf(),
            inserted.wf(),
            removed.wf(),
            !self@.contains_key(key),
            inserted@ == self@.insert(key, value),
            removed@ == inserted@.remove(key),
        ensures
            removed@ == self@,
            removed.spec_len() == self.spec_len(),
    {
        assert(removed@ =~= self@);
        self.lemma_len_is_entry_count();
        removed.lemma_len_is_entry_count();
    }

    /// A removed key stays stale: after `remove`, the key that `push` hands
    /// out next is another key, unless the slot's epoch comes back to the
    /// removed key's epoch in one step (as for keys without epochs).
    pub proof fn lemma_push_after_remove(&self, new: &Self, key: K, d: nat)
        requires
            self.wf(),
            self.spec_lookup(key) == Some(d),
            self.spec_removed(new, key, d),
            K::spec_next_epoch(key.spec_epoch()) != key.spec_epoch(),
        ensures
            new.spec_push_key() != key,
    {
        let j = key_index(key);
        assert(new.vacant_view()[0] == j);
        K::lemma_new_parts(K::index_of_nat(j), new.sparse_view()[j as int].epoch);
    }

    /// The entries of an arena are determined by its dense part: two arenas
    /// with the same keys and values in the same order hold the same entries.
    pub proof fn lemma_view_determined_by_dense(&self, other: &Self)
        requires
            self.wf(),
            other.wf(),
            self.dense_keys_view() == other.dense_keys_view(),
            self.dense_values_view() == other.dense_values_view(),
        ensures
            self@ == other@,
    {
        self.lemma_view_domain();
        other.lemma_view_domain();
        assert forall|k: K| #[trigger] self@.contains_key(k) implies self@[k] == other@[k] by {
            let d = choose|d: int| 0 <= d < self.spec_len() && self.dense_keys_view()[d] == k;
            assert(self@[self.dense_keys_view()[d]] == self.dense_values_view()[d]);
            assert(other@[other.dense_keys_view()[d]] == other.dense_values_view()[d]);
        }
        assert(self@ =~= other@);
    }
}

/// The elements of `s` among its first `n` whose flag in `keep` is set, in
/// order.
pub open spec fn kept<T>(s: Seq<T>, keep: Seq<bool>, n: nat) -> Seq<T>
    decreases n,
{
    if n == 0 {
        Seq::empty()
    } else {
        let rest = kept(s, keep, (n - 1) as nat);
        if keep[n - 1] {
            rest.push(s[n - 1])
        } else {
            rest
        }
    }
}

/// The slots of the keys among the first `n` whose flag in `keep` is unset,
/// the last one first.
pub open spec fn removed_slots<K: Key>(keys: Seq<K>, keep: Seq<bool>, n: nat) -> Seq<nat>
    decreases n,
{
    if n == 0 {
        Seq::empty()
    } else {
        let rest = removed_slots(keys, keep, (n - 1) as nat);
        if keep[n - 1] {
            rest
        } else {
            seq![key_index(keys[n - 1])] + rest
        }
    }
}

/// `kept` looks at the first `n` elements and flags only.
pub(crate) proof fn lemma_kept_agree<T>(s1: Seq<T>, k1: Seq<bool>, s2: Seq<T>, k2: Seq<bool>, n: nat)
    requires
        forall|i: int| #![trigger s1[i]] #![trigger k1[i]] 0 <= i < n ==> s1[i] == s2[i] && k1[i] == k2[i],
    ensures
        kept(s1, k1, n) == kept(s2, k2, n),
    decreases n,
{
    if n > 0 {
        lemma_kept_agree(s1, k1, s2, k2, (n - 1) as nat);
    }
}

/// `removed_slots` looks at the first `n` keys and flags only.
proof fn lemma_removed_slots_agree<K: Key>(k1: Seq<K>, f1: Seq<bool>, k2: Seq<K>, f2: Seq<bool>, n: nat)
    requires
        forall|i: int| #![trigger k1[i]] #![trigger f1[i]] 0 <= i < n ==> k1[i] == k2[i] && f1[i] == f2[i],
    ensures
        removed_slots(k1, f1, n) == removed_slots(k2, f2, n),
    decreases n,
{
    if n > 0 {
        lemma_removed_slots_agree(k1, f1, k2, f2, (n - 1) as nat);
    }
}

/// How many elements `kept` keeps does not depend on the elements.
pub(crate) proof fn lemma_kept_len<A, B>(s: Seq<A>, t: Seq<B>, keep: Seq<bool>, n: nat)
    ensures
        kept(s, keep, n).len() == kept(t, keep, n).len(),
        kept(s, keep, n).len() <= n,
    decreases n,
{
    if n > 0 {
        lemma_kept_len(s, t, keep, (n - 1) as nat);
    }
}

/// A kept element `i` lands at the position given by the number of kept
/// elements before it.
pub(crate) proof fn lemma_kept_index<T>(s: Seq<T>, keep: Seq<bool>, n: nat, i: int)
    requires
        0 <= i < n,
        keep[i],
    ensures
        kept(s, keep, i as nat).len() < kept(s, keep, n).len(),
        kept(s, keep, n)[kept(s, keep, i as nat).len() as int] == s[i],
    decreases n,
{
    if i < n - 1 {
        lemma_kept_index(s, keep, (n - 1) as nat, i);
    }
}

/// Every position of `kept` holds a kept element.
pub(crate) proof fn lemma_kept_origin<T>(s: Seq<T>, keep: Seq<bool>, n: nat, e: int)
    requires
        0 <= e < kept(s, keep, n).len(),
    ensures
        exists|i: int| 0 <= i < n && keep[i] && #[trigger] kept(s, keep, i as nat).len() == e,
    decreases n,
{
    let rest = kept(s, keep, (n - 1) as nat);
    if keep[n - 1] && e == rest.len() {
        assert(kept(s, keep, (n - 1) as nat).len() == e);
    } else {
        lemma_kept_origin(s, keep, (n - 1) as nat, e);
    }
}

/// The slot of every removed key is among the removed slots.
proof fn lemma_removed_slots_contain<K: Key>(keys: Seq<K>, keep: Seq<bool>, n: nat, i: int)
    requires
        0 <= i < n,
        !keep[i],
    ensures
        removed_slots(keys, keep, n).contains(key_index(keys[i])),
    decreases n,
{
    let rest = removed_slots(keys, keep, (n - 1) as nat);
    if i == n - 1 {
        assert(removed_slots(keys, keep, n)[0] == key_index(keys[i]));
    } else {
        lemma_removed_slots_contain(keys, keep, (n - 1) as nat, i);
        let q = choose|q: int| 0 <= q < rest.len() && rest[q] == key_index(keys[i]);
        if keep[n - 1] {
            assert(removed_slots(keys, keep, n)[q] == key_index(keys[i]));
        } else {
            assert(removed_slots(keys, keep, n)[q + 1] == key_index(keys[i]));
        }
    }
}

/// Clearing the flag of a kept element takes it out of `kept` at its
/// position.
proof fn lemma_kept_clear<T>(s: Seq<T>, keep: Seq<bool>, m: nat, i: int)
    requires
        0 <= i < m,
        m <= keep.len(),
        keep[i],
    ensures
        kept(s, keep.update(i, false), m) == kept(s, keep, m).remove(kept(s, keep, i as nat).len() as int),
    decreases m,
{
    let cleared = keep.update(i, false);
    let prev = kept(s, keep, (m - 1) as nat);
    if i == m - 1 {
        lemma_kept_agree(s, cleared, s, keep, (m - 1) as nat);
        assert(prev.push(s[i]).remove(prev.len() as int) =~= prev);
    } else {
        lemma_kept_clear(s, keep, (m - 1) as nat, i);
        lemma_kept_index(s, keep, (m - 1) as nat, i);
        let c = kept(s, keep, i as nat).len() as int;
        assert(cleared[m - 1] == keep[m - 1]);
        if keep[m - 1] {
            assert(prev.push(s[m - 1]).remove(c) =~= prev.remove(c).push(s[m - 1]));
        }
    }
}

/// With every flag set, `kept` keeps the whole prefix.
pub(crate) proof fn lemma_kept_all<T>(s: Seq<T>, keep: Seq<bool>, m: nat)
    requires
        m <= s.len(),
        forall|i: int| 0 <= i < m ==> #[trigger] keep[i],
    ensures
        kept(s, keep, m) == s.subrange(0, m as int),
    decreases m,
{
    if m > 0 {
        lemma_kept_all(s, keep, (m - 1) as nat);
        assert(s.subrange(0, m - 1).push(s[m - 1]) =~= s.subrange(0, m as int));
    } else {
        assert(s.subrange(0, 0) =~= Seq::<T>::empty());
    }
}

/// The flags of the keys whose slots lie below `low` or at or past `high`.
pub open spec fn slot_window<K: Key>(keys: Seq<K>, low: nat, high: nat) -> Seq<bool> {
    Seq::new(keys.len(), |i: int| key_index(keys[i]) < low || key_index(keys[i]) >= high)
}

/// The flags of the keys whose slots lie below `bound`.
pub open spec fn slots_below<K: Key>(keys: Seq<K>, bound: nat) -> Seq<bool> {
    Seq::new(keys.len(), |i: int| key_index(keys[i]) < bound)
}

/// The elements of `v` in reverse order.
pub(crate) fn reversed<T>(v: Vec<T>) -> (r: Vec<T>)
    ensures
        r@ == v@.reverse(),
{
    let ghost all = v@;
    let mut v = v;
    let mut r: Vec<T> = Vec::new();
    while v.len() > 0
        invariant
            v@ + r@.reverse() == all,
        decreases v@.len(),
    {
        let ghost before = v@;
        let ghost r_before = r@;
        let value = v.pop().unwrap();
        r.push(value);
        proof {
            assert(r@.reverse() =~= seq![value] + r_before.reverse());
            assert(before =~= v@.push(value));
            assert(v@ + r@.reverse() =~= before + r_before.reverse());
        }
    }
    proof {
        assert(v@ + r@.reverse() =~= r@.reverse());
        assert(r@.reverse().reverse() =~= r@);
    }
    r
}

impl<K: Key, V> EpochSparseArena<K, V> {
    /// The sparse side of `retain` with the answers `keep`: the slot of a
    /// kept entry holds its new dense index, the slot of a dropped one is
    /// vacant with the next epoch, and the dropped slots join the front of the
    /// vacant list, the last one first.
    pub open spec fn spec_retained(&self, new: &Self, keep: Seq<bool>) -> bool {
        let keys = self.dense_keys_view();
        let n = keys.len();
        &&& new.spec_sparse_len() == self.spec_sparse_len()
        &&& new.vacant_view() == removed_slots(keys, keep, n) + self.vacant_view()
        &&& forall|j: int|
            0 <= j < self.spec_sparse_len() ==> {
                let old_item = self.sparse_view()[j];
                let new_item = #[trigger] new.sparse_view()[j];
                let i = item_dense_index(old_item) as int;
                &&& old_item.kind is Vacant ==> new_item == old_item
                &&& old_item.kind is Occupied && keep[i] ==> new_item == SparseItem::<K> {
                    kind: SparseItemKind::Occupied {
                        dense_index: K::index_of_nat(kept(keys, keep, i as nat).len()),
                    },
                    epoch: old_item.epoch,
                }
                &&& old_item.kind is Occupied && !keep[i] ==> new_item.kind is Vacant
                    && new_item.epoch == K::spec_next_epoch(old_item.epoch)
            }
    }

    /// Keeps the entries for which `f` answers `true`, in their dense order,
    /// and removes the others (their slots move to the next epoch).  `f` sees
    /// every entry once, front to back.
    pub fn retain<F: Fn(K, &V) -> bool>(&mut self, f: F)
        requires
            old(self).wf(),
            old(self).spec_len() > 0 ==> old(self).spec_can_vacate(),
            forall|key: K, value: &V| call_requires(f, (key, value)),
        ensures
            final(self).wf(),
            exists|keep: Seq<bool>|
                #![trigger old(self).spec_retained(final(self), keep)]
                {
                    &&& keep.len() == old(self).spec_len()
                    &&& forall|d: int|
                        0 <= d < old(self).spec_len() ==> call_ensures(
                            f,
                            (old(self).dense_keys_view()[d], &old(self).dense_values_view()[d]),
                            #[trigger] keep[d],
                        )
                    &&& final(self).dense_keys_view() == kept(old(self).dense_keys_view(), keep, old(self).spec_len())
                    &&& final(self).dense_values_view() == kept(old(self).dense_values_view(), keep, old(self).spec_len())
                    &&& old(self).spec_retained(final(self), keep)
                    &&& forall|d: int|
                        0 <= d < old(self).spec_len() ==> (final(self)@.contains_key(
                            #[trigger] old(self).dense_keys_view()[d],
                        ) == keep[d]) && (keep[d] ==> final(self)@[old(self).dense_keys_view()[d]]
                            == old(self).dense_values_view()[d])
                    &&& final(self)@.dom().subset_of(old(self)@.dom())
                },
    {
        let ghost keys0 = self.dense_keys@;
        let ghost values0 = self.dense_values@;
        let ghost sparse0 = self.sparse@;
        let ghost vacant0 = self.vacant@;
        let ghost head0 = self.sparse_vacant_head as nat;
        let ghost old_self = *self;
        let n = self.dense_keys.len();
        let sparse_len = self.sparse.len();
        let mut keys: Vec<K> = Vec::new();
        let mut values: Vec<V> = Vec::new();
        core::mem::swap(&mut keys, &mut self.dense_keys);
        core::mem::swap(&mut values, &mut self.dense_values);
        let mut pending = reversed(values);
        let ghost mut keep: Seq<bool> = Seq::empty();
        proof {
            assert(values0.subrange(0, n as int) =~= values0);
            if vacant0.len() > 0 {
                assert(vacant_link(sparse0, vacant0, 0));
            }
            assert(removed_slots(keys0, keep, 0) + vacant0 =~= vacant0);
        }
        let mut d: usize = 0;
        while d < n
            invariant
                d <= n,
                n == keys0.len(),
                keys@ == keys0,
                keys0 == old_self.dense_keys_view(),
                values0 == old_self.dense_values_view(),
                sparse0 == old_self.sparse_view(),
                vacant0 == old_self.vacant_view(),
                parts_wf(keys0, values0, sparse0, vacant0, head0),
                forall|key: K, value: &V| call_requires(f, (key, value)),
                pending@ == values0.subrange(d as int, n as int).reverse(),
                keep.len() == d,
                forall|i: int| 0 <= i < d ==> call_ensures(f, (keys0[i], &values0[i]), #[trigger] keep[i]),
                self.dense_keys@ == kept(keys0, keep, d as nat),
                self.dense_values@ == kept(values0, keep, d as nat),
                self.sparse@.len() == sparse_len,
                sparse_len == sparse0.len(),
                self.vacant@ == removed_slots(keys0, keep, d as nat) + vacant0,
                vacant_chain(self.sparse@, self.vacant@, self.sparse_vacant_head as nat),
                n > 0 ==> K::index_fits(self.sparse_vacant_head as nat),
                forall|j: int|
                    0 <= j < sparse_len ==> {
                        let old_item = sparse0[j];
                        let new_item = #[trigger] self.sparse@[j];
                        let i = item_dense_index(old_item) as int;
                        if old_item.kind is Occupied && i < d {
                            &&& keep[i] ==> new_item == SparseItem::<K> {
                                kind: SparseItemKind::Occupied {
                                    dense_index: K::index_of_nat(kept(keys0, keep, i as nat).len()),
                                },
                                epoch: old_item.epoch,
                            }
                            &&& !keep[i] ==> new_item.kind is Vacant && new_item.epoch
                                == K::spec_next_epoch(old_item.epoch)
                        } else {
                            new_item == old_item
                        }
                    },
            decreases n - d,
        {
            let key = keys[d];
            let ghost rest = pending@;
            let value = pending.pop().unwrap();
            let ghost e = d as int;
            let ghost j = key_index(key) as int;
            proof {
                assert(rest.last() == values0[e]);
                assert(pending@ =~= values0.subrange(e + 1, n as int).reverse());
                assert(dense_ok(keys0, sparse0, e));
                assert(self.sparse@[j] == sparse0[j]);
                K::lemma_index_nat(key.spec_sparse_index());
                K::lemma_index_nat(sparse0[j].kind->dense_index);
                lemma_kept_len(keys0, values0, keep, d as nat);
            }
            let keep_it = f(key, &value);
            let sparse_index = unwrap_into_usize::<K>(key.sparse_index());
            let ghost list = self.vacant@;
            let ghost before = self.sparse@;
            let ghost old_keep = keep;
            if keep_it {
                let count = self.dense_keys.len();
                proof {
                    K::lemma_index_fits_below(d as nat, count as nat);
                }
                let dense_index = unwrap_into_index::<K>(count);
                self.sparse.set(sparse_index, SparseItem::occupied(dense_index, key.epoch()));
                self.dense_keys.push(key);
                self.dense_values.push(value);
                proof {
                    lemma_chain_excludes_occupied(before, list, self.sparse_vacant_head as nat, j);
                    assert forall|t: int| 0 <= t < list.len() implies self.sparse@[#[trigger] list[t] as int]
                        == before[list[t] as int] by {
                        assert(vacant_link(before, list, t));
                        assert(list[t] != j);
                    }
                    lemma_chain_frame(before, self.sparse@, list, self.sparse_vacant_head as nat);
                }
            } else {
                proof {
                    lemma_chain_excludes_occupied(before, list, self.sparse_vacant_head as nat, j);
                }
                vacate_slot(
                    &mut self.sparse,
                    &mut self.sparse_vacant_head,
                    sparse_index,
                    key.epoch(),
                    Ghost(list),
                );
                self.vacant = Ghost(seq![j as nat] + list);
            }
            proof {
                keep = old_keep.push(keep_it);
                assert(keys0[e] == key);
                assert(keep[e] == keep_it);
                lemma_kept_agree(keys0, keep, keys0, old_keep, d as nat);
                lemma_kept_agree(values0, keep, values0, old_keep, d as nat);
                lemma_removed_slots_agree(keys0, keep, keys0, old_keep, d as nat);
                assert forall|i: int| 0 <= i < d + 1 implies call_ensures(
                    f,
                    (keys0[i], &values0[i]),
                    #[trigger] keep[i],
                ) by {
                    if i < d {
                        assert(keep[i] == old_keep[i]);
                    }
                }
                if !keep_it {
                    assert(removed_slots(keys0, keep, (d + 1) as nat) + vacant0 =~= seq![j as nat] + (
                    removed_slots(keys0, old_keep, d as nat) + vacant0));
                }
                assert forall|s: int| 0 <= s < sparse_len implies {
                    let old_item = sparse0[s];
                    let new_item = #[trigger] self.sparse@[s];
                    let i = item_dense_index(old_item) as int;
                    if old_item.kind is Occupied && i < d + 1 {
                        &&& keep[i] ==> new_item == SparseItem::<K> {
                            kind: SparseItemKind::Occupied {
                                dense_index: K::index_of_nat(kept(keys0, keep, i as nat).len()),
                            },
                            epoch: old_item.epoch,
                        }
                        &&& !keep[i] ==> new_item.kind is Vacant && new_item.epoch
                            == K::spec_next_epoch(old_item.epoch)
                    } else {
                        new_item == old_item
                    }
                } by {
                    assert(sparse_ok(keys0, sparse0, s));
                    if s != j {
                        assert(self.sparse@[s] == before[s]);
                        if sparse0[s].kind is Occupied {
                            let i = item_dense_index(sparse0[s]) as int;
                            if i == d {
                                assert(key_index(keys0[i]) == s);
                            }
                            if i < d {
                                assert(keep[i] == old_keep[i]);
                                lemma_kept_agree(keys0, keep, keys0, old_keep, i as nat);
                            }
                        }
                    } else {
                        lemma_kept_agree(keys0, keep, keys0, old_keep, d as nat);
                    }
                }
            }
            d = d + 1;
        }
        proof {
            let keys1 = self.dense_keys@;
            let values1 = self.dense_values@;
            let sparse1 = self.sparse@;
            let vacant1 = self.vacant@;
            lemma_kept_len(keys0, values0, keep, n as nat);
            assert forall|e: int| 0 <= e < keys1.len() implies #[trigger] dense_ok(keys1, sparse1, e) by {
                lemma_kept_origin(keys0, keep, n as nat, e);
                let i = choose|i: int|
                    0 <= i < n && keep[i] && #[trigger] kept(keys0, keep, i as nat).len() == e;
                lemma_kept_index(keys0, keep, n as nat, i);
                assert(dense_ok(keys0, sparse0, i));
                let j = key_index(keys0[i]) as int;
                assert(sparse1[j] == SparseItem::<K> {
                    kind: SparseItemKind::Occupied { dense_index: K::index_of_nat(e as nat) },
                    epoch: sparse0[j].epoch,
                });
                K::lemma_index_nat(sparse0[j].kind->dense_index);
                lemma_kept_len(keys0, keys0, keep, i as nat);
                K::lemma_index_fits_below(i as nat, e as nat);
                K::lemma_index_of_nat(e as nat);
            }
            assert forall|s: int| 0 <= s < sparse1.len() implies #[trigger] sparse_ok(keys1, sparse1, s) by {
                assert(sparse_ok(keys0, sparse0, s));
                if sparse1[s].kind is Occupied {
                    let i = item_dense_index(sparse0[s]) as int;
                    assert(sparse0[s].kind is Occupied);
                    assert(keep[i]);
                    lemma_kept_index(keys0, keep, n as nat, i);
                    K::lemma_index_nat(sparse0[s].kind->dense_index);
                    lemma_kept_len(keys0, keys0, keep, i as nat);
                    K::lemma_index_fits_below(i as nat, kept(keys0, keep, i as nat).len());
                    K::lemma_index_of_nat(kept(keys0, keep, i as nat).len());
                }
            }
            assert forall|s: int|
                0 <= s < sparse1.len() && (#[trigger] sparse1[s]).kind is Vacant implies vacant1.contains(
                s as nat,
            ) by {
                let removed = removed_slots(keys0, keep, n as nat);
                if sparse0[s].kind is Vacant {
                    assert(vacant0.contains(s as nat));
                    let q = choose|q: int| 0 <= q < vacant0.len() && vacant0[q] == s;
                    assert(vacant1[removed.len() + q] == s);
                } else {
                    assert(sparse_ok(keys0, sparse0, s));
                    let i = item_dense_index(sparse0[s]) as int;
                    lemma_removed_slots_contain(keys0, keep, n as nat, i);
                    let q = choose|q: int| 0 <= q < removed.len() && removed[q] == s;
                    assert(vacant1[q] == s);
                }
            }
            assert(self.wf());
            old_self.lemma_keys_unique();
            self.lemma_view_domain();
            old_self.lemma_view_domain();
            assert forall|i: int| 0 <= i < n implies (self@.contains_key(#[trigger] keys0[i]) == keep[i]) && (
            keep[i] ==> self@[keys0[i]] == values0[i]) by {
                if keep[i] {
                    lemma_kept_index(keys0, keep, n as nat, i);
                    lemma_kept_index(values0, keep, n as nat, i);
                    let e = kept(keys0, keep, i as nat).len() as int;
                    lemma_kept_len(keys0, values0, keep, i as nat);
                    assert(keys1[e] == keys0[i]);
                    assert(values1[e] == values0[i]);
                    assert(self@[keys1[e]] == values1[e]);
                } else if self@.contains_key(keys0[i]) {
                    let e = choose|e: int| 0 <= e < keys1.len() && keys1[e] == keys0[i];
                    lemma_kept_origin(keys0, keep, n as nat, e);
                    let i2 = choose|i2: int|
                        0 <= i2 < n && keep[i2] && #[trigger] kept(keys0, keep, i2 as nat).len() == e;
                    lemma_kept_index(keys0, keep, n as nat, i2);
                    assert(keys0[i2] == keys0[i]);
                }
            }
            assert forall|k: K| self@.contains_key(k) implies old_self@.contains_key(k) by {
                let e = choose|e: int| 0 <= e < keys1.len() && keys1[e] == k;
                lemma_kept_origin(keys0, keep, n as nat, e);
                let i = choose|i: int| 0 <= i < n && keep[i] && #[trigger] kept(keys0, keep, i as nat).len() == e;
                lemma_kept_index(keys0, keep, n as nat, i);
                assert(keys0[i] == k);
            }
            assert forall|j: int| 0 <= j < sparse0.len() && sparse0[j].kind is Occupied implies item_dense_index(
                #[trigger] sparse0[j],
            ) < n by {
                assert(sparse_ok(keys0, sparse0, j));
            }
            assert(old_self.spec_retained(self, keep));

        }
    }
}

impl<K: Key, V> EpochSparseArena<K, V> {
    /// Pops entries until at most `dense_len` are left.
    fn pop_back_to(&mut self, dense_len: usize)
        requires
            old(self).wf(),
            old(self).spec_len() > 0 ==> old(self).spec_can_vacate(),
        ensures
            final(self).wf(),
            final(self).spec_len() > 0 ==> final(self).spec_can_vacate(),
            ({
                let m = if old(self).spec_len() < dense_len {
                    old(self).spec_len()
                } else {
                    dense_len as nat
                };
                &&& final(self).dense_keys_view() == old(self).dense_keys_view().subrange(0, m as int)
                &&& final(self).dense_values_view() == old(self).dense_values_view().subrange(0, m as int)
                &&& final(self).spec_sparse_len() == old(self).spec_sparse_len()
                &&& forall|j: int|
                    0 <= j < old(self).spec_sparse_len() ==> {
                        let o = old(self).sparse_view()[j];
                        let n = #[trigger] final(self).sparse_view()[j];
                        &&& (o.kind is Vacant || item_dense_index(o) < m) ==> n == o
                        &&& o.kind is Occupied && item_dense_index(o) >= m ==> n.kind is Vacant
                            && n.epoch == K::spec_next_epoch(o.epoch)
                    }
            }),
    {
        let ghost keys0 = self.dense_keys@;
        let ghost values0 = self.dense_values@;
        let ghost sparse0 = self.sparse@;
        let ghost old_self = *self;
        let ghost m = if keys0.len() < dense_len {
            keys0.len()
        } else {
            dense_len as nat
        };
        proof {
            assert(keys0.subrange(0, keys0.len() as int) =~= keys0);
            assert(values0.subrange(0, values0.len() as int) =~= values0);
            assert forall|j: int| 0 <= j < sparse0.len() && sparse0[j].kind is Occupied implies item_dense_index(
                #[trigger] sparse0[j],
            ) < keys0.len() by {
                assert(sparse_ok(keys0, sparse0, j));
            }
        }
        while self.dense_keys.len() > dense_len
            invariant
                m <= self.spec_len(),
                m == (if keys0.len() < dense_len {
                    keys0.len()
                } else {
                    dense_len as nat
                }),
                self.wf(),
                self.spec_len() > 0 ==> self.spec_can_vacate(),
                old_self.wf(),
                keys0 == old_self.dense_keys_view(),
                sparse0 == old_self.sparse_view(),
                self.spec_len() <= keys0.len(),
                self.dense_keys_view() == keys0.subrange(0, self.spec_len() as int),
                self.dense_values_view() == values0.subrange(0, self.spec_len() as int),
                values0.len() == keys0.len(),
                self.spec_sparse_len() == sparse0.len(),
                forall|j: int|
                    0 <= j < sparse0.len() ==> {
                        let o = sparse0[j];
                        let n = #[trigger] self.sparse_view()[j];
                        &&& (o.kind is Vacant || item_dense_index(o) < self.spec_len()) ==> n == o
                        &&& o.kind is Occupied && item_dense_index(o) >= self.spec_len() ==> n.kind is Vacant
                            && n.epoch == K::spec_next_epoch(o.epoch)
                    },
            decreases self.spec_len(),
        {
            let ghost before = *self;
            let ghost len = self.spec_len();
            let ghost key = self.dense_keys_view().last();
            let ghost j = key_index(key) as int;
            proof {
                assert(dense_ok(self.dense_keys_view(), self.sparse_view(), len - 1));
                assert(dense_ok(keys0, sparse0, len - 1));
            }
            self.pop();
            proof {
                K::lemma_index_nat(key.spec_sparse_index());
                assert(self.spec_push_slot() == j);
                assert(self.dense_keys_view() =~= keys0.subrange(0, len - 1));
                assert(self.dense_values_view() =~= values0.subrange(0, len - 1));
                assert forall|i: int| 0 <= i < sparse0.len() implies {
                    let o = sparse0[i];
                    let n = #[trigger] self.sparse_view()[i];
                    &&& (o.kind is Vacant || item_dense_index(o) < self.spec_len()) ==> n == o
                    &&& o.kind is Occupied && item_dense_index(o) >= self.spec_len() ==> n.kind is Vacant
                        && n.epoch == K::spec_next_epoch(o.epoch)
                } by {
                    assert(sparse_ok(keys0, sparse0, i));
                    if i != j {
                        assert(self.sparse_view()[i] == before.sparse_view()[i]);
                        if sparse0[i].kind is Occupied && item_dense_index(sparse0[i]) == len - 1 {
                            assert(key_index(keys0[len - 1]) == i);
                        }
                    }
                }
            }
        }
    }

    /// Removes the entries whose slots lie at or past `new_len`, keeping the
    /// order of the others.
    fn remove_slots_from(&mut self, new_len: usize)
        requires
            old(self).wf(),
            old(self).spec_len() > 0 ==> old(self).spec_can_vacate(),
            new_len < old(self).spec_sparse_len(),
        ensures
            final(self).wf(),
            final(self).spec_len() > 0 ==> final(self).spec_can_vacate(),
            final(self).dense_keys_view() == kept(
                old(self).dense_keys_view(),
                slots_below(old(self).dense_keys_view(), new_len as nat),
                old(self).spec_len(),
            ),
            final(self).dense_values_view() == kept(
                old(self).dense_values_view(),
                slots_below(old(self).dense_keys_view(), new_len as nat),
                old(self).spec_len(),
            ),
            final(self).spec_sparse_len() == old(self).spec_sparse_len(),
            forall|j: int|
                0 <= j < old(self).spec_sparse_len() ==> {
                    let o = old(self).sparse_view()[j];
                    let n = #[trigger] final(self).sparse_view()[j];
                    &&& j < new_len ==> n.epoch == o.epoch && (n.kind is Vacant <==> o.kind is Vacant)
                    &&& j >= new_len ==> n.kind is Vacant && n.epoch == (if o.kind is Occupied {
                        K::spec_next_epoch(o.epoch)
                    } else {
                        o.epoch
                    })
                },
    {
        let ghost keys0 = self.dense_keys@;
        let ghost values0 = self.dense_values@;
        let ghost sparse0 = self.sparse@;
        let ghost old_self = *self;
        let ghost n0 = keys0.len();
        let sparse_len = self.sparse.len();
        proof {
            lemma_kept_all(keys0, slot_window(keys0, new_len as nat, new_len as nat), n0);
            lemma_kept_all(values0, slot_window(keys0, new_len as nat, new_len as nat), n0);
            assert(keys0.subrange(0, n0 as int) =~= keys0);
            assert(values0.subrange(0, n0 as int) =~= values0);
            old_self.lemma_dense_keys_distinct();
        }
        let mut s = new_len;
        while s < sparse_len
            invariant
                new_len <= s <= sparse_len,
                sparse_len == sparse0.len(),
                old_self.wf(),
                keys0 == old_self.dense_keys_view(),
                values0 == old_self.dense_values_view(),
                sparse0 == old_self.sparse_view(),
                n0 == keys0.len(),
                values0.len() == n0,
                forall|a: int, b: int|
                    0 <= a < b < n0 ==> key_index(#[trigger] keys0[a]) != key_index(#[trigger] keys0[b]),
                self.wf(),
                self.spec_len() > 0 ==> self.spec_can_vacate(),
                self.spec_sparse_len() == sparse_len,
                self.dense_keys_view() == kept(keys0, slot_window(keys0, new_len as nat, s as nat), n0),
                self.dense_values_view() == kept(values0, slot_window(keys0, new_len as nat, s as nat), n0),
                forall|j: int|
                    0 <= j < sparse_len ==> {
                        let o = sparse0[j];
                        let n = #[trigger] self.sparse_view()[j];
                        &&& (j < new_len || j >= s) ==> n.epoch == o.epoch && (n.kind is Vacant
                            <==> o.kind is Vacant)
                        &&& new_len <= j < s ==> n.kind is Vacant && n.epoch == (if o.kind is Occupied {
                            K::spec_next_epoch(o.epoch)
                        } else {
                            o.epoch
                        })
                    },
            decreases sparse_len - s,
        {
            let ghost before = *self;
            let ghost flags = slot_window(keys0, new_len as nat, s as nat);
            let ghost next_flags = slot_window(keys0, new_len as nat, (s + 1) as nat);
            let ghost cur = self.dense_keys_view();
            let item = self.sparse[s];
            proof {
                lemma_kept_len(keys0, values0, flags, n0);
            }
            match item.kind {
                SparseItemKind::Occupied { dense_index } => {
                    let dense_len = self.dense_keys.len();
                    proof {
                        assert(sparse_ok(cur, before.sparse_view(), s as int));
                    }
                    let d = unwrap_into_usize::<K>(dense_index);
                    let key = self.dense_keys[d];
                    let ghost i = choose|i: int|
                        0 <= i < n0 && flags[i] && #[trigger] kept(keys0, flags, i as nat).len() == d;
                    proof {
                        lemma_kept_origin(keys0, flags, n0, d as int);
                        lemma_kept_index(keys0, flags, n0, i);
                        lemma_kept_index(values0, flags, n0, i);
                        lemma_kept_len(keys0, values0, flags, i as nat);
                        assert(key == keys0[i]);
                        before.lemma_lookup(key);
                        assert(dense_ok(cur, before.sparse_view(), d as int));
                        K::lemma_index_nat(key.spec_sparse_index());
                    }
                    self.remove(key);
                    proof {
                        lemma_kept_clear(keys0, flags, n0, i);
                        lemma_kept_clear(values0, flags, n0, i);
                        assert forall|x: int| 0 <= x < n0 implies #[trigger] next_flags[x] == flags.update(
                            i,
                            false,
                        )[x] by {
                            if x < i {
                                assert(key_index(keys0[x]) != key_index(keys0[i]));
                            } else if x > i {
                                assert(key_index(keys0[i]) != key_index(keys0[x]));
                            }
                        }
                        assert(next_flags =~= flags.update(i, false));
                        before.lemma_slots_fit();
                        K::lemma_index_fits_below((sparse_len - 1) as nat, s as nat);
                        assert(self.spec_push_slot() == s);
                        assert forall|j: int| 0 <= j < sparse_len implies {
                            let o = sparse0[j];
                            let n = #[trigger] self.sparse_view()[j];
                            &&& (j < new_len || j >= s + 1) ==> n.epoch == o.epoch && (n.kind is Vacant
                                <==> o.kind is Vacant)
                            &&& new_len <= j < s + 1 ==> n.kind is Vacant && n.epoch == (if o.kind is Occupied {
                                K::spec_next_epoch(o.epoch)
                            } else {
                                o.epoch
                            })
                        } by {
                            if j != s {
                                assert(before.sparse_view()[j] == before.sparse_view()[j]);
                            }
                        }
                    }
                },
                SparseItemKind::Vacant { .. } => {
                    proof {
                        assert forall|x: int| 0 <= x < n0 implies #[trigger] next_flags[x] == flags[x] by {
                            if key_index(keys0[x]) == s {
                                lemma_kept_index(keys0, flags, n0, x);
                                assert(dense_ok(cur, before.sparse_view(), kept(keys0, flags, x as nat).len() as int));
                            }
                        }
                        assert(next_flags =~= flags);
                    }
                },
            }
            s = s + 1;
        }
        proof {
            let flags = slot_window(keys0, new_len as nat, sparse_len as nat);
            assert forall|x: int| 0 <= x < n0 implies #[trigger] flags[x] == slots_below(keys0, new_len as nat)[x] by {
                assert(dense_ok(keys0, sparse0, x));
            }
            assert(flags =~= slots_below(keys0, new_len as nat));
        }
    }

    /// The entries left by keeping, of the first `m` entries, those whose
    /// slots lie below `bound`.
    proof fn lemma_truncated_view(&self, new: &Self, m: nat, bound: nat)
        requires
            self.wf(),
            new.wf(),
            m <= self.spec_len(),
            new.dense_keys_view() == kept(
                self.dense_keys_view().subrange(0, m as int),
                slots_below(self.dense_keys_view().subrange(0, m as int), bound),
                m,
            ),
            new.dense_values_view() == kept(
                self.dense_values_view().subrange(0, m as int),
                slots_below(self.dense_keys_view().subrange(0, m as int), bound),
                m,
            ),
        ensures
            forall|k: K|
                #[trigger] new@.contains_key(k) == (self@.contains_key(k) && self.spec_lookup(k)->0 < m
                    && key_index(k) < bound),
            forall|k: K| #[trigger] new@.contains_key(k) ==> new@[k] == self@[k],
    {
        let keys = self.dense_keys_view().subrange(0, m as int);
        let values = self.dense_values_view().subrange(0, m as int);
        let flags = slots_below(keys, bound);
        self.lemma_view_domain();
        new.lemma_view_domain();
        self.lemma_keys_unique();
        assert forall|k: K|
            #[trigger] new@.contains_key(k) == (self@.contains_key(k) && self.spec_lookup(k)->0 < m
                && key_index(k) < bound) && (new@.contains_key(k) ==> new@[k] == self@[k]) by {
            self.lemma_lookup(k);
            if new@.contains_key(k) {
                let e = choose|e: int| 0 <= e < new.spec_len() && new.dense_keys_view()[e] == k;
                lemma_kept_origin(keys, flags, m, e);
                let i = choose|i: int| 0 <= i < m && flags[i] && #[trigger] kept(keys, flags, i as nat).len() == e;
                lemma_kept_index(keys, flags, m, i);
                lemma_kept_index(values, flags, m, i);
                lemma_kept_len(keys, values, flags, i as nat);
                assert(keys[i] == k);
                assert(self.dense_keys_view()[i] == k);
                assert(self.spec_lookup(k) == Some(i as nat));
                assert(new@[new.dense_keys_view()[e]] == new.dense_values_view()[e]);
                assert(self@[self.dense_keys_view()[i]] == self.dense_values_view()[i]);
            }
            if self@.contains_key(k) && self.spec_lookup(k)->0 < m && key_index(k) < bound {
                let i = self.spec_lookup(k)->0 as int;
                assert(keys[i] == k);
                assert(flags[i]);
                lemma_kept_index(keys, flags, m, i);
                let e = kept(keys, flags, i as nat).len() as int;
                assert(new.dense_keys_view()[e] == k);
            }
        }
    }

    /// `new` is `self` truncated to at most `dense_len` entries and
    /// `sparse_len` slots, as `truncate` does it.
    pub open spec fn spec_truncated(&self, new: &Self, dense_len: nat, sparse_len: nat) -> bool {
        let m = if self.spec_len() < dense_len {
            self.spec_len()
        } else {
            dense_len
        };
        let keys = self.dense_keys_view().subrange(0, m as int);
        let values = self.dense_values_view().subrange(0, m as int);
        let flags = slots_below(keys, sparse_len);
        &&& new.dense_keys_view() == kept(keys, flags, m)
        &&& new.dense_values_view() == kept(values, flags, m)
        &&& new.spec_sparse_len() == if self.spec_sparse_len() < sparse_len {
            self.spec_sparse_len()
        } else {
            sparse_len
        }
        &&& forall|j: int|
            0 <= j < new.spec_sparse_len() ==> {
                let o = self.sparse_view()[j];
                let n = #[trigger] new.sparse_view()[j];
                let dropped = o.kind is Occupied && item_dense_index(o) >= m;
                &&& n.epoch == (if dropped {
                    K::spec_next_epoch(o.epoch)
                } else {
                    o.epoch
                })
                &&& (n.kind is Vacant) == (o.kind is Vacant || dropped)
            }
        &&& sparse_len < self.spec_sparse_len() ==> forall|a: int, b: int|
            0 <= a < b < new.vacant_view().len() ==> #[trigger] new.vacant_view()[a]
                < #[trigger] new.vacant_view()[b]
        &&& forall|k: K|
            #[trigger] new@.contains_key(k) == (self@.contains_key(k)
                && self.spec_lookup(k)->0 < m && key_index(k) < sparse_len)
        &&& forall|k: K| #[trigger] new@.contains_key(k) ==> new@[k] == self@[k]
    }

    /// Keeps at most `dense_len` entries and `sparse_len` slots.
    ///
    /// The entries from dense index `dense_len` on are removed, the last one
    /// first.  If the sparse array has more than `sparse_len` slots, the
    /// entries whose slots lie at or past `sparse_len` are removed too (the
    /// others keep their order), the sparse array is cut to `sparse_len`
    /// slots, and the vacant list is rebuilt from the slots left, lowest
    /// first.  Every slot whose entry is removed moves to the next epoch.
    pub fn truncate(&mut self, dense_len: usize, sparse_len: usize)
        requires
            old(self).wf(),
            old(self).spec_len() > 0 ==> old(self).spec_can_vacate(),
        ensures
            final(self).wf(),
            old(self).spec_truncated(final(self), dense_len as nat, sparse_len as nat),
    {
        let ghost old_self = *self;
        self.pop_back_to(dense_len);
        let ghost popped = *self;
        let ghost m = popped.spec_len();
        let ghost keys = old_self.dense_keys_view().subrange(0, m as int);
        let ghost values = old_self.dense_values_view().subrange(0, m as int);
        let ghost flags = slots_below(keys, sparse_len as nat);
        if sparse_len < self.sparse.len() {
            self.remove_slots_from(sparse_len);
            let ghost removed = *self;
            self.cut_sparse(sparse_len);
            proof {
                assert forall|j: int| 0 <= j < sparse_len implies {
                    let o = old_self.sparse_view()[j];
                    let n = #[trigger] self.sparse_view()[j];
                    let dropped = o.kind is Occupied && item_dense_index(o) >= m;
                    &&& n.epoch == (if dropped {
                        K::spec_next_epoch(o.epoch)
                    } else {
                        o.epoch
                    })
                    &&& (n.kind is Vacant) == (o.kind is Vacant || dropped)
                } by {
                    assert(removed.sparse_view()[j] == removed.sparse_view()[j]);
                    assert(popped.sparse_view()[j] == popped.sparse_view()[j]);
                }
            }
        } else {
            proof {
                assert forall|i: int| 0 <= i < m implies #[trigger] flags[i] by {
                    assert(dense_ok(popped.dense_keys_view(), popped.sparse_view(), i));
                }
                lemma_kept_all(keys, flags, m);
                lemma_kept_all(values, flags, m);
                assert(keys.subrange(0, m as int) =~= keys);
                assert(values.subrange(0, m as int) =~= values);
            }
        }
        proof {
            old_self.lemma_truncated_view(self, m, sparse_len as nat);
        }
    }

    /// Truncating gives the same result whatever became of the room of the
    /// arrays afterwards.
    proof fn lemma_truncated_same(&self, truncated: &Self, new: &Self, dense_len: nat, sparse_len: nat)
        requires
            truncated.wf(),
            new.wf(),
            self.spec_truncated(truncated, dense_len, sparse_len),
            new.spec_same(truncated),
        ensures
            self.spec_truncated(new, dense_len, sparse_len),
    {
        new.lemma_view_determined_by_dense(truncated);
        assert(new.dense_keys_view() == truncated.dense_keys_view());
        assert(new.dense_values_view() == truncated.dense_values_view());
        assert(new.sparse_view() == truncated.sparse_view());
        assert(new.vacant_view() == truncated.vacant_view());
        assert(new.spec_sparse_len() == truncated.spec_sparse_len());
        assert(new@ == truncated@);
    }

    /// Truncates the arena to at most `min_capacity` entries and slots, as
    /// `truncate` does, and gives back room beyond that.
    pub fn shrink_to(&mut self, min_capacity: usize)
        requires
            old(self).wf(),
            old(self).spec_len() > 0 ==> old(self).spec_can_vacate(),
        ensures
            final(self).wf(),
            old(self).spec_truncated(final(self), min_capacity as nat, min_capacity as nat),
    {
        let ghost old_self = *self;
        let ghost dense_len_bound = min_capacity as nat;
        let ghost sparse_len_bound = min_capacity as nat;
        self.truncate(min_capacity, min_capacity);
        let ghost truncated = *self;
        vec_shrink_to(&mut self.dense_keys, min_capacity);
        vec_shrink_to(&mut self.dense_values, min_capacity);
        vec_shrink_to(&mut self.sparse, min_capacity);
        proof {
            old_self.lemma_truncated_same(&truncated, self, dense_len_bound, sparse_len_bound);
        }
    }

    /// Truncates the dense array to at most `min_capacity` entries, as
    /// `truncate` does, and gives back its room beyond that.
    pub fn dense_shrink_to(&mut self, min_capacity: usize)
        requires
            old(self).wf(),
            old(self).spec_len() > 0 ==> old(self).spec_can_vacate(),
        ensures
            final(self).wf(),
            old(self).spec_truncated(final(self), min_capacity as nat, usize::MAX as nat),
    {
        let ghost old_self = *self;
        let ghost dense_len_bound = min_capacity as nat;
        let ghost sparse_len_bound = usize::MAX as nat;
        self.truncate(min_capacity, usize::MAX);
        let ghost truncated = *self;
        vec_shrink_to(&mut self.dense_keys, min_capacity);
        vec_shrink_to(&mut self.dense_values, min_capacity);
        proof {
            old_self.lemma_truncated_same(&truncated, self, dense_len_bound, sparse_len_bound);
        }
    }

    /// Truncates the sparse array to at most `min_capacity` slots, as
    /// `truncate` does, and gives back its room beyond that.
    pub fn sparse_shrink_to(&mut self, min_capacity: usize)
        requires
            old(self).wf(),
            old(self).spec_len() > 0 ==> old(self).spec_can_vacate(),
        ensures
            final(self).wf(),
            old(self).spec_truncated(final(self), usize::MAX as nat, min_capacity as nat),
    {
        let ghost old_self = *self;
        let ghost dense_len_bound = usize::MAX as nat;
        let ghost sparse_len_bound = min_capacity as nat;
        self.truncate(usize::MAX, min_capacity);
        let ghost truncated = *self;
        vec_shrink_to(&mut self.sparse, min_capacity);
        proof {
            old_self.lemma_truncated_same(&truncated, self, dense_len_bound, sparse_len_bound);
        }
    }

    /// Orders the entries by their keys as `sort_keys` does: the keys are
    /// distinct, so an unstable order is the same order.
    pub fn sort_keys_unstable(&mut self)
        requires
            old(self).wf(),
        ensures
            final(self).wf(),
            final(self)@ == old(self)@,
            final(self).spec_len() == old(self).spec_len(),
            forall|a: int, b: int|
                0 <= a < b < final(self).spec_len() ==> key_index(#[trigger] final(self).dense_keys_view()[a])
                    < key_index(#[trigger] final(self).dense_keys_view()[b]),
            final(self).spec_sparse_len() == old(self).spec_sparse_len(),
            final(self).vacant_view() == old(self).vacant_view(),
            forall|j: int|
                0 <= j < old(self).spec_sparse_len() ==> {
                    let o = old(self).sparse_view()[j];
                    let n = #[trigger] final(self).sparse_view()[j];
                    &&& n.epoch == o.epoch
                    &&& o.kind is Vacant ==> n == o
                    &&& o.kind is Occupied ==> n.kind is Occupied
                },
    {
        self.sort_keys();
    }

    /// Orders the entries by their keys, which is the order of their sparse
    /// indices (the keys of an arena have distinct sparse indices), and points
    /// every slot at its entry's new place.  The entries themselves, the
    /// epochs and the vacant list stay as they are.
    pub fn sort_keys(&mut self)
        requires
            old(self).wf(),
        ensures
            final(self).wf(),
            final(self)@ == old(self)@,
            final(self).spec_len() == old(self).spec_len(),
            forall|a: int, b: int|
                0 <= a < b < final(self).spec_len() ==> key_index(#[trigger] final(self).dense_keys_view()[a])
                    < key_index(#[trigger] final(self).dense_keys_view()[b]),
            final(self).spec_sparse_len() == old(self).spec_sparse_len(),
            final(self).vacant_view() == old(self).vacant_view(),
            forall|j: int|
                0 <= j < old(self).spec_sparse_len() ==> {
                    let o = old(self).sparse_view()[j];
                    let n = #[trigger] final(self).sparse_view()[j];
                    &&& n.epoch == o.epoch
                    &&& o.kind is Vacant ==> n == o
                    &&& o.kind is Occupied ==> n.kind is Occupied
                },
    {
        let ghost keys0 = self.dense_keys@;
        let ghost values0 = self.dense_values@;
        let ghost sparse0 = self.sparse@;
        let ghost vacant0 = self.vacant@;
        let ghost old_self = *self;
        let n = self.dense_keys.len();
        let sparse_len = self.sparse.len();
        let mut old_keys: Vec<K> = Vec::new();
        let mut old_values: Vec<V> = Vec::new();
        core::mem::swap(&mut old_keys, &mut self.dense_keys);
        core::mem::swap(&mut old_values, &mut self.dense_values);
        let mut pending = reversed(old_values);
        let mut slots: Vec<Option<V>> = Vec::new();
        proof {
            assert(values0.subrange(0, n as int) =~= values0);
        }
        while pending.len() > 0
            invariant
                slots@.len() + pending@.len() == n,
                n == values0.len(),
                pending@ == values0.subrange(slots@.len() as int, n as int).reverse(),
                forall|i: int| 0 <= i < slots@.len() ==> #[trigger] slots@[i] == Some(values0[i]),
            decreases pending@.len(),
        {
            let ghost rest = pending@;
            let value = pending.pop().unwrap();
            proof {
                assert(rest.last() == values0[slots@.len() as int]);
            }
            slots.push(Some(value));
            proof {
                assert(pending@ =~= values0.subrange(slots@.len() as int, n as int).reverse());
            }
        }
        proof {
            old_self.lemma_dense_keys_distinct();
            assert forall|a: int, b: int| 0 <= a < b < n implies key_index(#[trigger] keys0[a]) != key_index(
                #[trigger] keys0[b],
            ) by {
                assert(key_index(old_self.dense_keys_view()[a]) != key_index(old_self.dense_keys_view()[b]));
            }
            old_self.lemma_slots_fit();
        }
        let ghost mut order: Seq<nat> = Seq::empty();
        let mut j: usize = 0;
        while j < sparse_len
            invariant
                j <= sparse_len,
                sparse_len == sparse0.len(),
                n == keys0.len(),
                values0.len() == n,
                old_keys@ == keys0,
                keys0 == old_self.dense_keys_view(),
                values0 == old_self.dense_values_view(),
                sparse0 == old_self.sparse_view(),
                vacant0 == old_self.vacant_view(),
                parts_wf(keys0, values0, sparse0, vacant0, old_self.sparse_vacant_head as nat),
                sparse_len > 0 ==> K::index_fits((sparse_len - 1) as nat),
                order.len() <= j,
                forall|a: int, b: int|
                    0 <= a < b < n ==> key_index(#[trigger] keys0[a]) != key_index(#[trigger] keys0[b]),
                slots@.len() == n,
                forall|d: int|
                    0 <= d < n ==> #[trigger] slots@[d] == if key_index(keys0[d]) < j {
                        None
                    } else {
                        Some(values0[d])
                    },
                self.dense_keys@.len() == order.len(),
                self.dense_values@.len() == order.len(),
                forall|e: int|
                    0 <= e < order.len() ==> {
                        &&& #[trigger] order[e] < n
                        &&& self.dense_keys@[e] == keys0[order[e] as int]
                        &&& self.dense_values@[e] == values0[order[e] as int]
                        &&& key_index(keys0[order[e] as int]) < j
                    },
                forall|a: int, b: int|
                    0 <= a < b < order.len() ==> key_index(#[trigger] self.dense_keys@[a]) < key_index(
                        #[trigger] self.dense_keys@[b],
                    ),
                forall|d: int|
                    0 <= d < n && key_index(#[trigger] keys0[d]) < j ==> exists|e: int|
                        0 <= e < order.len() && #[trigger] order[e] == d,
                self.sparse@.len() == sparse_len,
                forall|s: int|
                    0 <= s < sparse_len ==> {
                        let o = sparse0[s];
                        let nw = #[trigger] self.sparse@[s];
                        if s < j && o.kind is Occupied {
                            &&& nw.kind is Occupied
                            &&& nw.epoch == o.epoch
                            &&& item_dense_index(nw) < order.len()
                            &&& order[item_dense_index(nw) as int] == item_dense_index(o)
                        } else {
                            nw == o
                        }
                    },
                self.vacant@ == vacant0,
                self.sparse_vacant_head == old_self.sparse_vacant_head,
            decreases sparse_len - j,
        {
            let item = self.sparse[j];
            let ghost before = self.sparse@;
            let ghost before_keys = self.dense_keys@;
            if let SparseItemKind::Occupied { dense_index } = item.kind {
                proof {
                    assert(sparse_ok(keys0, sparse0, j as int));
                    assert(before[j as int] == sparse0[j as int]);
                }
                let d = unwrap_into_usize::<K>(dense_index);
                let e = self.dense_keys.len();
                proof {
                    K::lemma_index_fits_below((sparse_len - 1) as nat, e as nat);
                    assert(dense_ok(keys0, sparse0, d as int));
                    assert(slots@[d as int] == Some(values0[d as int]));
                }
                let value = slots[d].take().unwrap();
                self.dense_keys.push(old_keys[d]);
                self.dense_values.push(value);
                self.sparse.set(j, SparseItem::occupied(unwrap_into_index::<K>(e), item.epoch));
                proof {
                    K::lemma_index_of_nat(e as nat);
                    let old_order = order;
                    order = order.push(d as nat);
                    assert(self.dense_keys@[e as int] == keys0[d as int]);
                    assert forall|a: int, b: int| 0 <= a < b < order.len() implies key_index(
                        #[trigger] self.dense_keys@[a],
                    ) < key_index(#[trigger] self.dense_keys@[b]) by {
                        if b == e {
                            assert(self.dense_keys@[a] == before_keys[a]);
                            assert(key_index(keys0[old_order[a] as int]) < j);
                        } else {
                            assert(self.dense_keys@[a] == before_keys[a]);
                            assert(self.dense_keys@[b] == before_keys[b]);
                        }
                    }
                    assert forall|e2: int| 0 <= e2 < order.len() implies {
                        &&& #[trigger] order[e2] < n
                        &&& self.dense_keys@[e2] == keys0[order[e2] as int]
                        &&& self.dense_values@[e2] == values0[order[e2] as int]
                        &&& key_index(keys0[order[e2] as int]) < j + 1
                    } by {
                        if e2 < e {
                            assert(order[e2] == old_order[e2]);
                        }
                    }
                    assert forall|d2: int|
                        0 <= d2 < n && key_index(#[trigger] keys0[d2]) < j + 1 implies exists|e2: int|
                        0 <= e2 < order.len() && #[trigger] order[e2] == d2 by {
                        if key_index(keys0[d2]) < j {
                            let e2 = choose|e2: int| 0 <= e2 < old_order.len() && #[trigger] old_order[e2] == d2;
                            assert(order[e2] == d2);
                        } else {
                            if d2 != d {
                                if d2 < d {
                                    assert(key_index(keys0[d2]) != key_index(keys0[d as int]));
                                } else {
                                    assert(key_index(keys0[d as int]) != key_index(keys0[d2]));
                                }
                            }
                            assert(order[e as int] == d2);
                        }
                    }
                    assert forall|s2: int| 0 <= s2 < sparse_len implies {
                        let o = sparse0[s2];
                        let nw = #[trigger] self.sparse@[s2];
                        if s2 < j + 1 && o.kind is Occupied {
                            &&& nw.kind is Occupied
                            &&& nw.epoch == o.epoch
                            &&& item_dense_index(nw) < order.len()
                            &&& order[item_dense_index(nw) as int] == item_dense_index(o)
                        } else {
                            nw == o
                        }
                    } by {
                        if s2 != j {
                            assert(self.sparse@[s2] == before[s2]);
                            if s2 < j && sparse0[s2].kind is Occupied {
                                assert(order[item_dense_index(before[s2]) as int] == old_order[item_dense_index(
                                    before[s2],
                                ) as int]);
                            }
                        }
                    }
                }
            } else {
                proof {
                    assert forall|d2: int|
                        0 <= d2 < n && key_index(#[trigger] keys0[d2]) < j + 1 implies exists|e2: int|
                        0 <= e2 < order.len() && #[trigger] order[e2] == d2 by {
                        if key_index(keys0[d2]) == j {
                            assert(dense_ok(keys0, sparse0, d2));
                        }
                    }
                }
            }
            proof {
                assert forall|d2: int| 0 <= d2 < n implies #[trigger] slots@[d2] == if key_index(keys0[d2]) < j + 1 {
                    None
                } else {
                    Some(values0[d2])
                } by {
                    if key_index(keys0[d2]) == j {
                        assert(dense_ok(keys0, sparse0, d2));
                    }
                }
            }
            j = j + 1;
        }
        proof {
            let keys1 = self.dense_keys@;
            let values1 = self.dense_values@;
            let sparse1 = self.sparse@;
            assert forall|e: int| 0 <= e < keys1.len() implies #[trigger] dense_ok(keys1, sparse1, e) by {
                let d = order[e] as int;
                assert(dense_ok(keys0, sparse0, d));
                let s2 = key_index(keys0[d]) as int;
                let e2 = item_dense_index(sparse1[s2]) as int;
                assert(order[e2] == d);
                if e2 != e {
                    if e2 < e {
                        assert(key_index(keys1[e2]) < key_index(keys1[e]));
                    } else {
                        assert(key_index(keys1[e]) < key_index(keys1[e2]));
                    }
                }
            }
            assert forall|s2: int| 0 <= s2 < sparse1.len() implies #[trigger] sparse_ok(keys1, sparse1, s2) by {
                assert(sparse_ok(keys0, sparse0, s2));
            }
            assert forall|t: int| 0 <= t < vacant0.len() implies sparse1[#[trigger] vacant0[t] as int]
                == sparse0[vacant0[t] as int] by {
                assert(vacant_link(sparse0, vacant0, t));
            }
            lemma_chain_frame(sparse0, sparse1, vacant0, self.sparse_vacant_head as nat);
            assert(self.wf());
            self.lemma_view_domain();
            old_self.lemma_view_domain();
            assert forall|k: K| #[trigger] self@.contains_key(k) == old_self@.contains_key(k) && (self@.contains_key(
                k,
            ) ==> self@[k] == old_self@[k]) by {
                if self@.contains_key(k) {
                    let e = choose|e: int| 0 <= e < keys1.len() && keys1[e] == k;
                    assert(self@[keys1[e]] == values1[e]);
                    assert(old_self@[keys0[order[e] as int]] == values0[order[e] as int]);
                }
                if old_self@.contains_key(k) {
                    let d = choose|d: int| 0 <= d < n && keys0[d] == k;
                    assert(dense_ok(keys0, sparse0, d));
                    let e = choose|e: int| 0 <= e < order.len() && #[trigger] order[e] == d;
                    assert(keys1[e] == k);
                }
            }
            assert(self@ =~= old_self@);
            self.lemma_len_is_entry_count();
            old_self.lemma_len_is_entry_count();
        }
    }

    /// Puts the entries in the order that `order` gives, a permutation of the
    /// dense indices: entry `e` afterwards is entry `order[e]` before.  Every
    /// slot points at its entry's new place; the epochs and the vacant list
    /// stay as they are.
    fn reorder(&mut self, order: Vec<usize>)
        requires
            old(self).wf(),
            is_permutation(order@, old(self).spec_len()),
        ensures
            final(self).wf(),
            final(self)@ == old(self)@,
            final(self).spec_len() == old(self).spec_len(),
            forall|e: int|
                0 <= e < old(self).spec_len() ==> {
                    &&& #[trigger] final(self).dense_keys_view()[e] == old(self).dense_keys_view()[order@[e] as int]
                    &&& final(self).dense_values_view()[e] == old(self).dense_values_view()[order@[e] as int]
                },
            final(self).spec_sparse_len() == old(self).spec_sparse_len(),
            final(self).vacant_view() == old(self).vacant_view(),
            forall|j: int|
                0 <= j < old(self).spec_sparse_len() ==> {
                    let o = old(self).sparse_view()[j];
                    let n = #[trigger] final(self).sparse_view()[j];
                    &&& n.epoch == o.epoch
                    &&& o.kind is Vacant ==> n == o
                    &&& o.kind is Occupied ==> n.kind is Occupied
                },
    {
        let ghost keys0 = self.dense_keys@;
        let ghost values0 = self.dense_values@;
        let ghost sparse0 = self.sparse@;
        let ghost vacant0 = self.vacant@;
        let ghost old_self = *self;
        let n = self.dense_keys.len();
        let mut old_keys: Vec<K> = Vec::new();
        let mut old_values: Vec<V> = Vec::new();
        core::mem::swap(&mut old_keys, &mut self.dense_keys);
        core::mem::swap(&mut old_values, &mut self.dense_values);
        let mut pending = reversed(old_values);
        let mut slots: Vec<Option<V>> = Vec::new();
        proof {
            assert(values0.subrange(0, n as int) =~= values0);
        }
        while pending.len() > 0
            invariant
                slots@.len() + pending@.len() == n,
                n == values0.len(),
                pending@ == values0.subrange(slots@.len() as int, n as int).reverse(),
                forall|i: int| 0 <= i < slots@.len() ==> #[trigger] slots@[i] == Some(values0[i]),
            decreases pending@.len(),
        {
            let ghost rest = pending@;
            let value = pending.pop().unwrap();
            proof {
                assert(rest.last() == values0[slots@.len() as int]);
            }
            slots.push(Some(value));
            proof {
                assert(pending@ =~= values0.subrange(slots@.len() as int, n as int).reverse());
            }
        }
        let ghost mut pos: Seq<int> = Seq::new(n as nat, |d: int| -1);
        proof {
            assert forall|s: int| 0 <= s < sparse0.len() && sparse0[s].kind is Occupied implies pos[item_dense_index(
                sparse0[s],
            ) as int] < 0 by {
                assert(sparse_ok(keys0, sparse0, s));
            }
        }
        let mut e: usize = 0;
        while e < n
            invariant
                e <= n,
                n == keys0.len(),
                values0.len() == n,
                old_keys@ == keys0,
                keys0 == old_self.dense_keys_view(),
                values0 == old_self.dense_values_view(),
                sparse0 == old_self.sparse_view(),
                vacant0 == old_self.vacant_view(),
                parts_wf(keys0, values0, sparse0, vacant0, old_self.sparse_vacant_head as nat),
                is_permutation(order@, n as nat),
                slots@.len() == n,
                pos.len() == n,
                forall|d: int|
                    0 <= d < n ==> {
                        &&& #[trigger] pos[d] >= 0 ==> pos[d] < e && order@[pos[d]] == d
                        &&& pos[d] < 0 ==> slots@[d] == Some(values0[d])
                    },
                forall|f: int| 0 <= f < e ==> #[trigger] pos[order@[f] as int] == f,
                self.dense_keys@.len() == e,
                self.dense_values@.len() == e,
                forall|f: int|
                    0 <= f < e ==> {
                        &&& #[trigger] self.dense_keys@[f] == keys0[order@[f] as int]
                        &&& self.dense_values@[f] == values0[order@[f] as int]
                    },
                self.sparse@.len() == sparse0.len(),
                forall|s: int|
                    0 <= s < sparse0.len() ==> #[trigger] self.sparse@[s] == (if sparse0[s].kind is Occupied
                        && pos[item_dense_index(sparse0[s]) as int] >= 0 {
                        SparseItem::<K> {
                            kind: SparseItemKind::Occupied {
                                dense_index: K::index_of_nat(pos[item_dense_index(sparse0[s]) as int] as nat),
                            },
                            epoch: sparse0[s].epoch,
                        }
                    } else {
                        sparse0[s]
                    }),
                self.vacant@ == vacant0,
                self.sparse_vacant_head == old_self.sparse_vacant_head,
            decreases n - e,
        {
            let d = order[e];
            let key = old_keys[d];
            let sparse_len = self.sparse.len();
            let ghost slot = key_index(keys0[d as int]) as int;
            proof {
                assert(dense_ok(keys0, sparse0, d as int));
                assert(dense_ok(keys0, sparse0, e as int));
                K::lemma_index_nat(sparse0[key_index(keys0[e as int]) as int].kind->dense_index);
                K::lemma_index_nat(key.spec_sparse_index());
                if pos[d as int] >= 0 {
                    let f = pos[d as int];
                    assert(order@[f] == d);
                    assert(order@[e as int] == d);
                }
                assert(sparse_ok(keys0, sparse0, slot));
                assert(d < n);
                assert(pos[d as int] < 0);
                assert(slots@[d as int] == Some(values0[d as int]));
                assert(key == keys0[d as int]);
                assert(key_index(key) < sparse_len);
            }
            let j = unwrap_into_usize::<K>(key.sparse_index());
            let value = slots[d].take().unwrap();
            let epoch = self.sparse[j].epoch;
            self.dense_keys.push(key);
            self.dense_values.push(value);
            self.sparse.set(j, SparseItem::occupied(unwrap_into_index::<K>(e), epoch));
            proof {
                K::lemma_index_of_nat(e as nat);
                let old_pos = pos;
                pos = pos.update(d as int, e as int);
                assert forall|s: int| 0 <= s < sparse0.len() implies #[trigger] self.sparse@[s] == (if sparse0[s].kind
                    is Occupied && pos[item_dense_index(sparse0[s]) as int] >= 0 {
                    SparseItem::<K> {
                        kind: SparseItemKind::Occupied {
                            dense_index: K::index_of_nat(pos[item_dense_index(sparse0[s]) as int] as nat),
                        },
                        epoch: sparse0[s].epoch,
                    }
                } else {
                    sparse0[s]
                }) by {
                    assert(sparse_ok(keys0, sparse0, s));
                    if s != slot && sparse0[s].kind is Occupied {
                        let d2 = item_dense_index(sparse0[s]) as int;
                        assert(dense_ok(keys0, sparse0, d2));
                        assert(d2 != d);
                    }
                }
                assert forall|f: int| 0 <= f < e + 1 implies #[trigger] pos[order@[f] as int] == f by {
                    if f < e {
                        assert(order@[f] != order@[e as int]);
                    }
                }
            }
            e = e + 1;
        }
        proof {
            let keys1 = self.dense_keys@;
            let values1 = self.dense_values@;
            let sparse1 = self.sparse@;
            assert forall|d: int| 0 <= d < n implies #[trigger] pos[d] >= 0 by {
                assert(order@.contains(d as usize));
                let f = choose|f: int| 0 <= f < n && #[trigger] order@[f] == d as usize;
                assert(pos[order@[f] as int] == f);
            }
            assert forall|f: int| 0 <= f < keys1.len() implies #[trigger] dense_ok(keys1, sparse1, f) by {
                let d = order@[f] as int;
                assert(dense_ok(keys0, sparse0, d));
                assert(dense_ok(keys0, sparse0, f));
                K::lemma_index_nat(sparse0[key_index(keys0[f]) as int].kind->dense_index);
                K::lemma_index_of_nat(f as nat);
                assert(pos[order@[f] as int] == f);
            }
            assert forall|s: int| 0 <= s < sparse1.len() implies #[trigger] sparse_ok(keys1, sparse1, s) by {
                assert(sparse_ok(keys0, sparse0, s));
                if sparse0[s].kind is Occupied {
                    let d = item_dense_index(sparse0[s]) as int;
                    let p = pos[d];
                    assert(pos[d] >= 0);
                    assert(dense_ok(keys0, sparse0, p));
                    K::lemma_index_nat(sparse0[key_index(keys0[p]) as int].kind->dense_index);
                    K::lemma_index_of_nat(p as nat);
                    assert(keys1[p] == keys0[order@[p] as int]);
                }
            }
            assert forall|t: int| 0 <= t < vacant0.len() implies sparse1[#[trigger] vacant0[t] as int]
                == sparse0[vacant0[t] as int] by {
                assert(vacant_link(sparse0, vacant0, t));
            }
            lemma_chain_frame(sparse0, sparse1, vacant0, self.sparse_vacant_head as nat);
            assert forall|s: int|
                0 <= s < sparse1.len() && (#[trigger] sparse1[s]).kind is Vacant implies vacant0.contains(
                s as nat,
            ) by {
                assert(sparse0[s].kind is Vacant);
            }
            assert(self.wf());
            self.lemma_view_domain();
            old_self.lemma_view_domain();
            assert forall|k: K| #[trigger] self@.contains_key(k) == old_self@.contains_key(k) && (self@.contains_key(
                k,
            ) ==> self@[k] == old_self@[k]) by {
                if self@.contains_key(k) {
                    let f = choose|f: int| 0 <= f < keys1.len() && keys1[f] == k;
                    assert(self@[keys1[f]] == values1[f]);
                    assert(old_self@[keys0[order@[f] as int]] == values0[order@[f] as int]);
                }
                if old_self@.contains_key(k) {
                    let d = choose|d: int| 0 <= d < n && keys0[d] == k;
                    assert(order@.contains(d as usize));
                    let f = choose|f: int| 0 <= f < n && #[trigger] order@[f] == d as usize;
                    assert(keys1[f] == k);
                }
            }
            assert(self@ =~= old_self@);
        }
    }

    /// Cuts the sparse array down to `new_len` slots, all of those cut being
    /// vacant, and rebuilds the vacant list from the slots that stay, lowest
    /// first.
    fn cut_sparse(&mut self, new_len: usize)
        requires
            old(self).wf(),
            new_len < old(self).spec_sparse_len(),
            forall|t: int|
                new_len <= t < old(self).spec_sparse_len() ==> (#[trigger] old(self).sparse_view()[t]).kind is Vacant,
        ensures
            final(self).wf(),
            final(self).dense_keys_view() == old(self).dense_keys_view(),
            final(self).dense_values_view() == old(self).dense_values_view(),
            final(self).spec_sparse_len() == new_len,
            forall|j: int|
                0 <= j < new_len ==> {
                    let o = old(self).sparse_view()[j];
                    let n = #[trigger] final(self).sparse_view()[j];
                    &&& n.epoch == o.epoch
                    &&& o.kind is Occupied ==> n == o
                    &&& o.kind is Vacant ==> n.kind is Vacant
                },
            forall|a: int, b: int|
                0 <= a < b < final(self).vacant_view().len() ==> #[trigger] final(self).vacant_view()[a]
                    < #[trigger] final(self).vacant_view()[b],
    {
        let ghost keys = self.dense_keys@;
        let ghost sparse0 = self.sparse@;
        proof {
            self.lemma_slots_fit();
            K::lemma_index_fits_below((sparse0.len() - 1) as nat, new_len as nat);
        }
        self.sparse.truncate(new_len);
        self.sparse_vacant_head = new_len;
        self.vacant = Ghost(Seq::empty());
        let mut s = new_len;
        while s > 0
            invariant
                s <= new_len,
                new_len < sparse0.len(),
                self.dense_keys@ == keys,
                parts_wf(keys, old(self).dense_values@, sparse0, old(self).vacant@, old(self).sparse_vacant_head as nat),
                forall|t: int| new_len <= t < sparse0.len() ==> (#[trigger] sparse0[t]).kind is Vacant,
                self.dense_values@ == old(self).dense_values@,
                sparse0 == old(self).sparse@,
                keys == old(self).dense_keys@,
                self.sparse@.len() == new_len,
                forall|j: int|
                    0 <= j < new_len ==> {
                        let o = sparse0[j];
                        let n = #[trigger] self.sparse@[j];
                        &&& n.epoch == o.epoch
                        &&& o.kind is Occupied ==> n == o
                        &&& o.kind is Vacant ==> n.kind is Vacant
                    },
                vacant_chain(self.sparse@, self.vacant@, self.sparse_vacant_head as nat),
                K::index_fits(self.sparse_vacant_head as nat),
                K::index_fits(new_len as nat),
                self.sparse_vacant_head <= new_len,
                forall|t: int| 0 <= t < self.vacant@.len() ==> s <= #[trigger] self.vacant@[t] < new_len,
                forall|a: int, b: int|
                    0 <= a < b < self.vacant@.len() ==> #[trigger] self.vacant@[a] < #[trigger] self.vacant@[b],
                forall|j: int|
                    s <= j < new_len && (#[trigger] self.sparse@[j]).kind is Vacant ==> self.vacant@.contains(
                        j as nat,
                    ),
            decreases s,
        {
            s = s - 1;
            let item = self.sparse[s];
            if item.is_vacant() {
                let ghost list = self.vacant@;
                let ghost before = self.sparse@;
                proof {
                    if list.contains(s as nat) {
                        let q = choose|q: int| 0 <= q < list.len() && list[q] == s;
                        assert(s + 1 <= list[q]);
                    }
                }
                link_front(&mut self.sparse, &mut self.sparse_vacant_head, s, item.epoch, Ghost(list));
                self.vacant = Ghost(seq![s as nat] + list);
                proof {
                    K::lemma_index_fits_below(new_len as nat, s as nat);
                    let new_list = self.vacant@;
                    assert forall|t: int| 0 <= t < new_list.len() implies s <= #[trigger] new_list[t] < new_len by {
                        if t > 0 {
                            assert(new_list[t] == list[t - 1]);
                        }
                    }
                    assert forall|a: int, b: int|
                        0 <= a < b < new_list.len() implies #[trigger] new_list[a] < #[trigger] new_list[b] by {
                        assert(new_list[b] == list[b - 1]);
                        if a > 0 {
                            assert(new_list[a] == list[a - 1]);
                        } else {
                            assert(list[b - 1] >= s + 1);
                        }
                    }
                    assert forall|j: int|
                        s <= j < new_len && (#[trigger] self.sparse@[j]).kind is Vacant implies new_list.contains(
                        j as nat,
                    ) by {
                        if j == s {
                            assert(new_list[0] == s);
                        } else {
                            assert(before[j] == self.sparse@[j]);
                            let q = choose|q: int| 0 <= q < list.len() && list[q] == j;
                            assert(new_list[q + 1] == j);
                        }
                    }
                }
            }
        }
        proof {
            let sparse1 = self.sparse@;
            assert forall|d: int| 0 <= d < keys.len() implies #[trigger] dense_ok(keys, sparse1, d) by {
                assert(dense_ok(keys, sparse0, d));
                let j = key_index(keys[d]) as int;
                if j >= new_len {
                    assert(sparse0[j].kind is Vacant);
                }
            }
            assert forall|j: int| 0 <= j < sparse1.len() implies #[trigger] sparse_ok(keys, sparse1, j) by {
                assert(sparse_ok(keys, sparse0, j));
            }
            assert(self.wf());
        }
    }
}

/// Every item's key has a sparse index below `usize::MAX` with a representable
/// successor, and the dense indices below `len` plus the number of items are
/// representable: inserting the items one by one into `len` entries fits.
pub open spec fn items_fit<K: Key, V>(len: nat, items: Seq<DenseItem<K, V>>) -> bool {
    &&& items.len() > 0 ==> K::index_fits((len + items.len() - 1) as nat)
    &&& forall|i: int|
        0 <= i < items.len() ==> key_index(#[trigger] items[i].key) < usize::MAX && K::index_fits(
            key_index(items[i].key) + 1,
        )
}

impl<K: Key, V> EpochSparseArena<K, V> {
    /// Inserts the items in order, each as `insert` does.
    #[verifier::spinoff_prover]
    #[verifier::rlimit(80)]
    pub fn extend(&mut self, items: Vec<DenseItem<K, V>>)
        requires
            old(self).wf(),
            items_fit(old(self).spec_len(), items@),
        ensures
            final(self).wf(),
            exists|states: Seq<Self>|
                {
                    &&& states.len() == items@.len() + 1
                    &&& states[0] == *old(self)
                    &&& states.last() == *final(self)
                    &&& forall|i: int|
                        0 <= i < items@.len() ==> (#[trigger] states[i]).spec_inserted(
                            &states[i + 1],
                            items@[i].key,
                            items@[i].value,
                        )
                },
    {
        let ghost all = items@;
        let n = items.len();
        let mut pending = reversed(items);
        let ghost mut states: Seq<Self> = seq![*self];
        let ghost first = *self;
        proof {
            assert(all.subrange(0, n as int) =~= all);
        }
        let mut i: usize = 0;
        while i < n
            invariant
                i <= n,
                n == all.len(),
                pending@ == all.subrange(i as int, n as int).reverse(),
                self.wf(),
                items_fit(first.spec_len(), all),
                self.spec_len() <= first.spec_len() + i,
                states.len() == i + 1,
                states[0] == first,
                states.last() == *self,
                forall|t: int|
                    0 <= t < i ==> (#[trigger] states[t]).spec_inserted(&states[t + 1], all[t].key, all[t].value),
            decreases n - i,
        {
            let ghost rest = pending@;
            let item = pending.pop().unwrap();
            let ghost before = *self;
            proof {
                assert(rest.last() == all[i as int]);
                assert(pending@ =~= all.subrange(i + 1, n as int).reverse());
                K::lemma_index_fits_below((first.spec_len() + n - 1) as nat, self.spec_len());
            }
            let DenseItem { key, value } = item;
            self.insert(key, value);
            proof {
                if before.spec_slot_taken(key) {
                    assert(sparse_ok(before.dense_keys@, before.sparse@, key_index(key) as int));
                }
                let old_states = states;
                states = states.push(*self);
                assert forall|t: int| 0 <= t < i + 1 implies (#[trigger] states[t]).spec_inserted(
                    &states[t + 1],
                    all[t].key,
                    all[t].value,
                ) by {
                    if t < i {
                        assert(states[t] == old_states[t]);
                        assert(states[t + 1] == old_states[t + 1]);
                    }
                }
            }
            i = i + 1;
        }
        proof {
            assert(states[0] == first);
        }
    }

    /// Stores the values in order under new keys, each as `push` does.  The
    /// dense and the sparse indices reached must be representable.
    #[verifier::spinoff_prover]
    #[verifier::rlimit(80)]
    pub fn extend_values(&mut self, values: Vec<V>)
        requires
            old(self).wf(),
            values@.len() > 0 ==> K::index_fits((old(self).spec_len() + values@.len() - 1) as nat)
                && K::index_fits((old(self).spec_sparse_len() + values@.len() - 1) as nat),
        ensures
            final(self).wf(),
            exists|states: Seq<Self>|
                {
                    &&& states.len() == values@.len() + 1
                    &&& states[0] == *old(self)
                    &&& states.last() == *final(self)
                    &&& forall|i: int|
                        0 <= i < values@.len() ==> (#[trigger] states[i]).wf() && states[i].spec_opened(
                            &states[i + 1],
                            states[i].spec_push_key(),
                            values@[i],
                        )
                },
    {
        let ghost all = values@;
        let n = values.len();
        let mut pending = reversed(values);
        let ghost mut states: Seq<Self> = seq![*self];
        let ghost first = *self;
        proof {
            assert(all.subrange(0, n as int) =~= all);
        }
        let mut i: usize = 0;
        while i < n
            invariant
                i <= n,
                n == all.len(),
                pending@ == all.subrange(i as int, n as int).reverse(),
                self.wf(),
                n > 0 ==> K::index_fits((first.spec_len() + n - 1) as nat) && K::index_fits(
                    (first.spec_sparse_len() + n - 1) as nat,
                ),
                self.spec_len() == first.spec_len() + i,
                self.spec_sparse_len() <= first.spec_sparse_len() + i,
                states.len() == i + 1,
                states[0] == first,
                states.last() == *self,
                forall|t: int|
                    0 <= t < i ==> (#[trigger] states[t]).wf() && states[t].spec_opened(
                        &states[t + 1],
                        states[t].spec_push_key(),
                        all[t],
                    ),
            decreases n - i,
        {
            let ghost rest = pending@;
            let value = pending.pop().unwrap();
            let ghost before = *self;
            proof {
                assert(rest.last() == all[i as int]);
                assert(pending@ =~= all.subrange(i + 1, n as int).reverse());
                K::lemma_index_fits_below((first.spec_len() + n - 1) as nat, self.spec_len());
                if self.vacant@.len() > 0 {
                    assert(vacant_link(self.sparse@, self.vacant@, 0));
                }
                K::lemma_index_fits_below((first.spec_sparse_len() + n - 1) as nat, self.spec_push_slot());
            }
            self.push(value);
            proof {
                let h = before.spec_push_slot();
                let epoch = if before.vacant_view().len() > 0 {
                    before.sparse_view()[h as int].epoch
                } else {
                    K::spec_default_epoch()
                };
                K::lemma_index_of_nat(h);
                K::lemma_new_parts(K::index_of_nat(h), epoch);
                let old_states = states;
                states = states.push(*self);
                assert forall|t: int| 0 <= t < i + 1 implies (#[trigger] states[t]).wf() && states[t].spec_opened(
                    &states[t + 1],
                    states[t].spec_push_key(),
                    all[t],
                ) by {
                    if t < i {
                        assert(states[t] == old_states[t]);
                        assert(states[t + 1] == old_states[t + 1]);
                    }
                }
            }
            i = i + 1;
        }
    }

    /// An arena holding the items, inserted in order as `extend` does.
    pub fn from_items(items: Vec<DenseItem<K, V>>) -> (arena: Self)
        requires
            items_fit(0, items@),
        ensures
            arena.wf(),
            exists|states: Seq<Self>|
                {
                    &&& states.len() == items@.len() + 1
                    &&& states[0].spec_is_blank()
                    &&& states.last() == arena
                    &&& forall|i: int|
                        0 <= i < items@.len() ==> (#[trigger] states[i]).spec_inserted(
                            &states[i + 1],
                            items@[i].key,
                            items@[i].value,
                        )
                },
    {
        let mut arena = Self::new();
        arena.extend(items);
        arena
    }
}

impl<K: Key, V: Clone> Clone for EpochSparseArena<K, V> {
    /// A copy of the arena: the same keys, sparse array and vacant list, and a
    /// clone of each value.
    fn clone(&self) -> (copy: Self)
        ensures
            copy.dense_keys_view() == self.dense_keys_view(),
            copy.sparse_view() == self.sparse_view(),
            copy.vacant_view() == self.vacant_view(),
            copy.dense_values_view().len() == self.dense_values_view().len(),
            forall|d: int|
                0 <= d < self.dense_values_view().len() ==> cloned::<V>(
                    self.dense_values_view()[d],
                    #[trigger] copy.dense_values_view()[d],
                ),
            self.wf() ==> copy.wf(),
    {
        let copy = Self {
            dense_keys: copy_items(&self.dense_keys),
            dense_values: self.dense_values.clone(),
            sparse: copy_items(&self.sparse),
            sparse_vacant_head: self.sparse_vacant_head,
            vacant: Ghost(self.vacant@),
        };
        proof {
            if self.wf() {
                assert(copy.dense_keys@ == self.dense_keys@);
                assert(copy.sparse@ == self.sparse@);
            }
        }
        copy
    }

    /// Makes the arena a copy of `source`, as `clone` would.
    fn clone_from(&mut self, source: &Self)
        ensures
            final(self).dense_keys_view() == source.dense_keys_view(),
            final(self).sparse_view() == source.sparse_view(),
            final(self).vacant_view() == source.vacant_view(),
            final(self).dense_values_view().len() == source.dense_values_view().len(),
            forall|d: int|
                0 <= d < source.dense_values_view().len() ==> cloned::<V>(
                    source.dense_values_view()[d],
                    #[trigger] final(self).dense_values_view()[d],
                ),
            source.wf() ==> final(self).wf(),
    {
        *self = source.clone();
    }
}

/// A copy of `items`, item by item.
pub(crate) fn copy_items<T: Copy>(items: &Vec<T>) -> (copy: Vec<T>)
    ensures
        copy@ == items@,
{
    let n = items.len();
    let mut copy: Vec<T> = Vec::new();
    let mut i: usize = 0;
    while i < n
        invariant
            i <= n,
            n == items@.len(),
            copy@ == items@.subrange(0, i as int),
        decreases n - i,
    {
        copy.push(items[i]);
        i = i + 1;
        proof {
            assert(copy@ =~= items@.subrange(0, i as int));
        }
    }
    proof {
        assert(items@.subrange(0, n as int) =~= items@);
    }
    copy
}

impl<K: Key, V> Default for EpochSparseArena<K, V> {
    /// An empty arena, as `new` makes it.
    fn default() -> (arena: Self)
        ensures
            arena.wf(),
            arena.spec_is_blank(),
            arena@ == Map::<K, V>::empty(),
    {
        Self::new()
    }
}

impl<K: Key, V> View for EpochSparseArena<K, V> {
    type V = Map<K, V>;

    /// The entries of the arena: each key that resolves, with its value.
    open spec fn view(&self) -> Map<K, V> {
        Map::new(
            |key: K| self.spec_lookup(key) is Some,
            |key: K| self.dense_values_view()[self.spec_lookup(key)->0 as int],
        )
    }
}

} // verus!
