use gpecs_sparse::arena::{EpochSparseArena, SparseArena};
use gpecs_sparse::error::{FromPartsError, TryModifyErrorKind};
use gpecs_sparse::item::dense::DenseItem;
use gpecs_sparse::item::sparse::{SparseItem, SparseItemKind};
use gpecs_sparse::key::EpochKey;

fn key(sparse_index: u32, epoch: u32) -> EpochKey {
    EpochKey { sparse_index, epoch }
}

#[test]
fn new_arena_is_empty() {
    let arena: EpochSparseArena<EpochKey, i32> = EpochSparseArena::new();
    assert_eq!(arena.len(), 0);
    assert!(arena.is_empty());
    assert_eq!(arena.sparse_len(), 0);
    assert!(arena.sparse_is_empty());
    assert_eq!(arena.get(key(0, 0)), None);
}

#[test]
fn with_capacity_and_reserve_keep_contents() {
    let mut arena: EpochSparseArena<EpochKey, i32> = EpochSparseArena::with_capacity(4, 4);
    let k = arena.push(7);
    arena.reserve(10, 10);
    assert!(arena.try_reserve(3, 3).is_ok());
    assert_eq!(arena.get(k), Some(&7));
    let other: EpochSparseArena<EpochKey, i32> = EpochSparseArena::try_with_capacity(2, 2).unwrap();
    assert!(other.is_empty());
}

#[test]
fn push_hands_out_fresh_slots_in_order() {
    let mut arena: EpochSparseArena<EpochKey, &str> = EpochSparseArena::new();
    let a = arena.push("a");
    let b = arena.push("b");
    let c = arena.push("c");
    assert_eq!(a, key(0, 0));
    assert_eq!(b, key(1, 0));
    assert_eq!(c, key(2, 0));
    assert_eq!(arena.len(), 3);
    assert_eq!(arena.sparse_len(), 3);
    assert_eq!(arena.get(b), Some(&"b"));
}

#[test]
fn removed_key_goes_stale_and_slot_is_reused_with_next_epoch() {
    let mut arena: EpochSparseArena<EpochKey, i32> = EpochSparseArena::new();
    let a = arena.push(1);
    let b = arena.push(2);
    assert_eq!(arena.remove(a), Some(1));
    assert_eq!(arena.get(a), None);
    assert!(!arena.contains_key(a));
    assert_eq!(arena.get_epoch(0), Some(1));
    let c = arena.push(3);
    assert_eq!(c, key(0, 1));
    assert_ne!(c, a);
    assert_eq!(arena.get(a), None);
    assert_eq!(arena.get(c), Some(&3));
    assert_eq!(arena.get(b), Some(&2));
    assert_eq!(arena.remove(a), None);
}

#[test]
fn remove_keeps_dense_order_of_the_rest() {
    let mut arena: EpochSparseArena<EpochKey, i32> = EpochSparseArena::new();
    let k0 = arena.push(10);
    let k1 = arena.push(11);
    let k2 = arena.push(12);
    assert_eq!(arena.remove(k0), Some(10));
    let ((keys, values), _) = arena.into_parts();
    assert_eq!(keys, vec![k1, k2]);
    assert_eq!(values, vec![11, 12]);
}

#[test]
fn swap_remove_moves_the_last_entry_in() {
    let mut arena: EpochSparseArena<EpochKey, i32> = EpochSparseArena::new();
    let k0 = arena.push(10);
    let k1 = arena.push(11);
    let k2 = arena.push(12);
    assert_eq!(arena.swap_remove(k0), Some(10));
    assert_eq!(arena.get(k1), Some(&11));
    assert_eq!(arena.get(k2), Some(&12));
    let ((keys, values), _) = arena.into_parts();
    assert_eq!(keys, vec![k2, k1]);
    assert_eq!(values, vec![12, 11]);
}

#[test]
fn pop_takes_the_last_entry() {
    let mut arena: EpochSparseArena<EpochKey, i32> = EpochSparseArena::new();
    assert_eq!(arena.pop(), None);
    let k0 = arena.push(10);
    let k1 = arena.push(11);
    assert_eq!(arena.pop(), Some((k1, 11)));
    assert_eq!(arena.get(k1), None);
    assert_eq!(arena.get(k0), Some(&10));
    assert_eq!(arena.len(), 1);
}

#[test]
fn insert_into_free_slot_beyond_the_end_grows_sparse() {
    let mut arena: EpochSparseArena<EpochKey, i32> = EpochSparseArena::new();
    assert_eq!(arena.insert(key(3, 5), 30), None);
    assert_eq!(arena.sparse_len(), 4);
    assert_eq!(arena.len(), 1);
    assert_eq!(arena.get(key(3, 5)), Some(&30));
    assert_eq!(arena.get(key(3, 4)), None);
    // The slots in between are vacant and handed out by push, highest first.
    assert_eq!(arena.push(20), key(2, 0));
    assert_eq!(arena.push(10), key(1, 0));
    assert_eq!(arena.push(0), key(0, 0));
    assert_eq!(arena.push(40), key(4, 0));
}

#[test]
fn insert_takes_over_an_occupied_slot() {
    let mut arena: EpochSparseArena<EpochKey, i32> = EpochSparseArena::new();
    let a = arena.push(1);
    assert_eq!(arena.insert(key(0, 3), 2), Some(1));
    assert_eq!(arena.get(a), None);
    assert_eq!(arena.get(key(0, 3)), Some(&2));
    assert_eq!(arena.len(), 1);
}

#[test]
fn insert_with_a_stale_key_stores_nothing() {
    let mut arena: EpochSparseArena<EpochKey, i32> = EpochSparseArena::new();
    let a = arena.push(1);
    arena.remove(a);
    let b = arena.push(2);
    assert_eq!(b, key(0, 1));
    assert_eq!(arena.try_insert(a, 9).ok(), Some(None));
    assert_eq!(arena.get(b), Some(&2));
    assert_eq!(arena.len(), 1);
}

#[test]
fn insert_into_a_vacant_slot_opens_it() {
    let mut arena: EpochSparseArena<EpochKey, i32> = EpochSparseArena::new();
    let a = arena.push(1);
    let _b = arena.push(2);
    arena.remove(a);
    assert_eq!(arena.insert(key(0, 4), 5), None);
    assert_eq!(arena.get(key(0, 4)), Some(&5));
    assert_eq!(arena.len(), 2);
    assert_eq!(arena.push(6), key(2, 0));
}

#[test]
fn try_insert_at_the_largest_index_fails_and_hands_the_value_back() {
    // The sparse array would have to reach past `u32::MAX`: either reserving
    // room for it fails, or the new length is not a sparse index.
    let mut arena: EpochSparseArena<EpochKey, i32> = EpochSparseArena::new();
    let result = arena.try_insert(key(u32::MAX, 0), 1);
    let error = result.err().unwrap();
    assert_eq!(error.value, 1);
    match error.kind {
        TryModifyErrorKind::TooSmallSparseIndex(inner) => {
            assert_eq!(inner.into_inner(), u32::MAX as usize + 1)
        }
        TryModifyErrorKind::TryReserve(_) => {}
        TryModifyErrorKind::TooLargeSparseIndex(_) => panic!("unexpected error"),
    }
    assert!(arena.is_empty());
    assert_eq!(arena.sparse_len(), 0);
}

#[test]
fn get_mut_changes_the_value() {
    let mut arena: EpochSparseArena<EpochKey, i32> = EpochSparseArena::new();
    let a = arena.push(1);
    *arena.get_mut(a).unwrap() = 5;
    assert_eq!(arena.get(a), Some(&5));
    assert!(arena.get_mut(key(1, 0)).is_none());
}

#[test]
fn clear_makes_every_key_stale() {
    let mut arena: EpochSparseArena<EpochKey, i32> = EpochSparseArena::new();
    let a = arena.push(1);
    let b = arena.push(2);
    arena.clear();
    assert!(arena.is_empty());
    assert_eq!(arena.sparse_len(), 2);
    assert_eq!(arena.get(a), None);
    assert_eq!(arena.get(b), None);
    // The slot of the last entry is handed out first.
    assert_eq!(arena.push(3), key(1, 1));
    assert_eq!(arena.push(4), key(0, 1));
}

#[test]
fn drain_hands_back_entries_in_dense_order() {
    let mut arena: EpochSparseArena<EpochKey, i32> = EpochSparseArena::new();
    let a = arena.push(1);
    let b = arena.push(2);
    let (keys, values) = arena.drain();
    assert_eq!(keys, vec![a, b]);
    assert_eq!(values, vec![1, 2]);
    assert!(arena.is_empty());
    assert_eq!(arena.get(a), None);
}

#[test]
fn clear_sparse_forgets_every_slot() {
    let mut arena: EpochSparseArena<EpochKey, i32> = EpochSparseArena::new();
    arena.push(1);
    arena.push(2);
    arena.clear_sparse();
    assert!(arena.is_empty());
    assert!(arena.sparse_is_empty());
    assert_eq!(arena.push(3), key(0, 0));
}

#[test]
fn usize_keys_have_no_epochs() {
    let mut arena: SparseArena<char> = SparseArena::new();
    let a = arena.push('a');
    let b = arena.push('b');
    assert_eq!((a, b), (0, 1));
    assert_eq!(arena.remove(a), Some('a'));
    assert_eq!(arena.push('c'), 0);
    assert_eq!(arena.get(0), Some(&'c'));
    assert_eq!(arena.insert(5, 'f'), None);
    assert_eq!(arena.insert(5, 'g'), Some('f'));
    assert_eq!(arena.get(5), Some(&'g'));
}

#[test]
fn parts_round_trip_keeps_entries() {
    let mut arena: EpochSparseArena<EpochKey, i32> = EpochSparseArena::new();
    let a = arena.push(1);
    let b = arena.push(2);
    let c = arena.push(3);
    arena.remove(b);
    let (dense, sparse) = arena.into_parts();
    let rebuilt = EpochSparseArena::from_parts(dense, sparse).ok().unwrap();
    assert_eq!(rebuilt.get(a), Some(&1));
    assert_eq!(rebuilt.get(c), Some(&3));
    assert_eq!(rebuilt.get(b), None);
    assert_eq!(rebuilt.len(), 2);
    assert_eq!(rebuilt.sparse_len(), 3);
    // Vacant slots of the rebuilt sparse array carry the default epoch.
    assert_eq!(rebuilt.get_epoch(1), Some(0));
}

#[test]
fn from_parts_reports_the_first_inconsistency() {
    let keys = vec![key(0, 0)];
    let values = vec![1];
    let sparse = vec![SparseItem::<EpochKey> {
        kind: SparseItemKind::Occupied { dense_index: 0 },
        epoch: 2,
    }];
    let error = EpochSparseArena::from_parts((keys, values), sparse).err().unwrap();
    match error {
        FromPartsError::EpochMismatch(inner) => {
            assert_eq!(inner.actual(), 0);
            assert_eq!(inner.expected(), 2);
        }
        _ => panic!("unexpected error"),
    }
}

#[test]
fn from_parts_shrinks_the_sparse_array_to_the_keys() {
    let keys = vec![key(1, 3)];
    let values = vec!["x"];
    let sparse = vec![
        SparseItem::<EpochKey> { kind: SparseItemKind::Vacant { next_vacant: 2 }, epoch: 7 },
        SparseItem::<EpochKey> { kind: SparseItemKind::Occupied { dense_index: 0 }, epoch: 3 },
        SparseItem::<EpochKey> { kind: SparseItemKind::Vacant { next_vacant: 3 }, epoch: 9 },
    ];
    let arena = EpochSparseArena::from_parts((keys, values), sparse).ok().unwrap();
    assert_eq!(arena.sparse_len(), 2);
    assert_eq!(arena.get(key(1, 3)), Some(&"x"));
    assert_eq!(arena.get_epoch(0), Some(0));
}

#[test]
fn from_parts_rejects_a_key_beyond_the_sparse_array() {
    let keys = vec![key(u32::MAX, 0)];
    let values = vec![0u8];
    let sparse: Vec<SparseItem<EpochKey>> = Vec::new();
    let error = EpochSparseArena::from_parts((keys, values), sparse).err().unwrap();
    match error {
        FromPartsError::SparseIndexOutOfBounds(inner) => {
            assert_eq!(inner.sparse_index(), u32::MAX as usize);
            assert_eq!(inner.sparse_len(), 0);
        }
        _ => panic!("unexpected error"),
    }
}

#[test]
fn retain_keeps_matching_entries_in_order() {
    let mut arena: EpochSparseArena<EpochKey, i32> = EpochSparseArena::new();
    let k0 = arena.push(1);
    let k1 = arena.push(2);
    let k2 = arena.push(3);
    let k3 = arena.push(4);
    arena.retain(|_, value| *value % 2 == 0);
    assert_eq!(arena.len(), 2);
    assert_eq!(arena.get(k0), None);
    assert_eq!(arena.get(k2), None);
    assert_eq!(arena.get(k1), Some(&2));
    assert_eq!(arena.get(k3), Some(&4));
    assert_eq!(arena.as_keys_slice(), &[k1, k3]);
    assert_eq!(arena.as_slices(), &[2, 4]);
    assert_eq!(arena.get_epoch(0), Some(1));
    // The slot of the last dropped entry is handed out first.
    assert_eq!(arena.push(5), key(2, 1));
    assert_eq!(arena.push(6), key(0, 1));
}

#[test]
fn retain_sees_keys() {
    let mut arena: EpochSparseArena<EpochKey, char> = EpochSparseArena::new();
    let a = arena.push('a');
    let b = arena.push('b');
    arena.retain(|k, _| k.sparse_index == 1);
    assert_eq!(arena.get(a), None);
    assert_eq!(arena.get(b), Some(&'b'));
    arena.retain(|_, _| true);
    assert_eq!(arena.len(), 1);
    arena.retain(|_, _| false);
    assert!(arena.is_empty());
    assert_eq!(arena.get(b), None);
}

#[test]
fn index_and_index_mut() {
    let mut arena: EpochSparseArena<EpochKey, i32> = EpochSparseArena::new();
    let a = arena.push(1);
    assert_eq!(*arena.index(a), 1);
    *arena.index_mut(a) += 10;
    assert_eq!(*arena.index(a), 11);
}

#[test]
fn get_with_key_rebuilds_the_key() {
    let mut arena: EpochSparseArena<EpochKey, i32> = EpochSparseArena::new();
    let a = arena.push(1);
    arena.remove(a);
    let b = arena.push(2);
    assert_eq!(arena.get_with_key(0), Some((b, &2)));
    assert_eq!(arena.get_with_key(1), None);
    {
        let (k, v) = arena.get_mut_with_key(0).unwrap();
        assert_eq!(k, key(0, 1));
        *v = 7;
    }
    assert_eq!(arena.get(b), Some(&7));
    assert!(arena.get_mut_with_key(3).is_none());
}

#[test]
fn slices_of_the_parts() {
    let mut arena: EpochSparseArena<EpochKey, i32> = EpochSparseArena::new();
    let a = arena.push(1);
    let b = arena.push(2);
    arena.remove(a);
    assert_eq!(arena.as_keys_slice(), &[b]);
    assert_eq!(arena.as_slices(), &[2]);
    assert_eq!(
        arena.as_sparse_slice(),
        &[
            SparseItem::vacant(2, 1),
            SparseItem::occupied(0, 0),
        ]
    );
    assert_eq!(arena.into_sparse_vec().len(), 2);
}

#[test]
fn truncate_dense_removes_the_tail() {
    let mut arena: EpochSparseArena<EpochKey, i32> = EpochSparseArena::new();
    let k0 = arena.push(0);
    let k1 = arena.push(1);
    let k2 = arena.push(2);
    arena.truncate(1, 10);
    assert_eq!(arena.len(), 1);
    assert_eq!(arena.sparse_len(), 3);
    assert_eq!(arena.get(k0), Some(&0));
    assert_eq!(arena.get(k1), None);
    assert_eq!(arena.get(k2), None);
    assert_eq!(arena.get_epoch(1), Some(1));
    assert_eq!(arena.get_epoch(2), Some(1));
    // Removed last first: slot 1 heads the vacant list.
    assert_eq!(arena.push(5), key(1, 1));
}

#[test]
fn truncate_sparse_drops_entries_in_cut_slots() {
    let mut arena: EpochSparseArena<EpochKey, i32> = EpochSparseArena::new();
    let k0 = arena.push(0);
    let k1 = arena.push(1);
    let k2 = arena.push(2);
    let k3 = arena.push(3);
    arena.remove(k1);
    arena.truncate(10, 2);
    assert_eq!(arena.sparse_len(), 2);
    assert_eq!(arena.len(), 1);
    assert_eq!(arena.get(k0), Some(&0));
    assert_eq!(arena.get(k2), None);
    assert_eq!(arena.get(k3), None);
    assert_eq!(arena.as_keys_slice(), &[k0]);
    // The vacant list is rebuilt from the slots left, lowest first.
    assert_eq!(arena.push(7), key(1, 1));
    assert_eq!(arena.push(8), key(2, 0));
}

#[test]
fn truncate_to_nothing() {
    let mut arena: SparseArena<u8> = SparseArena::new();
    arena.push(1);
    arena.push(2);
    arena.truncate(0, 0);
    assert!(arena.is_empty());
    assert!(arena.sparse_is_empty());
    assert_eq!(arena.push(3), 0);
}

#[test]
fn sort_keys_orders_entries_by_sparse_index() {
    let mut arena: EpochSparseArena<EpochKey, char> = EpochSparseArena::new();
    assert_eq!(arena.insert(key(4, 0), 'e'), None);
    assert_eq!(arena.insert(key(1, 2), 'b'), None);
    assert_eq!(arena.insert(key(3, 1), 'd'), None);
    arena.sort_keys();
    assert_eq!(arena.as_keys_slice(), &[key(1, 2), key(3, 1), key(4, 0)]);
    assert_eq!(arena.as_slices(), &['b', 'd', 'e']);
    assert_eq!(arena.get(key(3, 1)), Some(&'d'));
    assert_eq!(arena.get(key(4, 0)), Some(&'e'));
    assert_eq!(arena.sparse_len(), 5);
    // The vacant list is untouched: slots 3 and 2 were vacant before the
    // inserts into them, so 2 and then 0 are handed out next.
    assert_eq!(arena.push('c'), key(2, 0));
    assert_eq!(arena.push('a'), key(0, 0));
}

#[test]
fn from_values_numbers_the_values() {
    let mut arena: EpochSparseArena<EpochKey, char> = EpochSparseArena::from_values(vec!['x', 'y', 'z']);
    assert_eq!(arena.len(), 3);
    assert_eq!(arena.sparse_len(), 3);
    assert_eq!(arena.get(key(1, 0)), Some(&'y'));
    assert_eq!(arena.push('w'), key(3, 0));
    let empty: SparseArena<u8> = SparseArena::from_values(Vec::new());
    assert!(empty.is_empty());
}

#[test]
fn iter_and_into_parts_follow_dense_order() {
    let mut arena: EpochSparseArena<EpochKey, i32> = EpochSparseArena::default();
    let a = arena.push(10);
    let b = arena.push(20);
    let entries = arena.iter();
    assert_eq!(entries.len(), 2);
    assert_eq!((*entries[0].key, *entries[0].value), (a, 10));
    assert_eq!((*entries[1].key, *entries[1].value), (b, 20));
    drop(entries);
    let mut other: EpochSparseArena<EpochKey, i32> = EpochSparseArena::new();
    other.push(1);
    assert_eq!(other.into_keys(), vec![key(0, 0)]);
    assert_eq!(arena.into_values(), vec![10, 20]);
}

#[test]
fn remove_undoes_push() {
    let mut arena: EpochSparseArena<EpochKey, i32> = EpochSparseArena::new();
    let a = arena.push(1);
    let b = arena.push(2);
    let keys_before = arena.as_keys_slice().to_vec();
    let values_before = arena.as_slices().to_vec();
    let c = arena.push(3);
    assert_eq!(arena.remove(c), Some(3));
    assert_eq!(arena.as_keys_slice(), keys_before.as_slice());
    assert_eq!(arena.as_slices(), values_before.as_slice());
    assert_eq!(arena.len(), 2);
    assert_eq!(arena.get(a), Some(&1));
    assert_eq!(arena.get(b), Some(&2));
    assert_eq!(arena.get(c), None);
}

#[test]
fn clone_copies_entries_and_slots() {
    let mut arena: EpochSparseArena<EpochKey, String> = EpochSparseArena::new();
    let a = arena.push("a".to_string());
    let b = arena.push("b".to_string());
    arena.remove(a);
    let copy = arena.clone();
    assert_eq!(copy.as_keys_slice(), arena.as_keys_slice());
    assert_eq!(copy.as_slices(), arena.as_slices());
    assert_eq!(copy.as_sparse_slice(), arena.as_sparse_slice());
    assert_eq!(copy.get(b), Some(&"b".to_string()));
    let mut other: EpochSparseArena<EpochKey, String> = EpochSparseArena::new();
    other.push("x".to_string());
    other.clone_from(&arena);
    assert_eq!(other.as_keys_slice(), &[b]);
    assert_eq!(other.get(a), None);
    // The copy hands out the same slot next, as the arena does.
    let mut copy = copy;
    assert_eq!(copy.push("c".to_string()), arena.push("c".to_string()));
}

#[test]
fn shrink_to_truncates_first() {
    let mut arena: EpochSparseArena<EpochKey, i32> = EpochSparseArena::new();
    for v in 0..5 {
        arena.push(v);
    }
    assert!(arena.try_reserve_exact(4, 4).is_ok());
    arena.reserve_exact(2, 2);
    assert_eq!(arena.len(), 5);
    arena.shrink_to_fit();
    assert_eq!(arena.len(), 5);
    arena.dense_shrink_to(4);
    assert_eq!(arena.len(), 4);
    assert_eq!(arena.sparse_len(), 5);
    arena.sparse_shrink_to(3);
    assert_eq!(arena.as_keys_slice(), &[key(0, 0), key(1, 0), key(2, 0)]);
    assert_eq!(arena.sparse_len(), 3);
    arena.shrink_to(1);
    assert_eq!(arena.as_slices(), &[0]);
    assert_eq!(arena.sparse_len(), 1);
    arena.dense_shrink_to_fit();
    arena.sparse_shrink_to_fit();
    assert_eq!(arena.get(key(0, 0)), Some(&0));
}

#[test]
fn extend_inserts_items_in_order() {
    let mut arena: EpochSparseArena<EpochKey, i32> = EpochSparseArena::from_items(vec![
        DenseItem::new(key(1, 0), 10),
        DenseItem::new(key(0, 2), 20),
    ]);
    assert_eq!(arena.as_keys_slice(), &[key(1, 0), key(0, 2)]);
    assert_eq!(arena.sparse_len(), 2);
    arena.extend(vec![
        DenseItem::new(key(1, 1), 11),
        DenseItem::new(key(0, 1), 99),
        DenseItem::new(key(3, 0), 30),
    ]);
    // The newer key takes slot 1 over, the stale one stores nothing.
    assert_eq!(arena.get(key(1, 1)), Some(&11));
    assert_eq!(arena.get(key(1, 0)), None);
    assert_eq!(arena.get(key(0, 2)), Some(&20));
    assert_eq!(arena.get(key(0, 1)), None);
    assert_eq!(arena.get(key(3, 0)), Some(&30));
    assert_eq!(arena.len(), 3);
}

#[test]
fn extend_values_pushes_each_value() {
    let mut arena: EpochSparseArena<EpochKey, i32> = EpochSparseArena::new();
    let a = arena.push(1);
    arena.push(2);
    arena.remove(a);
    arena.extend_values(vec![3, 4]);
    // The vacated slot is taken first, with its next epoch.
    assert_eq!(arena.as_keys_slice(), &[key(1, 0), key(0, 1), key(2, 0)]);
    assert_eq!(arena.as_slices(), &[2, 3, 4]);
}

#[test]
fn sort_keys_unstable_orders_by_sparse_index() {
    let mut arena: SparseArena<char> = SparseArena::new();
    arena.insert(2, 'c');
    arena.insert(0, 'a');
    arena.insert(1, 'b');
    arena.sort_keys_unstable();
    assert_eq!(arena.as_keys_slice(), &[0, 1, 2]);
    assert_eq!(arena.as_slices(), &['a', 'b', 'c']);
}

#[test]
fn try_reserve_beyond_usize_fails_on_the_dense_side() {
    let mut arena: EpochSparseArena<EpochKey, u8> = EpochSparseArena::new();
    arena.push(1);
    assert!(matches!(arena.try_reserve(usize::MAX, 0), Err(gpecs_sparse::error::TryReserveError::Dense(_))));
    assert!(matches!(arena.try_reserve_exact(0, usize::MAX), Err(gpecs_sparse::error::TryReserveError::Sparse(_))));
    assert_eq!(arena.len(), 1);
}

#[test]
fn try_insert_at_usize_max_fails_to_reserve_the_sparse_array() {
    let mut arena: SparseArena<u8> = SparseArena::new();
    arena.push(1);
    let error = arena.try_insert(usize::MAX, 7).err().unwrap();
    assert_eq!(error.value, 7);
    assert!(matches!(
        error.kind,
        TryModifyErrorKind::TryReserve(gpecs_sparse::error::TryReserveError::Sparse(_))
    ));
    assert_eq!(arena.len(), 1);
    assert_eq!(arena.sparse_len(), 1);
}

#[test]
fn from_parts_builds_the_vacant_list_in_key_order() {
    // Key 3 grows the sparse array to 4 slots (vacant list 2, 1, 0); key 0
    // then takes slot 0 off the list.
    let keys = vec![key(3, 0), key(0, 0)];
    let values = vec!["d", "a"];
    let sparse = vec![
        SparseItem::<EpochKey>::occupied(1, 0),
        SparseItem::<EpochKey>::vacant(2, 0),
        SparseItem::<EpochKey>::vacant(4, 0),
        SparseItem::<EpochKey>::occupied(0, 0),
    ];
    let mut arena = EpochSparseArena::from_parts((keys, values), sparse).ok().unwrap();
    assert_eq!(
        arena.as_sparse_slice(),
        &[
            SparseItem::occupied(1, 0),
            SparseItem::vacant(4, 0),
            SparseItem::vacant(1, 0),
            SparseItem::occupied(0, 0),
        ]
    );
    assert_eq!(arena.push("c"), key(2, 0));
    assert_eq!(arena.push("b"), key(1, 0));
    assert_eq!(arena.push("e"), key(4, 0));
}

#[test]
fn try_insert_into_a_gap_links_the_new_vacant_slot_to_the_end() {
    let mut arena: EpochSparseArena<EpochKey, u32> = EpochSparseArena::new();
    arena.push(7);
    assert!(matches!(arena.try_insert(key(2, 0), 9), Ok(None)));
    assert_eq!(arena.len(), 2);
    assert_eq!(arena.as_keys_slice(), &[key(0, 0), key(2, 0)]);
    assert_eq!(
        arena.as_sparse_slice(),
        &[
            SparseItem::occupied(0, 0),
            SparseItem::vacant(3, 0),
            SparseItem::occupied(1, 0),
        ]
    );
    assert_eq!(arena.get(key(2, 0)), Some(&9));
    assert_eq!(arena.push(5), key(1, 0));
}

#[test]
fn remove_links_the_freed_slot_to_the_old_head() {
    let mut arena: EpochSparseArena<EpochKey, u32> = EpochSparseArena::new();
    arena.push(10);
    arena.push(20);
    arena.push(30);
    assert_eq!(arena.remove(key(0, 0)), Some(10));
    assert_eq!(arena.as_slices(), &[20, 30]);
    assert_eq!(arena.as_keys_slice(), &[key(1, 0), key(2, 0)]);
    assert_eq!(arena.get(key(2, 0)), Some(&30));
    assert_eq!(
        arena.as_sparse_slice(),
        &[
            SparseItem::vacant(3, 1),
            SparseItem::occupied(0, 0),
            SparseItem::occupied(1, 0),
        ]
    );
}

#[test]
fn removing_a_missing_key_changes_nothing() {
    let mut arena: EpochSparseArena<EpochKey, u32> = EpochSparseArena::new();
    arena.push(10);
    assert_eq!(arena.remove(key(5, 0)), None);
    assert_eq!(arena.swap_remove(key(0, 1)), None);
    assert_eq!(arena.as_sparse_slice(), &[SparseItem::occupied(0, 0)]);
}

#[test]
fn sort_by_orders_entries_by_value_and_repoints_slots() {
    let mut arena: EpochSparseArena<EpochKey, i32> = EpochSparseArena::new();
    let a = arena.push(3);
    let b = arena.push(1);
    let c = arena.push(2);
    arena.remove(b);
    let d = arena.push(0);
    arena.sort_by(|(_, x), (_, y)| x.cmp(y));
    assert_eq!(arena.as_slices(), &[0, 2, 3]);
    assert_eq!(arena.as_keys_slice(), &[d, c, a]);
    assert_eq!(arena.get(a), Some(&3));
    assert_eq!(arena.get(c), Some(&2));
    assert_eq!(arena.get(d), Some(&0));
    assert_eq!(
        arena.as_sparse_slice(),
        &[
            SparseItem::occupied(2, 0),
            SparseItem::occupied(0, 1),
            SparseItem::occupied(1, 0),
        ]
    );
}

#[test]
fn sort_by_keeps_equal_entries_in_order() {
    let mut arena: EpochSparseArena<EpochKey, (u8, char)> = EpochSparseArena::new();
    arena.push((2, 'a'));
    arena.push((1, 'b'));
    arena.push((2, 'c'));
    arena.push((1, 'd'));
    arena.sort_by(|(_, x), (_, y)| x.0.cmp(&y.0));
    assert_eq!(arena.as_slices(), &[(1, 'b'), (1, 'd'), (2, 'a'), (2, 'c')]);
}

#[test]
fn sort_unstable_by_orders_by_key_descending() {
    let mut arena: EpochSparseArena<EpochKey, &str> = EpochSparseArena::new();
    arena.push("a");
    arena.push("b");
    arena.push("c");
    arena.sort_unstable_by(|(k, _), (l, _)| l.sparse_index.cmp(&k.sparse_index));
    assert_eq!(arena.as_slices(), &["c", "b", "a"]);
    assert_eq!(arena.get(key(0, 0)), Some(&"a"));
}

#[test]
fn sort_orders_entries_by_value() {
    let mut arena: EpochSparseArena<EpochKey, i32> = EpochSparseArena::new();
    let a = arena.push(5);
    let b = arena.push(-1);
    let c = arena.push(3);
    arena.sort();
    assert_eq!(arena.as_slices(), &[-1, 3, 5]);
    assert_eq!(arena.as_keys_slice(), &[b, c, a]);
    arena.sort_unstable();
    assert_eq!(arena.as_slices(), &[-1, 3, 5]);
    assert_eq!(arena.get(a), Some(&5));
}

#[test]
fn sort_keeps_equal_values_in_their_old_order() {
    let mut arena: EpochSparseArena<EpochKey, u8> = EpochSparseArena::new();
    let a = arena.push(2);
    let b = arena.push(1);
    let c = arena.push(2);
    let d = arena.push(1);
    arena.sort();
    assert_eq!(arena.as_slices(), &[1, 1, 2, 2]);
    assert_eq!(arena.as_keys_slice(), &[b, d, a, c]);
}

#[test]
fn try_with_capacity_refuses_more_than_isize_max_bytes() {
    let result: Result<EpochSparseArena<EpochKey, u64>, _> = EpochSparseArena::try_with_capacity(usize::MAX / 2, 0);
    assert!(result.is_err());
}
