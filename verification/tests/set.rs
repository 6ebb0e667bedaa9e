use gpecs_sparse::arena::EpochSparseArena;
use gpecs_sparse::error::{FromPartsError, TryModifyErrorKind};
use gpecs_sparse::item::dense::DenseItem;
use gpecs_sparse::item::sparse::default::DefaultSparseItem;
use gpecs_sparse::key::EpochKey;
use gpecs_sparse::set::{EpochSparseSet, SparseSet};

type EpochSet<V> = EpochSparseSet<EpochKey, V, DefaultSparseItem<EpochKey>>;

fn key(sparse_index: u32, epoch: u32) -> EpochKey {
    EpochKey { sparse_index, epoch }
}

#[test]
fn set_push_takes_the_lowest_vacant_slot() {
    let mut set: EpochSet<char> = EpochSet::new();
    let a = set.push('a');
    let b = set.push('b');
    let c = set.push('c');
    assert_eq!((a, b, c), (key(0, 0), key(1, 0), key(2, 0)));
    assert_eq!(set.remove(c), Some('c'));
    assert_eq!(set.remove(a), Some('a'));
    // Unlike the arena, the set takes the lowest vacant slot first.
    assert_eq!(set.push('d'), key(0, 1));
    assert_eq!(set.push('e'), key(2, 1));
    assert_eq!(set.push('f'), key(3, 0));
    assert_eq!(set.get(b), Some(&'b'));
    assert_eq!(set.get(a), None);
    assert_eq!(set.len(), 4);
}

#[test]
fn set_insert_grows_and_takes_over() {
    let mut set: EpochSet<i32> = EpochSet::new();
    assert_eq!(set.insert(key(2, 3), 5), None);
    assert_eq!(set.sparse_len(), 3);
    assert_eq!(set.get_epoch(0), Some(0));
    assert_eq!(set.insert(key(2, 4), 6), Some(5));
    assert_eq!(set.get(key(2, 3)), None);
    assert_eq!(set.get(key(2, 4)), Some(&6));
    // A stale key stores nothing.
    assert_eq!(set.insert(key(2, 1), 7), None);
    assert_eq!(set.get(key(2, 4)), Some(&6));
    assert_eq!(set.len(), 1);
}

#[test]
fn set_stale_insert_still_grows_the_sparse_array() {
    let mut set: EpochSet<i32> = EpochSet::new();
    let a = set.push(1);
    set.remove(a);
    assert_eq!(set.try_insert(key(0, 0), 2).ok(), Some(None));
    assert!(set.is_empty());
    assert_eq!(set.insert(key(4, 1), 3), None);
    assert_eq!(set.sparse_len(), 5);
}

#[test]
fn set_try_insert_at_the_largest_index_fails() {
    let mut set: EpochSet<i32> = EpochSet::new();
    let error = set.try_insert(key(u32::MAX, 0), 1).err().unwrap();
    assert_eq!(error.value, 1);
    match error.kind {
        TryModifyErrorKind::TooSmallSparseIndex(_) | TryModifyErrorKind::TryReserve(_) => {}
        TryModifyErrorKind::TooLargeSparseIndex(_) => panic!("unexpected error"),
    }
    assert!(set.is_empty());
}

#[test]
fn set_remove_keeps_order_and_swap_remove_moves_the_last() {
    let mut set: EpochSet<i32> = EpochSet::new();
    let k0 = set.push(0);
    let k1 = set.push(1);
    let k2 = set.push(2);
    let k3 = set.push(3);
    assert_eq!(set.remove(k0), Some(0));
    assert_eq!(set.as_key_slice(), &[k1, k2, k3]);
    assert_eq!(set.swap_remove(k1), Some(1));
    assert_eq!(set.as_key_slice(), &[k3, k2]);
    assert_eq!(set.get(k3), Some(&3));
    assert_eq!(set.get(k2), Some(&2));
    assert_eq!(set.swap_remove(k1), None);
    assert_eq!(set.pop(), Some((k2, 2)));
    assert_eq!(set.len(), 1);
    assert_eq!(set.get_epoch(2), Some(1));
}

#[test]
fn set_clear_and_clear_sparse() {
    let mut set: SparseSet<u8> = SparseSet::new();
    let a = set.push(1);
    let b = set.push(2);
    set.clear();
    assert!(set.is_empty());
    assert_eq!(set.sparse_len(), 2);
    assert!(!set.contains_key(a));
    assert_eq!(set.push(3), a);
    assert!(set.contains_key(b) == false);
    set.clear_sparse();
    assert!(set.sparse_is_empty());
    let mut other: EpochSet<u8> = EpochSet::with_capacity(4, 4);
    other.reserve(1, 1);
    assert!(other.try_reserve(1, 1).is_ok());
    assert_eq!(other.try_push(9).ok(), Some(key(0, 0)));
    *other.get_mut(key(0, 0)).unwrap() = 10;
    let ((keys, values), sparse) = other.into_parts();
    assert_eq!(keys, vec![key(0, 0)]);
    assert_eq!(values, vec![10]);
    assert_eq!(sparse, vec![DefaultSparseItem::occupied(0, 0)]);
}

#[test]
fn set_drain_hands_back_dense_order() {
    let mut set: EpochSet<u8> = EpochSet::new();
    let a = set.push(1);
    let b = set.push(2);
    assert_eq!(set.remove(a), Some(1));
    let c = set.push(3);
    let (keys, values) = set.drain();
    assert_eq!(keys, vec![b, c]);
    assert_eq!(values, vec![2, 3]);
    assert!(set.is_empty());
    assert_eq!(set.sparse_len(), 2);
    assert_eq!(set.get_epoch(0), Some(2));
    assert_eq!(set.get_epoch(1), Some(1));
    assert!(!set.contains_key(b));
}

#[test]
fn set_retain_keeps_order_and_renumbers() {
    let mut set: EpochSet<i32> = EpochSet::new();
    let keys: Vec<EpochKey> = (0..5).map(|v| set.push(v)).collect();
    set.retain(|_, v| v % 2 == 0);
    assert_eq!(set.as_key_slice(), &[keys[0], keys[2], keys[4]]);
    assert_eq!(set.as_value_slices(), &[0, 2, 4]);
    assert_eq!(set.get(keys[1]), None);
    assert_eq!(set.get(keys[4]), Some(&4));
    assert_eq!(set.get_epoch(1), Some(1));
    assert_eq!(set.get_epoch(2), Some(0));
    assert_eq!(
        set.as_sparse_slice()[4],
        DefaultSparseItem::occupied(2, 0)
    );
    // The freed slot 1 is taken first.
    assert_eq!(set.push(9), key(1, 1));
}

#[test]
fn set_truncate_cuts_dense_then_sparse() {
    let mut set: EpochSet<i32> = EpochSet::new();
    let a = set.push(10);
    let b = set.push(11);
    let c = set.push(12);
    set.remove(a);
    let d = set.push(13);
    assert_eq!(d, key(0, 1));
    // Dense order is now b, c, d.
    set.truncate(2, 10);
    assert_eq!(set.as_key_slice(), &[b, c]);
    assert_eq!(set.get(d), None);
    assert_eq!(set.get_epoch(0), Some(2));
    assert_eq!(set.sparse_len(), 3);
    set.truncate(5, 2);
    assert_eq!(set.as_key_slice(), &[b]);
    assert_eq!(set.sparse_len(), 2);
    assert_eq!(set.get(c), None);
    assert_eq!(set.get(b), Some(&11));
    set.truncate(0, 0);
    assert!(set.is_empty());
    assert!(set.sparse_is_empty());
}

#[test]
fn set_sort_keys_orders_by_sparse_index() {
    let mut set: SparseSet<char> = SparseSet::new();
    set.insert(3, 'd');
    set.insert(0, 'a');
    set.insert(2, 'c');
    set.insert(1, 'b');
    set.sort_keys();
    assert_eq!(set.as_key_slice(), &[0, 1, 2, 3]);
    assert_eq!(set.as_value_slices(), &['a', 'b', 'c', 'd']);
    assert_eq!(*set.index(2), 'c');
    *set.index_mut(2) = 'z';
    assert_eq!(set.get_with_key(2), Some((2, &'z')));
    if let Some((k, v)) = set.get_mut_with_key(3) {
        assert_eq!(k, 3);
        *v = 'y';
    }
    assert_eq!(set.get(3), Some(&'y'));
    assert_eq!(set.get_with_key(7), None);
    let pairs: Vec<(usize, char)> = set.iter().into_iter().map(|r| (*r.key, *r.value)).collect();
    assert_eq!(pairs, vec![(0, 'a'), (1, 'b'), (2, 'z'), (3, 'y')]);
}

#[test]
fn set_into_keys_and_values() {
    let mut set: EpochSet<u8> = EpochSet::new();
    let a = set.push(1);
    let b = set.push(2);
    set.swap_remove(a);
    let other = {
        let mut s: EpochSet<u8> = EpochSet::new();
        s.push(7);
        s
    };
    assert_eq!(set.into_keys(), vec![b]);
    assert_eq!(other.into_values(), vec![7]);
}

#[test]
fn set_remove_undoes_insert() {
    let mut set: EpochSet<i32> = EpochSet::new();
    let a = set.push(1);
    assert_eq!(set.insert(key(3, 2), 4), None);
    assert_eq!(set.remove(key(3, 2)), Some(4));
    assert_eq!(set.len(), 1);
    assert_eq!(set.as_key_slice(), &[a]);
    assert_eq!(set.get(key(3, 2)), None);
    assert_eq!(set.get(a), Some(&1));
}

#[test]
fn set_clone_copies_entries_and_slots() {
    let mut set: EpochSet<Vec<u8>> = EpochSet::new();
    let a = set.push(vec![1]);
    let b = set.push(vec![2]);
    set.remove(a);
    let mut copy = set.clone();
    assert_eq!(copy.as_key_slice(), &[b]);
    assert_eq!(copy.get(b), Some(&vec![2]));
    assert_eq!(copy.as_sparse_slice(), set.as_sparse_slice());
    copy.clone_from(&EpochSet::new());
    assert!(copy.is_empty());
    assert!(copy.sparse_is_empty());
}

#[test]
fn set_parts_round_trip() {
    let mut set: EpochSet<char> = EpochSet::new();
    let a = set.push('a');
    let b = set.push('b');
    set.remove(a);
    let (dense, sparse) = set.into_parts();
    let rebuilt = EpochSet::from_parts(dense, sparse.clone()).ok().unwrap();
    assert_eq!(rebuilt.as_key_slice(), &[b]);
    assert_eq!(rebuilt.get(b), Some(&'b'));
    assert_eq!(rebuilt.as_sparse_slice(), sparse.as_slice());
}

#[test]
fn set_from_parts_reports_the_first_inconsistency() {
    let keys = vec![key(1, 0)];
    let sparse = vec![DefaultSparseItem::vacant(0, 0), DefaultSparseItem::occupied(0, 3)];
    let error = EpochSet::from_parts((keys, vec![5]), sparse).err().unwrap();
    match error {
        FromPartsError::EpochMismatch(inner) => {
            assert_eq!(inner.actual(), 0);
            assert_eq!(inner.expected(), 3);
        }
        _ => panic!("unexpected error"),
    }
    let error = EpochSet::<i32>::from_parts((vec![key(2, 0)], vec![1]), vec![]).err().unwrap();
    assert!(matches!(error, FromPartsError::SparseIndexOutOfBounds(_)));
}

#[test]
fn set_and_arena_convert_into_each_other() {
    let mut arena: EpochSparseArena<EpochKey, u8> = EpochSparseArena::new();
    let a = arena.push(1);
    let b = arena.push(2);
    let c = arena.push(3);
    arena.remove(a);
    let set: EpochSet<u8> = EpochSparseSet::from_arena(arena);
    assert_eq!(set.as_key_slice(), &[b, c]);
    assert_eq!(set.get(b), Some(&2));
    assert_eq!(set.get(a), None);
    assert_eq!(set.get_epoch(0), Some(1));
    let back: EpochSparseArena<EpochKey, u8> = EpochSparseArena::from_set(set);
    assert_eq!(back.as_keys_slice(), &[b, c]);
    assert_eq!(back.get(c), Some(&3));
    // The rebuilt sparse array reaches just past the largest key's slot.
    assert_eq!(back.sparse_len(), 3);
    assert_eq!(back.get(a), None);
}

#[test]
fn set_shrink_to_truncates_first() {
    let mut set: SparseSet<i32> = SparseSet::new();
    for v in 0..5 {
        set.push(v);
    }
    assert!(set.try_reserve_exact(2, 2).is_ok());
    set.reserve_exact(1, 1);
    set.shrink_to_fit();
    set.sparse_shrink_to(4);
    assert_eq!(set.as_key_slice(), &[0, 1, 2, 3]);
    set.dense_shrink_to(2);
    assert_eq!(set.as_key_slice(), &[0, 1]);
    assert_eq!(set.sparse_len(), 4);
    set.shrink_to(1);
    assert_eq!(set.as_value_slices(), &[0]);
    assert_eq!(set.sparse_len(), 1);
    set.dense_shrink_to_fit();
    set.sparse_shrink_to_fit();
    assert_eq!(set.get(0), Some(&0));
}

#[test]
fn set_extend_inserts_items_in_order() {
    let mut set: EpochSet<i32> = EpochSet::from_items(vec![DenseItem::new(key(2, 1), 21)]);
    assert_eq!(set.sparse_len(), 3);
    assert_eq!(set.get_epoch(0), Some(0));
    set.extend(vec![
        DenseItem::new(key(2, 0), 99),
        DenseItem::new(key(2, 3), 23),
        DenseItem::new(key(5, 0), 50),
    ]);
    // The stale key stores nothing; the newer one takes the slot over.
    assert_eq!(set.get(key(2, 3)), Some(&23));
    assert_eq!(set.get(key(2, 1)), None);
    assert_eq!(set.get(key(5, 0)), Some(&50));
    assert_eq!(set.as_key_slice(), &[key(2, 3), key(5, 0)]);
    assert_eq!(set.sparse_len(), 6);
}

#[test]
fn set_sort_keys_unstable_orders_by_sparse_index() {
    let mut set: SparseSet<char> = SparseSet::new();
    set.insert(2, 'c');
    set.insert(0, 'a');
    set.sort_keys_unstable();
    assert_eq!(set.as_key_slice(), &[0, 2]);
    assert_eq!(set.as_value_slices(), &['a', 'c']);
}

#[test]
fn set_try_reserve_beyond_usize_fails_on_the_dense_side() {
    let mut set: EpochSet<u8> = EpochSet::new();
    set.push(1);
    assert!(matches!(set.try_reserve_exact(usize::MAX, 0), Err(gpecs_sparse::error::TryReserveError::Dense(_))));
    assert!(matches!(set.try_reserve(0, usize::MAX), Err(gpecs_sparse::error::TryReserveError::Sparse(_))));
    assert_eq!(set.len(), 1);
}

#[test]
fn set_try_insert_at_usize_max_fails_to_reserve_the_sparse_array() {
    let mut set: SparseSet<u8> = SparseSet::new();
    set.push(1);
    let error = set.try_insert(usize::MAX, 7).err().unwrap();
    assert_eq!(error.value, 7);
    assert!(matches!(
        error.kind,
        TryModifyErrorKind::TryReserve(gpecs_sparse::error::TryReserveError::Sparse(_))
    ));
    assert_eq!(set.len(), 1);
    assert_eq!(set.sparse_len(), 1);
}

#[test]
fn set_sort_by_orders_entries_by_value() {
    let mut set: EpochSet<i32> = EpochSparseSet::new();
    let a = set.push(30);
    let b = set.push(10);
    let c = set.push(20);
    set.sort_by(|(_, x), (_, y)| x.cmp(y));
    assert_eq!(set.as_value_slices(), &[10, 20, 30]);
    assert_eq!(set.as_key_slice(), &[b, c, a]);
    assert_eq!(set.get(a), Some(&30));
    assert_eq!(set.get(b), Some(&10));
    assert_eq!(set.get(c), Some(&20));
}

#[test]
fn set_sort_unstable_by_orders_by_key_descending() {
    let mut set: EpochSet<char> = EpochSparseSet::new();
    set.push('x');
    set.push('y');
    set.push('z');
    set.sort_unstable_by(|(k, _), (l, _)| l.sparse_index.cmp(&k.sparse_index));
    assert_eq!(set.as_value_slices(), &['z', 'y', 'x']);
}

#[test]
fn set_sort_orders_entries_by_value() {
    let mut set: EpochSet<u8> = EpochSparseSet::new();
    let a = set.push(9);
    let b = set.push(4);
    set.sort();
    assert_eq!(set.as_value_slices(), &[4, 9]);
    assert_eq!(set.as_key_slice(), &[b, a]);
    set.sort_unstable();
    assert_eq!(set.get(a), Some(&9));
}

#[test]
fn set_sort_by_keeps_equal_entries_in_order() {
    let mut set: EpochSet<(u8, char)> = EpochSparseSet::new();
    set.push((3, 'a'));
    set.push((1, 'b'));
    set.push((3, 'c'));
    set.push((1, 'd'));
    set.sort_by(|(_, x), (_, y)| x.0.cmp(&y.0));
    assert_eq!(set.as_value_slices(), &[(1, 'b'), (1, 'd'), (3, 'a'), (3, 'c')]);
}
