use gpecs_sparse::algo::{
    check_parts, sparse_contains_key, sparse_get, sparse_get_epoch, sparse_get_with_key,
    sparse_index, sparse_item_by_epoch, sparse_item_by_index, sparse_item_by_key,
    sparse_item_mut_by_epoch, sparse_item_mut_by_index, sparse_item_mut_by_key,
};
use gpecs_sparse::error::FromPartsError;
use gpecs_sparse::item::sparse::{SparseItem, SparseItemKind};
use gpecs_sparse::key::EpochKey;

fn key(sparse_index: u32, epoch: u32) -> EpochKey {
    EpochKey { sparse_index, epoch }
}

fn occupied(dense_index: u32, epoch: u32) -> SparseItem<EpochKey> {
    SparseItem { kind: SparseItemKind::Occupied { dense_index }, epoch }
}

fn vacant(next_vacant: u32, epoch: u32) -> SparseItem<EpochKey> {
    SparseItem { kind: SparseItemKind::Vacant { next_vacant }, epoch }
}

fn parts() -> (Vec<EpochKey>, Vec<i32>, Vec<SparseItem<EpochKey>>) {
    (vec![key(1, 2)], vec![10], vec![vacant(2, 0), occupied(0, 2)])
}

#[test]
fn sparse_get_resolves_only_matching_epochs() {
    let (keys, values, sparse) = parts();
    assert_eq!(sparse_get(&keys, &values, &sparse, key(1, 2)), Some(&10));
    assert_eq!(sparse_get(&keys, &values, &sparse, key(1, 1)), None);
    assert_eq!(sparse_get(&keys, &values, &sparse, key(0, 0)), None);
    assert_eq!(sparse_get(&keys, &values, &sparse, key(5, 0)), None);
    assert_eq!(*sparse_index(&keys, &values, &sparse, key(1, 2)), 10);
}

#[test]
fn sparse_get_with_key_builds_the_key_of_the_slot() {
    let (keys, values, sparse) = parts();
    assert_eq!(sparse_get_with_key(&keys, &values, &sparse, 1), Some((key(1, 2), &10)));
    assert_eq!(sparse_get_with_key(&keys, &values, &sparse, 0), None);
    assert_eq!(sparse_get_with_key(&keys, &values, &sparse, 7), None);
}

#[test]
fn sparse_get_epoch_reads_any_existing_slot() {
    let (keys, _, sparse) = parts();
    assert_eq!(sparse_get_epoch(&keys, &sparse, 1), Some(2));
    assert_eq!(sparse_get_epoch(&keys, &sparse, 0), Some(0));
    assert_eq!(sparse_get_epoch(&keys, &sparse, 2), None);
}

#[test]
fn sparse_contains_key_needs_slot_and_epoch() {
    let (keys, _, sparse) = parts();
    assert!(sparse_contains_key(&keys, &sparse, key(1, 2)));
    assert!(!sparse_contains_key(&keys, &sparse, key(1, 0)));
    assert!(!sparse_contains_key(&keys, &sparse, key(0, 0)));
    assert!(!sparse_contains_key(&keys, &sparse, key(3, 0)));
}

#[test]
fn sparse_item_lookups() {
    let (_, _, mut sparse) = parts();
    assert_eq!(sparse_item_by_epoch(&sparse, 1, 2), Some(&occupied(0, 2)));
    assert_eq!(sparse_item_by_epoch(&sparse, 1, 3), None);
    assert_eq!(sparse_item_by_epoch(&sparse, 9, 0), None);
    assert_eq!(sparse_item_by_index(&sparse, 0), Some(&vacant(2, 0)));
    assert_eq!(sparse_item_by_index(&sparse, 2), None);
    assert_eq!(sparse_item_by_key(&sparse, key(1, 2)), Some(&occupied(0, 2)));
    assert_eq!(sparse_item_by_key(&sparse, key(0, 1)), None);
    sparse_item_mut_by_key(&mut sparse, key(1, 2)).unwrap().epoch = 4;
    assert_eq!(sparse[1], occupied(0, 4));
    sparse_item_mut_by_index(&mut sparse, 0).unwrap().epoch = 6;
    assert_eq!(sparse[0], vacant(2, 6));
    sparse_item_mut_by_epoch(&mut sparse, 0, 6).unwrap().epoch = 7;
    assert_eq!(sparse[0], vacant(2, 7));
    assert!(sparse_item_mut_by_epoch(&mut sparse, 0, 6).is_none());
    assert!(sparse_item_mut_by_index(&mut sparse, 5).is_none());
    assert!(sparse_item_mut_by_key(&mut sparse, key(1, 2)).is_none());
}

#[test]
fn check_parts_accepts_consistent_parts() {
    let (keys, _, sparse) = parts();
    assert_eq!(check_parts(&keys, &sparse), Ok(()));
    assert_eq!(check_parts::<EpochKey>(&[], &[]), Ok(()));
}

#[test]
fn check_parts_dense_index_out_of_bounds() {
    match check_parts::<EpochKey>(&[], &[occupied(1, 0)]) {
        Err(FromPartsError::DenseIndexOutOfBounds(error)) => {
            assert_eq!(error.dense_index(), 1);
            assert_eq!(error.dense_len(), 0);
        }
        other => panic!("unexpected result {:?}", other),
    }
}

#[test]
fn check_parts_sparse_index_mismatch() {
    match check_parts(&[key(1, 0)], &[occupied(0, 0)]) {
        Err(FromPartsError::SparseIndexMismatch(error)) => {
            assert_eq!(error.actual(), 1);
            assert_eq!(error.expected(), 0);
        }
        other => panic!("unexpected result {:?}", other),
    }
}

#[test]
fn check_parts_epoch_mismatch() {
    match check_parts(&[key(0, 1)], &[occupied(0, 0)]) {
        Err(FromPartsError::EpochMismatch(error)) => {
            assert_eq!(error.actual(), 1);
            assert_eq!(error.expected(), 0);
        }
        other => panic!("unexpected result {:?}", other),
    }
}

#[test]
fn check_parts_sparse_index_out_of_bounds() {
    match check_parts(&[key(2, 0)], &[vacant(1, 0)]) {
        Err(FromPartsError::SparseIndexOutOfBounds(error)) => {
            assert_eq!(error.sparse_index(), 2);
            assert_eq!(error.sparse_len(), 1);
        }
        other => panic!("unexpected result {:?}", other),
    }
}

#[test]
fn check_parts_occupied_sparse_item_expected() {
    match check_parts(&[key(0, 0)], &[vacant(1, 0)]) {
        Err(FromPartsError::OccupiedSparseItemExpected(error)) => {
            assert_eq!(error.sparse_index, 0);
        }
        other => panic!("unexpected result {:?}", other),
    }
}

#[test]
fn check_parts_dense_index_mismatch() {
    match check_parts(&[key(0, 0), key(0, 0)], &[occupied(1, 0)]) {
        Err(FromPartsError::DenseIndexMismatch(error)) => {
            assert_eq!(error.actual(), 1);
            assert_eq!(error.expected(), 0);
        }
        other => panic!("unexpected result {:?}", other),
    }
}

#[test]
fn check_parts_reports_slot_errors_before_entry_errors() {
    // Slot 1 names a missing entry; entry 0 names a missing slot.
    match check_parts(&[key(5, 0)], &[vacant(1, 0), occupied(3, 0)]) {
        Err(FromPartsError::DenseIndexOutOfBounds(error)) => {
            assert_eq!(error.dense_index(), 3);
            assert_eq!(error.dense_len(), 1);
        }
        other => panic!("unexpected result {:?}", other),
    }
}
