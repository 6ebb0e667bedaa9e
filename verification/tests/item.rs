use gpecs_sparse::asserts::{
    assert_compatible_key, assert_equal_key, assert_occupied, assert_vacant, unwrap_dense,
    unwrap_dense_from_sparse_index, unwrap_dense_index, unwrap_dense_pair, unwrap_into_index,
    unwrap_into_usize, unwrap_next_vacant, unwrap_next_vacant_mut, unwrap_sparse_item,
    unwrap_sparse_item_mut, unwrap_sparse_pair,
};
use gpecs_sparse::error::{
    DenseIndexMismatchError, EpochMismatchError, SparseIndexMismatchError,
    TooLargeSparseIndexError, TooSmallSparseIndexError,
};
use gpecs_sparse::item::dense::{DenseItem, DenseRefs, DenseRefsMut};
use gpecs_sparse::item::sparse::default::{DefaultSparseItem, DefaultSparseItemKind};
use gpecs_sparse::item::sparse::traits::{ArenaSparseItem, SparseIndexKind, SparseItem as _};
use gpecs_sparse::item::sparse::{SparseItem, SparseItemKind};
use gpecs_sparse::key::{EpochKey, Key, NoEpoch};

#[test]
fn sparse_item_kind_accessors() {
    let mut occupied: SparseItemKind<u32> = SparseItemKind::occupied(3);
    let vacant: SparseItemKind<u32> = SparseItemKind::vacant(7);
    assert!(occupied.is_occupied() && !occupied.is_vacant());
    assert!(vacant.is_vacant() && !vacant.is_occupied());
    assert_eq!(occupied.dense_index(), Some(&3));
    assert_eq!(vacant.dense_index(), None);
    assert_eq!(occupied.next_vacant(), None);
    assert_eq!(vacant.next_vacant(), Some(&7));
    *occupied.dense_index_mut().unwrap() = 4;
    assert_eq!(occupied.into_dense_index(), Some(4));
    assert_eq!(vacant.into_next_vacant(), Some(7));
    assert_eq!(vacant.into_dense_index(), None);
    let mut other = vacant;
    *other.next_vacant_mut().unwrap() = 9;
    assert_eq!(other, SparseItemKind::Vacant { next_vacant: 9 });
    assert!(other.dense_index_mut().is_none());
}

#[test]
fn sparse_item_accessors() {
    let mut item: SparseItem<EpochKey> = SparseItem::occupied(2, 5);
    assert_eq!(item.kind(), &SparseItemKind::Occupied { dense_index: 2 });
    assert!(item.is_occupied());
    assert_eq!(item.dense_index(), Some(&2));
    *item.dense_index_mut().unwrap() = 6;
    assert_eq!(item.into_dense_index(), Some(6));
    *item.kind_mut() = SparseItemKind::vacant(1);
    assert!(item.is_vacant());
    assert_eq!(item.next_vacant(), Some(&1));
    *item.next_vacant_mut().unwrap() = 8;
    assert_eq!(item.into_next_vacant(), Some(8));
    assert_eq!(item.into_kind(), SparseItemKind::Vacant { next_vacant: 8 });
    let vacant: SparseItem<EpochKey> = SparseItem::vacant(0, 1);
    assert_eq!(vacant, SparseItem::new(SparseItemKind::Vacant { next_vacant: 0 }, 1));
}

#[test]
fn default_sparse_item_accessors() {
    let mut item: DefaultSparseItem<EpochKey> = DefaultSparseItem::occupied(2, 5);
    assert!(item.is_occupied());
    assert_eq!(item.kind(), &DefaultSparseItemKind::Occupied { dense_index: 2 });
    *item.dense_index_mut().unwrap() = 3;
    assert_eq!(item.into_dense_index(), Some(3));
    let mut vacant: DefaultSparseItem<EpochKey> = DefaultSparseItem::vacant(4, 1);
    assert!(vacant.is_vacant());
    *vacant.next_vacant_mut().unwrap() = 5;
    assert_eq!(vacant.into_next_vacant(), Some(5));
    assert_eq!(vacant.into_kind(), DefaultSparseItemKind::vacant(5));
    *vacant.kind_mut() = DefaultSparseItemKind::occupied(0);
    assert_eq!(vacant.next_vacant(), None);
}

#[test]
fn default_sparse_item_traits() {
    let occupied = <DefaultSparseItem<EpochKey> as gpecs_sparse::item::sparse::traits::SparseItem>::occupied(4, 1);
    assert_eq!(occupied.epoch, 4);
    assert_eq!(gpecs_sparse::item::sparse::traits::SparseItem::dense_index(occupied), Some(1));
    assert_eq!(occupied.index(), (1, SparseIndexKind::Dense));
    assert_eq!(ArenaSparseItem::next_vacant(occupied), None);
    let vacant = <DefaultSparseItem<EpochKey> as gpecs_sparse::item::sparse::traits::SparseItem>::vacant(2);
    assert_eq!(gpecs_sparse::item::sparse::traits::SparseItem::epoch(vacant), 2);
    assert_eq!(vacant.index(), (0, SparseIndexKind::NextVacant));
    let linked = DefaultSparseItem::<EpochKey>::with_next_vacant(3, 9);
    assert_eq!(ArenaSparseItem::next_vacant(linked), Some(9));
    assert!(gpecs_sparse::item::sparse::traits::SparseItem::is_vacant(linked));
    assert!(gpecs_sparse::item::sparse::traits::SparseItem::is_occupied(occupied));
}

#[test]
fn dense_items() {
    let mut item = DenseItem::new(1u32, "one");
    {
        let refs = item.as_refs();
        assert_eq!((*refs.key, *refs.value), (1, "one"));
    }
    {
        let refs = item.as_refs_mut();
        *refs.value = "uno";
        let (key, _) = refs.into_parts();
        *key = 2;
    }
    assert_eq!(item.into_parts(), (2, "uno"));
    let (mut k, mut v) = (5u8, 6u8);
    let refs = DenseRefsMut::new(&mut k, &mut v);
    let shared: DenseRefs<'_, u8, u8> = refs.into_refs();
    assert_eq!(shared.into_parts(), (&5, &6));
}

#[test]
fn keys_split_into_index_and_epoch() {
    let k = EpochKey::new(3, 4);
    assert_eq!(k.sparse_index(), 3);
    assert_eq!(Key::epoch(&k), 4);
    assert_eq!(EpochKey::next_epoch(4), 5);
    assert_eq!(EpochKey::next_epoch(u32::MAX), 0);
    assert_eq!(EpochKey::default_epoch(), 0);
    assert_eq!(EpochKey::index_from_usize(7), Some(7));
    assert_eq!(EpochKey::index_from_usize(u32::MAX as usize + 1), None);
    assert_eq!(EpochKey::index_into_usize(7), Some(7));
    assert!(EpochKey::epoch_ge(3, 3) && !EpochKey::epoch_ge(2, 3));
    assert!(k.key_eq(&EpochKey { sparse_index: 3, epoch: 4 }));
    assert_eq!(<usize as Key>::new(9, NoEpoch), 9);
    assert_eq!(<usize as Key>::next_epoch(NoEpoch), NoEpoch);
}

#[test]
fn errors_carry_their_values() {
    assert_eq!(TooLargeSparseIndexError::<EpochKey>::new(5).into_inner(), 5);
    assert_eq!(TooSmallSparseIndexError::new(6).into_inner(), 6);
    let mismatch = DenseIndexMismatchError::<EpochKey>::new(1, 2);
    assert_eq!((mismatch.actual(), mismatch.expected()), (1, 2));
    let mismatch = SparseIndexMismatchError::<EpochKey>::new(3, 4);
    assert_eq!((mismatch.actual(), mismatch.expected()), (3, 4));
    let mismatch = EpochMismatchError::<EpochKey>::new(5, 6);
    assert_eq!((mismatch.actual(), mismatch.expected()), (5, 6));
}

#[test]
fn unwrapping_helpers() {
    let mut sparse: Vec<SparseItem<EpochKey>> =
        vec![SparseItem::occupied(1, 0), SparseItem::vacant(2, 3)];
    let dense = vec!['a', 'b'];
    assert_eq!(unwrap_sparse_item(&sparse, 1), &SparseItem::vacant(2, 3));
    unwrap_sparse_item_mut(&mut sparse, 1).epoch = 4;
    assert_eq!(sparse[1].epoch, 4);
    assert_eq!(*unwrap_next_vacant_mut(&mut sparse[1]), 2);
    *unwrap_next_vacant_mut(&mut sparse[1]) = 7;
    assert_eq!(unwrap_next_vacant(&sparse[1].kind), &7);
    assert_eq!(unwrap_dense_index(&sparse[0].kind), &1);
    assert_eq!(unwrap_dense(&dense, 1), &'b');
    assert_eq!(unwrap_dense_pair(&dense, 1, 0), (&'b', &'a'));
    assert_eq!(unwrap_sparse_pair(&dense, 0, 1), (&'a', &'b'));
    assert_eq!(unwrap_dense_from_sparse_index::<EpochKey, char>(0, &dense, &sparse), &'b');
    assert_eq!(unwrap_into_usize::<EpochKey>(9), 9);
    assert_eq!(unwrap_into_index::<EpochKey>(9), 9);
    assert_equal_key(EpochKey::new(1, 2), EpochKey::new(1, 2));
    assert_compatible_key(EpochKey::new(1, 2), EpochKey::new(1, 2));
    assert_occupied(&DefaultSparseItem::<EpochKey>::occupied(0, 0));
    assert_vacant(&DefaultSparseItem::<EpochKey>::vacant(0, 0));
}
