use gpecs_sparse::arena::EpochSparseArena;
use gpecs_sparse::entry::Entry;
use gpecs_sparse::key::EpochKey;
use gpecs_sparse::set::{Entry as SetEntry, SparseSet};

fn key(sparse_index: u32, epoch: u32) -> EpochKey {
    EpochKey { sparse_index, epoch }
}

#[test]
fn entry_of_a_live_key_is_occupied() {
    let mut arena: EpochSparseArena<EpochKey, i32> = EpochSparseArena::new();
    let a = arena.push(1);
    let b = arena.push(2);
    let mut entry = arena.entry(b);
    assert!(entry.is_occupied());
    assert!(!entry.is_vacant());
    assert_eq!(entry.key(), b);
    assert_eq!(entry.get(), Some(&2));
    if let Some(value) = entry.get_mut() {
        *value = 20;
    }
    assert_eq!(entry.get(), Some(&20));
    match entry {
        Entry::Occupied(mut occupied) => {
            assert_eq!(occupied.key(), b);
            assert_eq!(occupied.insert(21), 20);
            assert_eq!(*occupied.get(), 21);
            *occupied.get_mut() += 1;
            assert_eq!(occupied.remove(), 22);
        }
        Entry::Vacant(_) => panic!("the key resolves"),
    }
    assert_eq!(arena.get(b), None);
    assert_eq!(arena.get(a), Some(&1));
    assert_eq!(arena.len(), 1);
}

#[test]
fn entry_of_a_free_key_is_vacant_and_fills() {
    let mut arena: EpochSparseArena<EpochKey, i32> = EpochSparseArena::new();
    arena.push(1);
    let k = key(3, 2);
    let entry = arena.entry(k);
    assert!(entry.is_vacant());
    assert_eq!(entry.get(), None);
    match entry {
        Entry::Vacant(vacant) => {
            assert_eq!(vacant.key(), k);
            let value = vacant.insert(5);
            assert_eq!(*value, 5);
            *value = 6;
        }
        Entry::Occupied(_) => panic!("the key does not resolve"),
    }
    assert_eq!(arena.get(k), Some(&6));
    assert_eq!(arena.sparse_len(), 4);
    assert_eq!(arena.as_keys_slice(), &[key(0, 0), k]);
}

#[test]
fn or_insert_fills_only_a_vacant_entry() {
    let mut arena: EpochSparseArena<usize, &str> = EpochSparseArena::new();
    *arena.entry(0).or_insert("a") = "b";
    assert_eq!(arena.get(0), Some(&"b"));
    assert_eq!(*arena.entry(0).or_insert("c"), "b");
    let value = arena.entry(1).or_insert_with(|| "d");
    assert_eq!(*value, "d");
    let mut called = false;
    let value = arena.entry(1).or_insert_with(|| {
        called = true;
        "e"
    });
    assert_eq!(*value, "d");
    assert!(!called);
    assert_eq!(arena.len(), 2);
}

#[test]
fn insert_entry_replaces_or_appends() {
    let mut arena: EpochSparseArena<EpochKey, char> = EpochSparseArena::new();
    let a = arena.push('a');
    let b = arena.push('b');
    let occupied = arena.entry(a).insert_entry('x');
    assert_eq!(occupied.key(), a);
    assert_eq!(*occupied.get(), 'x');
    assert_eq!(occupied.swap_remove(), 'x');
    assert_eq!(arena.as_keys_slice(), &[b]);
    let fresh = arena.try_entry(key(0, 1)).ok().unwrap().insert_entry('y');
    assert_eq!(*fresh.get(), 'y');
    let value = fresh.into_mut();
    *value = 'z';
    assert_eq!(arena.get(key(0, 1)), Some(&'z'));
    assert_eq!(arena.get(a), None);
}

#[test]
fn set_entries_read_fill_and_empty() {
    let mut set: SparseSet<i32> = SparseSet::new();
    let a = set.push(1);
    match set.entry(a) {
        SetEntry::Occupied(mut occupied) => {
            assert_eq!(occupied.insert(10), 1);
            assert_eq!(*occupied.get(), 10);
        }
        SetEntry::Vacant(_) => panic!("the key resolves"),
    }
    assert_eq!(set.get(a), Some(&10));
    *set.entry(4).or_insert(40) += 1;
    assert_eq!(set.get(4), Some(&41));
    assert_eq!(set.sparse_len(), 5);
    let entry = set.try_entry(2).ok().unwrap();
    assert!(entry.is_vacant());
    assert_eq!(entry.key(), 2);
    let occupied = entry.insert_entry(20);
    assert_eq!(occupied.dense_index, 2);
    assert_eq!(occupied.remove(), 20);
    assert_eq!(set.as_key_slice(), &[0, 4]);
    let occupied = match set.entry(0) {
        SetEntry::Occupied(occupied) => occupied,
        SetEntry::Vacant(_) => panic!("the key resolves"),
    };
    assert_eq!(occupied.swap_remove(), 10);
    assert_eq!(set.as_key_slice(), &[4]);
    assert_eq!(set.get(4), Some(&41));
}

#[test]
fn or_default_stores_the_default_value() {
    let mut arena: EpochSparseArena<usize, u32> = EpochSparseArena::new();
    *arena.entry(2).or_default() += 5;
    *arena.entry(2).or_default() += 5;
    assert_eq!(arena.get(2), Some(&10));
    let mut set: SparseSet<Vec<u8>> = SparseSet::new();
    set.entry(1).or_default().push(7);
    set.entry(1).or_default().push(8);
    assert_eq!(set.get(1), Some(&vec![7, 8]));
}
