# gpecs_sparse

Sparse containers addressed by generational keys, verified with Verus.

A key is a sparse index and an epoch. Each container keeps its entries
densely (keys and values side by side, in insertion order) and one item per
sparse index that holds the dense index of the entry stored there, or nothing,
together with the slot's current epoch. Removing an entry moves its slot to
the next epoch, so the removed key goes stale: the next key handed out for
that slot carries the next epoch (keys without epochs are the exception).

- `arena`: `EpochSparseArena`, which links its vacant slots into a list and
  hands out the most recently vacated slot first.
- `set`: `EpochSparseSet`, generic over the item type of its sparse array,
  which hands out the lowest vacant slot.
- `entry`, `set_entry`: the entry of one key in an arena or a set, occupied
  or vacant, which reads, changes, fills or empties that key's place while it
  borrows the container.
- `arena::sort`, `set::sort`: ordering the entries with a comparator or by
  their values, a stable insertion sort whose contract says that the comparator
  placed each entry before the one that follows it.
- `algo`: lookups on the dense and sparse arrays, and the consistency check
  that `from_parts` runs.
- `key`: the `Key` trait, with `usize` (keys without epochs) and `EpochKey`.
- `item`: the items of the dense and sparse arrays.
- `asserts`, `error`: checked conversions and the error types.

Every container operation states its result over a map from keys to values
(the view `@`) and over the dense arrays and the sparse array; for the arena
also over its list of vacant slots, in the order in which `push` hands them
out, and `EpochSparseArena::lemma_vacant_list` states how that list is
threaded through the vacant items' links. The laws that relate several
operations are public proof functions next to them.

`app/` holds what is left outside the verified library: parallel iteration
over the keys and values, and text for the error types.
