//! Keys of the sparse containers: a sparse index paired with an epoch.
//!
//! A key names a slot of the sparse array (its sparse index) and the
//! generation of that slot it was handed out for (its epoch).  When a slot is
//! freed its epoch moves on, so that keys of earlier generations stop
//! resolving.
use vstd::prelude::*;

verus! {

/// A key of a sparse container.
///
/// The sparse index and the epoch are carried by associated types; their
/// mathematical values are given by `index_nat` and `epoch_nat`.
pub trait Key: Copy + Sized {
    type SparseIndex: Copy + Eq + core::fmt::Debug;
    type Epoch: Copy + Eq + core::fmt::Debug;

    spec fn spec_sparse_index(self) -> Self::SparseIndex;

    spec fn spec_epoch(self) -> Self::Epoch;

    spec fn spec_new(sparse_index: Self::SparseIndex, epoch: Self::Epoch) -> Self;

    /// The number that a sparse index stands for.
    spec fn index_nat(index: Self::SparseIndex) -> nat;

    /// The number that an epoch stands for; epochs are ordered by it.
    spec fn epoch_nat(epoch: Self::Epoch) -> nat;

    /// Whether the number `n` can be represented as a sparse index.
    spec fn index_fits(n: nat) -> bool;

    /// The sparse index that stands for `n` (meaningful where `index_fits(n)`).
    spec fn index_of_nat(n: nat) -> Self::SparseIndex;

    spec fn spec_next_epoch(epoch: Self::Epoch) -> Self::Epoch;

    spec fn spec_default_epoch() -> Self::Epoch;

    proof fn lemma_key_parts(key: Self)
        ensures
            Self::spec_new(key.spec_sparse_index(), key.spec_epoch()) == key,
    ;

    proof fn lemma_new_parts(sparse_index: Self::SparseIndex, epoch: Self::Epoch)
        ensures
            Self::spec_new(sparse_index, epoch).spec_sparse_index() == sparse_index,
            Self::spec_new(sparse_index, epoch).spec_epoch() == epoch,
    ;

    proof fn lemma_index_nat(index: Self::SparseIndex)
        ensures
            Self::index_fits(Self::index_nat(index)),
            Self::index_of_nat(Self::index_nat(index)) == index,
    ;

    proof fn lemma_index_of_nat(n: nat)
        requires
            Self::index_fits(n),
        ensures
            Self::index_nat(Self::index_of_nat(n)) == n,
    ;

    /// The representable indices form a prefix of the naturals.
    proof fn lemma_index_fits_below(n: nat, m: nat)
        requires
            Self::index_fits(n),
            m <= n,
        ensures
            Self::index_fits(m),
    ;

    proof fn lemma_epoch_injective(a: Self::Epoch, b: Self::Epoch)
        requires
            Self::epoch_nat(a) == Self::epoch_nat(b),
        ensures
            a == b,
    ;

    fn new(sparse_index: Self::SparseIndex, epoch: Self::Epoch) -> (key: Self)
        ensures
            key == Self::spec_new(sparse_index, epoch),
    ;

    fn sparse_index(&self) -> (index: Self::SparseIndex)
        ensures
            index == self.spec_sparse_index(),
    ;

    fn epoch(&self) -> (epoch: Self::Epoch)
        ensures
            epoch == self.spec_epoch(),
    ;

    fn index_into_usize(index: Self::SparseIndex) -> (result: Option<usize>)
        ensures
            result == (if Self::index_nat(index) <= usize::MAX {
                Some(Self::index_nat(index) as usize)
            } else {
                None
            }),
    ;

    fn index_from_usize(n: usize) -> (result: Option<Self::SparseIndex>)
        ensures
            result == (if Self::index_fits(n as nat) {
                Some(Self::index_of_nat(n as nat))
            } else {
                None
            }),
    ;

    fn epoch_eq(first: Self::Epoch, second: Self::Epoch) -> (equal: bool)
        ensures
            equal == (first == second),
    ;

    fn epoch_ge(first: Self::Epoch, second: Self::Epoch) -> (ge: bool)
        ensures
            ge == (Self::epoch_nat(first) >= Self::epoch_nat(second)),
    ;

    fn next_epoch(epoch: Self::Epoch) -> (next: Self::Epoch)
        ensures
            next == Self::spec_next_epoch(epoch),
    ;

    fn default_epoch() -> (epoch: Self::Epoch)
        ensures
            epoch == Self::spec_default_epoch(),
    ;

    fn key_eq(&self, other: &Self) -> (equal: bool)
        ensures
            equal == (*self == *other),
    ;
}

/// The sparse index of a key as a number.
pub open spec fn key_index<K: Key>(key: K) -> nat {
    K::index_nat(key.spec_sparse_index())
}

/// The epoch of a key as a number.
pub open spec fn key_epoch<K: Key>(key: K) -> nat {
    K::epoch_nat(key.spec_epoch())
}

/// Two keys with the same sparse index and the same epoch are the same key.
pub proof fn lemma_key_eq_parts<K: Key>(a: K, b: K)
    requires
        a.spec_sparse_index() == b.spec_sparse_index(),
        a.spec_epoch() == b.spec_epoch(),
    ensures
        a == b,
{
    K::lemma_key_parts(a);
    K::lemma_key_parts(b);
}

/// Sparse indices are determined by their numbers.
pub proof fn lemma_index_injective<K: Key>(a: K::SparseIndex, b: K::SparseIndex)
    requires
        K::index_nat(a) == K::index_nat(b),
    ensures
        a == b,
{
    K::lemma_index_nat(a);
    K::lemma_index_nat(b);
}

/// The epoch of keys that carry no generation: there is only one.
#[derive(Debug, Clone, Copy, PartialEq, Eq, PartialOrd, Ord, Hash, Default)]
pub struct NoEpoch;

/// A plain `usize` is a key without epochs: every slot has the one epoch `NoEpoch`.
impl Key for usize {
    type SparseIndex = usize;
    type Epoch = NoEpoch;

    open spec fn spec_sparse_index(self) -> usize {
        self
    }

    open spec fn spec_epoch(self) -> NoEpoch {
        NoEpoch
    }

    open spec fn spec_new(sparse_index: usize, epoch: NoEpoch) -> usize {
        sparse_index
    }

    open spec fn index_nat(index: usize) -> nat {
        index as nat
    }

    open spec fn epoch_nat(epoch: NoEpoch) -> nat {
        0
    }

    open spec fn index_fits(n: nat) -> bool {
        n <= usize::MAX
    }

    open spec fn index_of_nat(n: nat) -> usize {
        n as usize
    }

    open spec fn spec_next_epoch(epoch: NoEpoch) -> NoEpoch {
        NoEpoch
    }

    open spec fn spec_default_epoch() -> NoEpoch {
        NoEpoch
    }

    proof fn lemma_key_parts(key: usize) {
    }

    proof fn lemma_new_parts(sparse_index: usize, epoch: NoEpoch) {
    }

    proof fn lemma_index_nat(index: usize) {
    }

    proof fn lemma_index_of_nat(n: nat) {
    }

    proof fn lemma_index_fits_below(n: nat, m: nat) {
    }

    proof fn lemma_epoch_injective(a: NoEpoch, b: NoEpoch) {
    }

    fn new(sparse_index: usize, epoch: NoEpoch) -> (key: usize) {
        sparse_index
    }

    fn sparse_index(&self) -> (index: usize) {
        *self
    }

    fn epoch(&self) -> (epoch: NoEpoch) {
        NoEpoch
    }

    fn index_into_usize(index: usize) -> (result: Option<usize>) {
        Some(index)
    }

    fn index_from_usize(n: usize) -> (result: Option<usize>) {
        Some(n)
    }

    fn epoch_eq(first: NoEpoch, second: NoEpoch) -> (equal: bool) {
        true
    }

    fn epoch_ge(first: NoEpoch, second: NoEpoch) -> (ge: bool) {
        true
    }

    fn next_epoch(epoch: NoEpoch) -> (next: NoEpoch) {
        NoEpoch
    }

    fn default_epoch() -> (epoch: NoEpoch) {
        NoEpoch
    }

    fn key_eq(&self, other: &usize) -> (equal: bool) {
        *self == *other
    }
}

/// A key with a 32-bit sparse index and a 32-bit epoch.
///
/// The epoch that follows `u32::MAX` is `0`.
#[derive(Debug, Clone, Copy, PartialEq, Eq, PartialOrd, Ord, Hash, Default)]
pub struct EpochKey {
    pub sparse_index: u32,
    pub epoch: u32,
}

impl Key for EpochKey {
    type SparseIndex = u32;
    type Epoch = u32;

    open spec fn spec_sparse_index(self) -> u32 {
        self.sparse_index
    }

    open spec fn spec_epoch(self) -> u32 {
        self.epoch
    }

    open spec fn spec_new(sparse_index: u32, epoch: u32) -> EpochKey {
        EpochKey { sparse_index, epoch }
    }

    open spec fn index_nat(index: u32) -> nat {
        index as nat
    }

    open spec fn epoch_nat(epoch: u32) -> nat {
        epoch as nat
    }

    open spec fn index_fits(n: nat) -> bool {
        n <= u32::MAX
    }

    open spec fn index_of_nat(n: nat) -> u32 {
        n as u32
    }

    open spec fn spec_next_epoch(epoch: u32) -> u32 {
        if epoch == u32::MAX {
            0
        } else {
            (epoch + 1) as u32
        }
    }

    open spec fn spec_default_epoch() -> u32 {
        0
    }

    proof fn lemma_key_parts(key: EpochKey) {
    }

    proof fn lemma_new_parts(sparse_index: u32, epoch: u32) {
    }

    proof fn lemma_index_nat(index: u32) {
    }

    proof fn lemma_index_of_nat(n: nat) {
    }

    proof fn lemma_index_fits_below(n: nat, m: nat) {
    }

    proof fn lemma_epoch_injective(a: u32, b: u32) {
    }

    fn new(sparse_index: u32, epoch: u32) -> (key: EpochKey) {
        EpochKey { sparse_index, epoch }
    }

    fn sparse_index(&self) -> (index: u32) {
        self.sparse_index
    }

    fn epoch(&self) -> (epoch: u32) {
        self.epoch
    }

    fn index_into_usize(index: u32) -> (result: Option<usize>) {
        Some(index as usize)
    }

    fn index_from_usize(n: usize) -> (result: Option<u32>) {
        if n <= u32::MAX as usize {
            Some(n as u32)
        } else {
            None
        }
    }

    fn epoch_eq(first: u32, second: u32) -> (equal: bool) {
        first == second
    }

    fn epoch_ge(first: u32, second: u32) -> (ge: bool) {
        first >= second
    }

    fn next_epoch(epoch: u32) -> (next: u32) {
        if epoch == u32::MAX {
            0
        } else {
            epoch + 1
        }
    }

    fn default_epoch() -> (epoch: u32) {
        0
    }

    fn key_eq(&self, other: &EpochKey) -> (equal: bool) {
        self.sparse_index == other.sparse_index && self.epoch == other.epoch
    }
}

} // verus!
