//! Errors of the sparse containers.
use std::collections::TryReserveError as AllocTryReserveError;
use vstd::prelude::*;

use crate::key::Key;

verus! {

/// A sparse index does not fit in `usize`; holds the index.
#[derive(Debug, Clone, Copy, PartialEq, Eq)]
pub struct TooLargeSparseIndexError<K: Key> {
    pub inner: K::SparseIndex,
}

impl<K: Key> TooLargeSparseIndexError<K> {
    pub fn new(inner: K::SparseIndex) -> (error: Self)
        ensures
            error.inner == inner,
    {
        Self { inner }
    }

    pub fn into_inner(self) -> (inner: K::SparseIndex)
        ensures
            inner == self.inner,
    {
        self.inner
    }
}

/// A `usize` does not fit in the sparse index type; holds the `usize`.
#[derive(Debug, Clone, Copy, PartialEq, Eq)]
pub struct TooSmallSparseIndexError {
    pub inner: usize,
}

impl TooSmallSparseIndexError {
    pub fn new(inner: usize) -> (error: Self)
        ensures
            error.inner == inner,
    {
        Self { inner }
    }

    pub fn into_inner(self) -> (inner: usize)
        ensures
            inner == self.inner,
    {
        self.inner
    }
}

/// A dense index taken from the sparse array lies outside the dense array.
#[derive(Debug, Clone, Copy, PartialEq, Eq)]
pub struct DenseIndexOutOfBoundsError {
    pub dense_index: usize,
    pub dense_len: usize,
}

impl DenseIndexOutOfBoundsError {
    pub fn new(dense_index: usize, dense_len: usize) -> (error: Self)
        ensures
            error == (DenseIndexOutOfBoundsError { dense_index, dense_len }),
    {
        Self { dense_index, dense_len }
    }

    pub fn dense_index(&self) -> (dense_index: usize)
        ensures
            dense_index == self.dense_index,
    {
        self.dense_index
    }

    pub fn dense_len(&self) -> (dense_len: usize)
        ensures
            dense_len == self.dense_len,
    {
        self.dense_len
    }
}

/// A key's sparse index lies outside the sparse array.
#[derive(Debug, Clone, Copy, PartialEq, Eq)]
pub struct SparseIndexOutOfBoundsError {
    pub sparse_index: usize,
    pub sparse_len: usize,
}

impl SparseIndexOutOfBoundsError {
    pub fn new(sparse_index: usize, sparse_len: usize) -> (error: Self)
        ensures
            error == (SparseIndexOutOfBoundsError { sparse_index, sparse_len }),
    {
        Self { sparse_index, sparse_len }
    }

    pub fn sparse_index(&self) -> (sparse_index: usize)
        ensures
            sparse_index == self.sparse_index,
    {
        self.sparse_index
    }

    pub fn sparse_len(&self) -> (sparse_len: usize)
        ensures
            sparse_len == self.sparse_len,
    {
        self.sparse_len
    }
}

/// An occupied slot holds another dense index than the entry that names it.
#[derive(Debug, Clone, Copy, PartialEq, Eq)]
pub struct DenseIndexMismatchError<K: Key> {
    pub actual: K::SparseIndex,
    pub expected: K::SparseIndex,
}

impl<K: Key> DenseIndexMismatchError<K> {
    pub fn new(actual: K::SparseIndex, expected: K::SparseIndex) -> (error: Self)
        ensures
            error == (DenseIndexMismatchError::<K> { actual, expected }),
    {
        Self { actual, expected }
    }

    pub fn actual(&self) -> (actual: K::SparseIndex)
        ensures
            actual == self.actual,
    {
        self.actual
    }

    pub fn expected(&self) -> (expected: K::SparseIndex)
        ensures
            expected == self.expected,
    {
        self.expected
    }
}

/// An entry's key names another slot than the one that holds the entry.
#[derive(Debug, Clone, Copy, PartialEq, Eq)]
pub struct SparseIndexMismatchError<K: Key> {
    pub actual: K::SparseIndex,
    pub expected: K::SparseIndex,
}

impl<K: Key> SparseIndexMismatchError<K> {
    pub fn new(actual: K::SparseIndex, expected: K::SparseIndex) -> (error: Self)
        ensures
            error == (SparseIndexMismatchError::<K> { actual, expected }),
    {
        Self { actual, expected }
    }

    pub fn actual(&self) -> (actual: K::SparseIndex)
        ensures
            actual == self.actual,
    {
        self.actual
    }

    pub fn expected(&self) -> (expected: K::SparseIndex)
        ensures
            expected == self.expected,
    {
        self.expected
    }
}

/// An entry's key and its slot carry different epochs.
#[derive(Debug, Clone, Copy, PartialEq, Eq)]
pub struct EpochMismatchError<K: Key> {
    pub actual: K::Epoch,
    pub expected: K::Epoch,
}

impl<K: Key> EpochMismatchError<K> {
    pub fn new(actual: K::Epoch, expected: K::Epoch) -> (error: Self)
        ensures
            error == (EpochMismatchError::<K> { actual, expected }),
    {
        Self { actual, expected }
    }

    pub fn actual(&self) -> (actual: K::Epoch)
        ensures
            actual == self.actual,
    {
        self.actual
    }

    pub fn expected(&self) -> (expected: K::Epoch)
        ensures
            expected == self.expected,
    {
        self.expected
    }
}

/// The slot that an entry's key names is vacant.
#[derive(Debug, Clone, Copy, PartialEq, Eq)]
pub struct OccupiedSparseItemExpectedError {
    pub sparse_index: usize,
}

impl OccupiedSparseItemExpectedError {
    pub fn new(sparse_index: usize) -> (error: Self)
        ensures
            error == (OccupiedSparseItemExpectedError { sparse_index }),
    {
        Self { sparse_index }
    }
}

/// Why a dense and a sparse array do not form a sparse container.
#[derive(Debug, Clone, Copy, PartialEq, Eq)]
pub enum FromPartsError<K: Key> {
    TooLargeSparseIndex(TooLargeSparseIndexError<K>),
    TooSmallSparseIndex(TooSmallSparseIndexError),
    OccupiedSparseItemExpected(OccupiedSparseItemExpectedError),
    DenseIndexOutOfBounds(DenseIndexOutOfBoundsError),
    SparseIndexOutOfBounds(SparseIndexOutOfBoundsError),
    DenseIndexMismatch(DenseIndexMismatchError<K>),
    SparseIndexMismatch(SparseIndexMismatchError<K>),
    EpochMismatch(EpochMismatchError<K>),
}

/// Memory for the sparse or for the dense array could not be reserved.
#[derive(Debug)]
pub enum TryReserveError {
    Sparse(AllocTryReserveError),
    Dense(AllocTryReserveError),
}

/// Why a value could not be stored.
#[derive(Debug)]
pub enum TryModifyErrorKind<K: Key> {
    TooLargeSparseIndex(TooLargeSparseIndexError<K>),
    TooSmallSparseIndex(TooSmallSparseIndexError),
    TryReserve(TryReserveError),
}

/// A value that could not be stored, handed back with the reason.
#[derive(Debug)]
pub struct TryModifyError<K: Key, V> {
    pub kind: TryModifyErrorKind<K>,
    pub value: V,
}

impl<K: Key, V> TryModifyError<K, V> {
    pub fn new(kind: TryModifyErrorKind<K>, value: V) -> (error: Self)
        ensures
            error.kind == kind,
            error.value == value,
    {
        Self { kind, value }
    }
}

} // verus!
