//! Errors of the storage layer.

use crate::ids::{RowId, TxnId};
use crate::payload::{FilterError, FilterErrorView};
use crate::txn_index;
use crate::txn_index::{Conflict, ConflictView};
use vstd::prelude::*;

verus! {

/// Why a storage call failed.
#[derive(Debug, PartialEq, Eq)]
pub enum StorageError {
    CollectionNotFound(String),
    CollectionAlreadyExists(String),
    KeyNotFound(String),
    RowNotFound(RowId),
    DocumentNotFound(String),
    DimensionMismatch { coll: String, expected: usize, got: usize },
    InvalidArgument(String),
    Filter(FilterError),
    Wal(String),
    UndoConflict { txn: TxnId, conflicts: Vec<Conflict> },
}

/// The contents of a [`StorageError`].
pub enum StorageErrorView {
    CollectionNotFound(Seq<char>),
    CollectionAlreadyExists(Seq<char>),
    KeyNotFound(Seq<char>),
    RowNotFound(u64),
    DocumentNotFound(Seq<char>),
    DimensionMismatch { coll: Seq<char>, expected: usize, got: usize },
    InvalidArgument(Seq<char>),
    Filter(FilterErrorView),
    Wal(Seq<char>),
    UndoConflict { txn: u128, conflicts: Seq<ConflictView> },
}

impl View for StorageError {
    type V = StorageErrorView;

    open spec fn view(&self) -> StorageErrorView {
        match self {
            StorageError::CollectionNotFound(s) => StorageErrorView::CollectionNotFound(s@),
            StorageError::CollectionAlreadyExists(s) => StorageErrorView::CollectionAlreadyExists(s@),
            StorageError::KeyNotFound(s) => StorageErrorView::KeyNotFound(s@),
            StorageError::RowNotFound(r) => StorageErrorView::RowNotFound(r.0),
            StorageError::DocumentNotFound(s) => StorageErrorView::DocumentNotFound(s@),
            StorageError::DimensionMismatch { coll, expected, got } => StorageErrorView::DimensionMismatch {
                coll: coll@,
                expected: *expected,
                got: *got,
            },
            StorageError::InvalidArgument(s) => StorageErrorView::InvalidArgument(s@),
            StorageError::Filter(e) => StorageErrorView::Filter(e@),
            StorageError::Wal(s) => StorageErrorView::Wal(s@),
            StorageError::UndoConflict { txn, conflicts } => StorageErrorView::UndoConflict {
                txn: txn.0,
                conflicts: txn_index::conflict_views(conflicts@),
            },
        }
    }
}

pub type StorageResult<T> = Result<T, StorageError>;

} // verus!
