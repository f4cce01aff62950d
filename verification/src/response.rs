//! What clients are answered.

use crate::ids::{DocId, SessionId};
use crate::model::DistanceMetric;
use crate::request::{WireFieldType, WireIndexKind};
use crate::state::Row;
use vstd::prelude::*;

verus! {

/// One search result, with the whole row.
#[derive(PartialEq, Debug)]
pub struct ScoredHit {
    pub row: Row,
    /// Higher is better; the bit pattern of a 32-bit float.
    pub score: u32,
    /// Whether the score was computed from the stored vector.
    pub exact: bool,
}

/// A collection's identity, as a replication leader states it.
#[derive(PartialEq, Debug)]
pub struct ReplicaCollectionInfo {
    pub name: String,
    pub dim: usize,
    pub metric: DistanceMetric,
    pub schema: Vec<(String, WireFieldType)>,
}

/// What clients are answered.
#[derive(PartialEq, Debug)]
pub enum Response {
    /// Success, with nothing to tell.
    Done,
    /// The answer to a hello.
    HelloAck { session_id: SessionId, server_version: String },
    /// One row.
    Row(Row),
    /// Several rows.
    Rows(Vec<Row>),
    /// A document was written.
    Document { doc_id: DocId, doc_key: String, chunk_count: u32, version: u32 },
    /// The hits of a search, best first, and whether a filtered search ran
    /// out of budget before it had enough.
    SearchResults { hits: Vec<ScoredHit>, truncated_by_filter: bool },
    /// An index was built.
    Reindexed { coll: String, index_kind: WireIndexKind, row_count: u64 },
    /// The request failed.
    Error { code: String, message: String },
    /// The answer to a follower: every collection the leader knows.
    ReplicaWelcome { collections: Vec<ReplicaCollectionInfo> },
    /// A collection that the leader created since.
    ReplicaNewCollection { info: ReplicaCollectionInfo },
    /// Log lines for a collection, in the order to apply them.
    ReplicaWalLines { coll: String, lines: Vec<String> },
}

} // verus!
