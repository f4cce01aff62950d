//! What clients ask for.

use crate::fields::PayloadRow;
use crate::filter::Filter;
use crate::ids::SessionId;
use crate::lsn::Lsn;
use crate::model::{ChunkSpec, DistanceMetric};
use crate::params;
use crate::params::SearchParams;
use vstd::prelude::*;

verus! {

/// How the arms of a hybrid search are fused. Weights are the bit patterns
/// of 32-bit floats.
#[derive(Clone, Copy, PartialEq, Debug)]
pub enum WireFusionMethod {
    /// Reciprocal rank fusion with this constant, or the default one.
    ReciprocalRankFusion { k: Option<u32> },
    /// A weighted sum of the arms' normalised scores.
    WeightedSum { vector_weight: u32, bm25_weight: u32 },
}

/// Which signal a search uses.
#[derive(Clone, Copy, PartialEq, Debug)]
pub enum SearchMode {
    /// Only the vector index.
    VectorOnly,
    /// Only the lexical index.
    Bm25Only,
    /// Both, fused.
    Hybrid { method: Option<WireFusionMethod>, overfetch_k: Option<usize> },
}

/// What a reindexing builds.
#[derive(Clone, Copy, PartialEq, Eq, Debug, Structural)]
pub enum WireIndexKind {
    /// An exact scan; there is nothing to build.
    Flat,
    /// An inverted file with product quantisation.
    IvfPq,
    /// Locality-sensitive hashing.
    Lsh,
    /// The lexical index.
    Bm25,
}

/// Search knobs, each of which may be left to its default.
#[derive(Clone, Copy, PartialEq, Debug)]
pub struct WireSearchParams {
    /// How many chunks of one document may be among the results.
    pub max_chunks_per_doc: Option<u32>,
    /// How many clusters are probed.
    pub nprobe: Option<usize>,
    /// The beam width.
    pub beam_width: Option<usize>,
    /// How many candidates are reranked exactly.
    pub rerank_k: Option<usize>,
    /// The mask size up to which a filtered search is exact.
    pub filter_exact_threshold: Option<usize>,
    /// The selectivity above which a filter counts as wide, as the bit
    /// pattern of a 64-bit float.
    pub filter_selectivity_high: Option<u64>,
    /// How many clusters a filtered search probes at most.
    pub filter_nprobe_max: Option<usize>,
}

/// The knob that was given, or the default.
pub open spec fn given_or<T>(given: Option<T>, default: T) -> T {
    match given {
        Some(v) => v,
        None => default,
    }
}

/// The search parameters that stand in for these knobs: what was left out
/// takes its default.
pub open spec fn resolved(w: WireSearchParams, d: SearchParams) -> SearchParams {
    SearchParams {
        max_chunks_per_doc: if w.max_chunks_per_doc is Some { w.max_chunks_per_doc } else { d.max_chunks_per_doc },
        nprobe: given_or(w.nprobe, d.nprobe),
        beam_width: given_or(w.beam_width, d.beam_width),
        rerank_k: if w.rerank_k is Some { w.rerank_k } else { d.rerank_k },
        filter_exact_threshold: given_or(w.filter_exact_threshold, d.filter_exact_threshold),
        filter_selectivity_high: given_or(w.filter_selectivity_high, d.filter_selectivity_high),
        filter_nprobe_max: if w.filter_nprobe_max is Some { w.filter_nprobe_max } else { d.filter_nprobe_max },
    }
}

impl Default for WireSearchParams {
    fn default() -> (r: Self)
        ensures
            r == (WireSearchParams {
                max_chunks_per_doc: None,
                nprobe: None,
                beam_width: None,
                rerank_k: None,
                filter_exact_threshold: None,
                filter_selectivity_high: None,
                filter_nprobe_max: None,
            }),
    {
        WireSearchParams {
            max_chunks_per_doc: None,
            nprobe: None,
            beam_width: None,
            rerank_k: None,
            filter_exact_threshold: None,
            filter_selectivity_high: None,
            filter_nprobe_max: None,
        }
    }
}

impl WireSearchParams {
    /// The search parameters that stand in for these knobs.
    pub fn resolve(&self) -> (r: SearchParams)
        ensures
            r == resolved(*self, params::default_params()),
    {
        let d = SearchParams::default();
        SearchParams {
            max_chunks_per_doc: match self.max_chunks_per_doc {
                Some(n) => Some(n),
                None => d.max_chunks_per_doc,
            },
            nprobe: match self.nprobe {
                Some(n) => n,
                None => d.nprobe,
            },
            beam_width: match self.beam_width {
                Some(n) => n,
                None => d.beam_width,
            },
            rerank_k: match self.rerank_k {
                Some(n) => Some(n),
                None => d.rerank_k,
            },
            filter_exact_threshold: match self.filter_exact_threshold {
                Some(n) => n,
                None => d.filter_exact_threshold,
            },
            filter_selectivity_high: match self.filter_selectivity_high {
                Some(bits) => bits,
                None => d.filter_selectivity_high,
            },
            filter_nprobe_max: match self.filter_nprobe_max {
                Some(n) => Some(n),
                None => d.filter_nprobe_max,
            },
        }
    }
}

/// One row of a batch to write.
#[derive(PartialEq, Debug)]
pub struct PutItem {
    pub key: String,
    /// Text to embed, if no vector is given.
    pub text: Option<String>,
    pub vector: Option<Vec<u32>>,
    pub fields: PayloadRow,
    pub extra: Option<String>,
}

/// The type of a payload field, as clients name it.
#[derive(Clone, Copy, PartialEq, Eq, Debug, Structural)]
pub enum WireFieldType {
    /// A single exact-match string.
    Keyword,
    /// A list of exact-match strings.
    KeywordList,
    /// A signed 64-bit integer.
    I64,
    /// A 64-bit floating point number.
    F64,
    /// A timestamp, in epoch milliseconds.
    DateTime,
    /// A boolean.
    Bool,
    /// A text field for the lexical index.
    Text,
}

/// What clients ask for.
#[derive(PartialEq, Debug)]
pub enum Request {
    /// The first message on a connection.
    Hello { client_name: String, session_id: SessionId, auth_token: Option<String> },
    /// Creates a collection.
    CreateCollection { name: String, dim: usize, metric: DistanceMetric, schema: Vec<(String, WireFieldType)> },
    /// Inserts or replaces one row.
    Put {
        coll: String,
        key: String,
        text: Option<String>,
        vector: Option<Vec<u32>>,
        fields: PayloadRow,
        extra: Option<String>,
    },
    /// Inserts or replaces many rows in one transaction.
    PutBatch { coll: String, items: Vec<PutItem> },
    /// Fetches a row.
    GetByKey { coll: String, key: String },
    /// Deletes a row.
    Delete { coll: String, key: String },
    /// Splits a text, embeds the chunks and inserts them as a document.
    PutDocument {
        coll: String,
        doc_key: String,
        text: String,
        chunk_spec: ChunkSpec,
        fields: PayloadRow,
        source: Option<String>,
    },
    /// Searches a collection.
    Search {
        coll: String,
        query_text: Option<String>,
        query_vector: Option<Vec<u32>>,
        mode: SearchMode,
        k: usize,
        filter: Option<Filter>,
        params: WireSearchParams,
    },
    /// Builds or rebuilds an index.
    Reindex { coll: String, index_kind: WireIndexKind },
    /// A follower's first message, with its cursor for each collection.
    ReplicaHello { known_lsns: Vec<(String, Option<Lsn>)> },
}

/// The label of a request in audit entries.
pub open spec fn action_of(r: Request) -> Seq<char> {
    match r {
        Request::Hello { .. } => "hello"@,
        Request::CreateCollection { .. } => "create_collection"@,
        Request::Put { .. } => "put"@,
        Request::PutBatch { .. } => "put_batch"@,
        Request::GetByKey { .. } => "get_by_key"@,
        Request::Delete { .. } => "delete"@,
        Request::PutDocument { .. } => "put_document"@,
        Request::Search { .. } => "search"@,
        Request::Reindex { .. } => "reindex"@,
        Request::ReplicaHello { .. } => "replica_hello"@,
    }
}

impl Request {
    /// A short, stable label for audit entries; never the request's contents.
    pub fn action_name(&self) -> (r: &'static str)
        ensures
            r@ == action_of(*self),
    {
        match self {
            Request::Hello { .. } => "hello",
            Request::CreateCollection { .. } => "create_collection",
            Request::Put { .. } => "put",
            Request::PutBatch { .. } => "put_batch",
            Request::GetByKey { .. } => "get_by_key",
            Request::Delete { .. } => "delete",
            Request::PutDocument { .. } => "put_document",
            Request::Search { .. } => "search",
            Request::Reindex { .. } => "reindex",
            Request::ReplicaHello { .. } => "replica_hello",
        }
    }
}

} // verus!
