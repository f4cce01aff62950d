//! Requests to one collection: a store binds the collection's name, so that
//! its callers need not repeat it.

use crate::fields::PayloadRow;
use crate::filter::Filter;
use crate::model::{ChunkSpec, ChunkStrategy, DistanceMetric};
use crate::request::{PutItem, Request, SearchMode, WireFieldType, WireIndexKind, WireSearchParams};
use vstd::prelude::*;

verus! {

/// A collection to ask things of.
pub struct MaraStore {
    pub coll: String,
}

/// The collection that a request is for.
pub open spec fn target(r: Request) -> Option<Seq<char>> {
    match r {
        Request::CreateCollection { name, .. } => Some(name@),
        Request::Put { coll, .. } => Some(coll@),
        Request::PutBatch { coll, .. } => Some(coll@),
        Request::GetByKey { coll, .. } => Some(coll@),
        Request::Delete { coll, .. } => Some(coll@),
        Request::PutDocument { coll, .. } => Some(coll@),
        Request::Search { coll, .. } => Some(coll@),
        Request::Reindex { coll, .. } => Some(coll@),
        _ => None,
    }
}

/// The chunking that stands in where none is given: by headings, 512 tokens
/// at most, 64 of them shared with the next chunk, trimmed.
pub open spec fn default_chunking() -> ChunkSpec {
    ChunkSpec { strategy: ChunkStrategy::Markdown { respect_headings: true }, max_tokens: 512, overlap_tokens: 64, trim: true }
}

/// No knob set.
pub open spec fn no_knobs() -> WireSearchParams {
    WireSearchParams {
        max_chunks_per_doc: None,
        nprobe: None,
        beam_width: None,
        rerank_k: None,
        filter_exact_threshold: None,
        filter_selectivity_high: None,
        filter_nprobe_max: None,
    }
}

impl MaraStore {
    /// A store of this collection.
    pub fn new(coll: String) -> (r: Self)
        ensures
            r.coll == coll,
    {
        MaraStore { coll }
    }

    /// The collection's name.
    pub fn collection(&self) -> (r: &str)
        ensures
            r@ == self.coll@,
    {
        self.coll.as_str()
    }

    /// Creates the collection.
    pub fn create_collection(&self, dim: usize, metric: DistanceMetric, schema: Vec<(String, WireFieldType)>) -> (r: Request)
        ensures
            target(r) == Some(self.coll@),
            r matches Request::CreateCollection { name, dim: d, metric: m, schema: s } && d == dim && m == metric && s == schema,
    {
        Request::CreateCollection { name: self.coll.clone(), dim, metric, schema }
    }

    /// Splits and inserts a text as a document, by the default chunking where
    /// none is given.
    pub fn add_document(&self, doc_key: &str, text: &str, chunk_spec: Option<ChunkSpec>, fields: PayloadRow, source: Option<String>) -> (r: Request)
        ensures
            target(r) == Some(self.coll@),
            r matches Request::PutDocument { coll, doc_key: k, text: t, chunk_spec: c, fields: f, source: s }
                && k@ == doc_key@ && t@ == text@ && f == fields && s == source
                && c == (match chunk_spec {
                    Some(spec) => spec,
                    None => default_chunking(),
                }),
    {
        let chunk_spec = match chunk_spec {
            Some(spec) => spec,
            None => ChunkSpec::default(),
        };
        Request::PutDocument { coll: self.coll.clone(), doc_key: doc_key.to_owned(), text: text.to_owned(), chunk_spec, fields, source }
    }

    /// Inserts or replaces one row.
    pub fn put(&self, key: &str, vector: Vec<u32>, fields: PayloadRow, extra: Option<String>) -> (r: Request)
        ensures
            target(r) == Some(self.coll@),
            r matches Request::Put { coll, key: k, text, vector: v, fields: f, extra: e }
                && k@ == key@ && text is None && v == Some(vector) && f == fields && e == extra,
    {
        Request::Put { coll: self.coll.clone(), key: key.to_owned(), text: None, vector: Some(vector), fields, extra }
    }

    /// Inserts or replaces many rows in one transaction.
    pub fn put_batch(&self, items: Vec<PutItem>) -> (r: Request)
        ensures
            target(r) == Some(self.coll@),
            r matches Request::PutBatch { coll, items: i } && i == items,
    {
        Request::PutBatch { coll: self.coll.clone(), items }
    }

    /// Fetches a row.
    pub fn get(&self, key: &str) -> (r: Request)
        ensures
            target(r) == Some(self.coll@),
            r matches Request::GetByKey { coll, key: k } && k@ == key@,
    {
        Request::GetByKey { coll: self.coll.clone(), key: key.to_owned() }
    }

    /// Deletes a row.
    pub fn delete(&self, key: &str) -> (r: Request)
        ensures
            target(r) == Some(self.coll@),
            r matches Request::Delete { coll, key: k } && k@ == key@,
    {
        Request::Delete { coll: self.coll.clone(), key: key.to_owned() }
    }

    /// Searches by text, with both signals fused and every knob at its
    /// default.
    pub fn query(&self, query_text: &str, k: usize) -> (r: Request)
        ensures
            target(r) == Some(self.coll@),
            r matches Request::Search { coll, query_text: t, query_vector, mode, k: n, filter, params }
                && t is Some && t->0@ == query_text@ && query_vector is None
                && mode == (SearchMode::Hybrid { method: None, overfetch_k: None }) && n == k && filter is None && params == no_knobs(),
    {
        Request::Search {
            coll: self.coll.clone(),
            query_text: Some(query_text.to_owned()),
            query_vector: None,
            mode: SearchMode::Hybrid { method: None, overfetch_k: None },
            k,
            filter: None,
            params: WireSearchParams::default(),
        }
    }

    /// Searches with full control.
    pub fn search(&self, query_text: Option<String>, query_vector: Option<Vec<u32>>, mode: SearchMode, k: usize, filter: Option<Filter>, params: WireSearchParams) -> (r: Request)
        ensures
            target(r) == Some(self.coll@),
            r matches Request::Search { coll, query_text: t, query_vector: v, mode: m, k: n, filter: f, params: p }
                && t == query_text && v == query_vector && m == mode && n == k && f == filter && p == params,
    {
        Request::Search { coll: self.coll.clone(), query_text, query_vector, mode, k, filter, params }
    }

    /// Builds or rebuilds an index.
    pub fn reindex(&self, index_kind: WireIndexKind) -> (r: Request)
        ensures
            target(r) == Some(self.coll@),
            r matches Request::Reindex { coll, index_kind: i } && i == index_kind,
    {
        Request::Reindex { coll: self.coll.clone(), index_kind }
    }
}

} // verus!
