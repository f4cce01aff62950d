//! A collection's in-memory state.

use crate::bitmap;
use crate::bitmap::{bitmap_clone, bitmap_new};
use crate::fields::{FieldsView, PayloadRow};
use crate::ids::{DocId, RowId, TxnId};
use crate::lsn::Lsn;
use crate::model::{ChunkSpec, ModelFingerprint};
use crate::payload;
use crate::payload::{PayloadSchema, PayloadStore, StoreView};
use crate::text;
use crate::text::copy_opt;
use crate::txn_index;
use crate::txn_index::{IndexView, TxnIndex};
use crate::wal;
use crate::wal::WalDocMeta;
use roaring::RoaringBitmap;
use std::collections::BTreeMap;
use vstd::hash_map::StringHashMap;
use vstd::prelude::*;

verus! {

/// A row as it is stored.
pub struct RowRecord {
    pub key: String,
    pub vector: Vec<u32>,
    pub fields: PayloadRow,
    pub extra: Option<String>,
    pub text: Option<String>,
    pub doc_id: Option<DocId>,
    pub chunk_ord: Option<u32>,
}

/// What a stored row holds.
pub struct RowView {
    pub key: Seq<char>,
    pub vector: Seq<u32>,
    pub fields: FieldsView,
    pub extra: Option<Seq<char>>,
    pub text: Option<Seq<char>>,
    pub doc_id: Option<u64>,
    pub chunk_ord: Option<u32>,
}

impl View for RowRecord {
    type V = RowView;

    open spec fn view(&self) -> RowView {
        RowView {
            key: self.key@,
            vector: self.vector@,
            fields: self.fields@,
            extra: text::opt_text(self.extra),
            text: text::opt_text(self.text),
            doc_id: wal::opt_doc(self.doc_id),
            chunk_ord: self.chunk_ord,
        }
    }
}

/// A row as it is returned to callers.
#[derive(PartialEq, Debug)]
pub struct Row {
    pub id: RowId,
    pub key: String,
    pub vector: Option<Vec<u32>>,
    pub fields: PayloadRow,
    pub extra: Option<String>,
    pub text: Option<String>,
    pub doc_id: Option<DocId>,
    pub chunk_ord: Option<u32>,
}

/// Whether `r` is the full row `id` that holds `v`.
pub open spec fn is_row(r: Row, id: u64, v: RowView) -> bool {
    &&& r.id.0 == id
    &&& r.key@ == v.key
    &&& r.vector is Some
    &&& r.vector->0@ == v.vector
    &&& r.fields@ == v.fields
    &&& text::opt_text(r.extra) == v.extra
    &&& text::opt_text(r.text) == v.text
    &&& wal::opt_doc(r.doc_id) == v.doc_id
    &&& r.chunk_ord == v.chunk_ord
}

/// A copy of a vector.
pub fn copy_vector(v: &Vec<u32>) -> (r: Vec<u32>)
    ensures
        r@ == v@,
{
    let mut out: Vec<u32> = Vec::new();
    let mut i: usize = 0;
    while i < v.len()
        invariant
            i <= v@.len(),
            out@ == v@.take(i as int),
        decreases v@.len() - i,
    {
        out.push(v[i]);
        i += 1;
        assert(out@ =~= v@.take(i as int));
    }
    assert(out@ =~= v@);
    out
}

impl RowRecord {
    /// The row as it is returned to callers.
    pub fn to_row(&self, id: RowId) -> (r: Row)
        ensures
            is_row(r, id.0, self@),
    {
        Row {
            id,
            key: self.key.clone(),
            vector: Some(copy_vector(&self.vector)),
            fields: self.fields.clone(),
            extra: copy_opt(&self.extra),
            text: copy_opt(&self.text),
            doc_id: self.doc_id,
            chunk_ord: self.chunk_ord,
        }
    }
}

/// A document's registry entry.
pub struct DocEntry {
    pub doc_id: DocId,
    pub doc_key: String,
    pub version: u32,
    /// The document's live chunks.
    pub rows: RoaringBitmap,
    pub chunk_count: u32,
    pub source: Option<String>,
    pub chunk_spec: ChunkSpec,
    pub chunker_version: u32,
    pub embedding_model: ModelFingerprint,
    pub created_txn: TxnId,
    pub updated_txn: TxnId,
    pub doc_payload: PayloadRow,
}

/// The contents of a [`DocEntry`], its metadata taken together.
pub struct DocView {
    pub doc_id: u64,
    pub doc_key: Seq<char>,
    pub rows: Set<u32>,
    pub chunk_count: u32,
    pub meta: WalDocMeta,
    pub created_txn: u128,
    pub updated_txn: u128,
    pub doc_payload: FieldsView,
}

impl View for DocEntry {
    type V = DocView;

    open spec fn view(&self) -> DocView {
        DocView {
            doc_id: self.doc_id.0,
            doc_key: self.doc_key@,
            rows: bitmap::rows_of(self.rows),
            chunk_count: self.chunk_count,
            meta: WalDocMeta {
                version: self.version,
                source: self.source,
                chunk_spec: self.chunk_spec,
                chunker_version: self.chunker_version,
                embedding_model: self.embedding_model,
            },
            created_txn: self.created_txn.0,
            updated_txn: self.updated_txn.0,
            doc_payload: self.doc_payload@,
        }
    }
}

impl DocEntry {
    /// The entry's metadata.
    pub fn meta(&self) -> (r: WalDocMeta)
        ensures
            r == self@.meta,
    {
        WalDocMeta {
            version: self.version,
            source: copy_opt(&self.source),
            chunk_spec: self.chunk_spec.clone(),
            chunker_version: self.chunker_version,
            embedding_model: self.embedding_model.clone(),
        }
    }
}

impl Clone for DocEntry {
    fn clone(&self) -> (r: Self)
        ensures
            r@ == self@,
    {
        DocEntry {
            doc_id: self.doc_id,
            doc_key: self.doc_key.clone(),
            version: self.version,
            rows: bitmap_clone(&self.rows),
            chunk_count: self.chunk_count,
            source: copy_opt(&self.source),
            chunk_spec: self.chunk_spec.clone(),
            chunker_version: self.chunker_version,
            embedding_model: self.embedding_model.clone(),
            created_txn: self.created_txn,
            updated_txn: self.updated_txn,
            doc_payload: self.doc_payload.clone(),
        }
    }
}

/// A collection's state.
pub struct CollectionInner {
    /// The highest log position applied so far.
    pub last_applied_lsn: Lsn,
    pub next_row_id: u64,
    pub key_to_row: StringHashMap<u64>,
    /// Every row ever written; a deleted one stays, out of `live`.
    pub rows: BTreeMap<u64, RowRecord>,
    pub live: RoaringBitmap,
    pub next_doc_id: u64,
    pub doc_key_to_id: StringHashMap<u64>,
    pub docs: BTreeMap<u64, DocEntry>,
    pub payload: PayloadStore,
    pub txn_index: TxnIndex,
}

/// What a collection's state holds.
pub struct StateView {
    pub applied: u64,
    pub next_row: u64,
    pub keys: Map<Seq<char>, u64>,
    pub rows: Map<u64, RowView>,
    pub live: Set<u32>,
    pub next_doc: u64,
    pub doc_keys: Map<Seq<char>, u64>,
    pub docs: Map<u64, DocView>,
    pub payload: StoreView,
    pub txns: IndexView,
}

/// The contents of stored rows.
pub open spec fn row_views(m: Map<u64, RowRecord>) -> Map<u64, RowView> {
    m.map_values(|r: RowRecord| r@)
}

/// The contents of a document registry.
pub open spec fn doc_views(m: Map<u64, DocEntry>) -> Map<u64, DocView> {
    m.map_values(|d: DocEntry| d@)
}

impl View for CollectionInner {
    type V = StateView;

    open spec fn view(&self) -> StateView {
        StateView {
            applied: self.last_applied_lsn.0,
            next_row: self.next_row_id,
            keys: self.key_to_row@,
            rows: row_views(self.rows@),
            live: bitmap::rows_of(self.live),
            next_doc: self.next_doc_id,
            doc_keys: self.doc_key_to_id@,
            docs: doc_views(self.docs@),
            payload: self.payload@,
            txns: self.txn_index@,
        }
    }
}

/// How many transactions a collection retains for undo.
pub const DEFAULT_TXN_HISTORY_LIMIT: usize = 10_000;

/// The state of a collection to which nothing has been written.
pub open spec fn fresh_state(schema: payload::SchemaView, strict: bool) -> StateView {
    StateView {
        applied: 0,
        next_row: 0,
        keys: Map::empty(),
        rows: Map::empty(),
        live: Set::empty(),
        next_doc: 0,
        doc_keys: Map::empty(),
        docs: Map::empty(),
        payload: StoreView { schema, strict, columns: payload::fresh_columns(schema) },
        txns: txn_index::empty_index(DEFAULT_TXN_HISTORY_LIMIT as nat),
    }
}

impl CollectionInner {
    /// Whether the parts are sound by themselves.
    pub open spec fn wf(self) -> bool {
        self.payload.wf() && self.txn_index.wf()
    }

    /// A state to which nothing has been written.
    pub fn new(schema: PayloadSchema, strict: bool) -> (r: Self)
        ensures
            r.wf(),
            r@ == fresh_state(schema@, strict),
    {
        let r = CollectionInner {
            last_applied_lsn: Lsn::zero(),
            next_row_id: 0,
            key_to_row: StringHashMap::new(),
            rows: BTreeMap::new(),
            live: bitmap_new(),
            next_doc_id: 0,
            doc_key_to_id: StringHashMap::new(),
            docs: BTreeMap::new(),
            payload: PayloadStore::new(schema, strict),
            txn_index: TxnIndex::new(DEFAULT_TXN_HISTORY_LIMIT),
        };
        assert(r@.rows =~= Map::<u64, RowView>::empty());
        assert(r@.docs =~= Map::<u64, DocView>::empty());
        r
    }
}

} // verus!
