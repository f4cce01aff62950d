//! Documents: a row may be a chunk, and a document is the unit in which
//! chunks come and go. Each document operation is one transaction and one
//! batch, so that no reader sees a mix of old and new chunks.

use crate::bitmap;
use crate::bitmap::bitmap_to_vec;
use crate::clock;
use crate::collection;
use crate::collection::{Collection, CollectionView};
use crate::draft;
use crate::draft::{make_image, make_record, make_row_image, ChangeView, RowChange};
use crate::encoding;
use crate::encoding::quote;
use crate::error::{StorageError, StorageErrorView, StorageResult};
use crate::fields::{FieldsView, PayloadRow};
use crate::ids::{DocId, RowId, TxnId};
use crate::model::{ChunkSpec, ModelFingerprint, RequestCtx, Timestamp};
use crate::order;
use crate::order::stable_order;
use crate::payload;
use crate::recovery;
use crate::state;
use crate::state::{DocEntry, DocView, Row, StateView};
use crate::text;
use crate::text::{copy_opt, decimal_string};
use crate::wal;
use crate::wal::{WalDocMeta, WalOp, WalRecord};
use roaring::RoaringBitmap;
use vstd::prelude::*;
use vstd::string::*;

verus! {

/// One chunk of a document, with the vector that stands for its text.
pub struct ChunkInput {
    pub text: String,
    pub vector: Vec<u32>,
}

/// The contents of a [`ChunkInput`].
pub struct ChunkView {
    pub text: Seq<char>,
    pub vector: Seq<u32>,
}

impl View for ChunkInput {
    type V = ChunkView;

    open spec fn view(&self) -> ChunkView {
        ChunkView { text: self.text@, vector: self.vector@ }
    }
}

/// The contents of a list of chunks.
pub open spec fn chunk_views(s: Seq<ChunkInput>) -> Seq<ChunkView> {
    Seq::new(s.len(), |i: int| s[i]@)
}

/// A document to insert.
pub struct PutDocumentInput {
    pub doc_key: String,
    pub chunks: Vec<ChunkInput>,
    pub doc_payload: PayloadRow,
    pub chunk_spec: ChunkSpec,
    pub source: Option<String>,
    pub embedding_model: ModelFingerprint,
}

/// A chunk's key: the document's key, `#`, and its place.
pub open spec fn chunk_key_of(doc_key: Seq<char>, ord: nat) -> Seq<char> {
    doc_key + "#"@ + text::decimal(ord)
}

fn chunk_key(doc_key: &str, chunk_ord: u32) -> (r: String)
    ensures
        r@ == chunk_key_of(doc_key@, chunk_ord as nat),
{
    let mut out = doc_key.to_owned();
    out.append("#");
    let ord = decimal_string(chunk_ord as u64);
    out.append(ord.as_str());
    out
}

/// What inserting chunk `i` of a document changes, its rows starting at
/// `first_row`. Every chunk has the document's fields.
pub open spec fn chunk_change(
    doc_id: u64,
    doc_key: Seq<char>,
    first_row: u64,
    chunks: Seq<ChunkView>,
    fields: FieldsView,
    meta: WalDocMeta,
    i: int,
) -> ChangeView {
    ChangeView {
        op: WalOp::Insert,
        row_id: (first_row + i) as u64,
        key: chunk_key_of(doc_key, i as nat),
        doc_id: Some(doc_id),
        doc_key: Some(doc_key),
        chunk_ord: Some(i as u32),
        payload: Some(draft::image(chunks[i].vector, Some(chunks[i].text), fields, None)),
        undo: None,
        params: Some(meta),
    }
}

/// What inserting the chunks of a document changes.
pub open spec fn chunk_changes(
    doc_id: u64,
    doc_key: Seq<char>,
    first_row: u64,
    chunks: Seq<ChunkView>,
    fields: FieldsView,
    meta: WalDocMeta,
) -> Seq<ChangeView> {
    Seq::new(chunks.len(), |i: int| chunk_change(doc_id, doc_key, first_row, chunks, fields, meta, i))
}

/// What removing a row of a document changes. The record keeps the
/// document's metadata as it was, for undo.
pub open spec fn removal_change(s: StateView, doc_id: u64, doc_key: Seq<char>, meta: WalDocMeta, row: u32) -> ChangeView {
    let r = s.rows[row as u64];
    ChangeView {
        op: WalOp::Delete,
        row_id: row as u64,
        key: r.key,
        doc_id: Some(doc_id),
        doc_key: Some(doc_key),
        chunk_ord: r.chunk_ord,
        payload: None,
        undo: Some(draft::row_image(r)),
        params: Some(meta),
    }
}

/// What removing these rows of a document changes.
pub open spec fn removal_changes(s: StateView, doc_id: u64, doc_key: Seq<char>, meta: WalDocMeta, rows: Seq<u32>) -> Seq<ChangeView> {
    Seq::new(rows.len(), |i: int| removal_change(s, doc_id, doc_key, meta, rows[i]))
}

/// Those of the first `n` rows that have a record, in order.
pub open spec fn recorded(s: StateView, rows: Seq<u32>, n: nat) -> Seq<u32>
    decreases n,
{
    if n == 0 {
        Seq::empty()
    } else if s.rows.contains_key(rows[n - 1] as u64) {
        recorded(s, rows, (n - 1) as nat).push(rows[n - 1])
    } else {
        recorded(s, rows, (n - 1) as nat)
    }
}

/// The rows of a document, ascending.
pub open spec fn rows_of_document(s: StateView, doc_id: u64) -> Seq<u32> {
    let l = bitmap::listing(s.docs[doc_id].rows);
    recorded(s, l, l.len())
}

/// The first chunk from `from` on whose vector has another length than `dim`.
pub open spec fn first_misfit_chunk(chunks: Seq<ChunkView>, dim: usize, from: nat) -> nat
    decreases chunks.len() - from,
{
    if from >= chunks.len() || chunks[from as int].vector.len() != dim {
        from
    } else {
        first_misfit_chunk(chunks, dim, from + 1)
    }
}

/// Whether every chunk's vector can be read back from a record.
pub open spec fn chunks_encode(chunks: Seq<ChunkView>) -> bool {
    forall|i: int| 0 <= i < chunks.len() ==> encoding::encodes((#[trigger] chunks[i]).vector)
}

/// Whether the vectors of all of a document's rows can be read back from a
/// record.
pub open spec fn rows_encode(s: StateView, rows: Seq<u32>) -> bool {
    forall|i: int| 0 <= i < rows.len() ==> encoding::encodes(s.rows[#[trigger] rows[i] as u64].vector)
}

/// Why a document's chunks are refused before anything is looked up.
pub open spec fn chunks_refusal(c: CollectionView, chunks: Seq<ChunkView>, empty: Seq<char>) -> Option<StorageErrorView> {
    let m = first_misfit_chunk(chunks, c.dim, 0);
    if chunks.len() == 0 {
        Some(StorageErrorView::InvalidArgument(empty))
    } else if m < chunks.len() {
        Some(collection::wrong_dim(c, chunks[m as int].vector.len()))
    } else {
        None
    }
}

/// The refusal of a document whose key is taken.
pub open spec fn already_exists(doc_key: Seq<char>) -> StorageErrorView {
    StorageErrorView::InvalidArgument("document "@ + encoding::quoted(doc_key) + " already exists; use replace_document"@)
}

/// The metadata of a new document.
pub open spec fn new_meta(input: PutDocumentInput) -> WalDocMeta {
    WalDocMeta {
        version: 1,
        source: input.source,
        chunk_spec: input.chunk_spec,
        chunker_version: 1,
        embedding_model: input.embedding_model,
    }
}

/// The plan of inserting a document: its id and its changes, or why it is
/// refused. Planning takes no ids; applying the records does.
pub open spec fn put_document_plan(c: CollectionView, input: PutDocumentInput) -> Result<(u64, Seq<ChangeView>), StorageErrorView> {
    let chunks = chunk_views(input.chunks@);
    match chunks_refusal(c, chunks, "put_document requires at least one chunk"@) {
        Some(e) => Err(e),
        None => if c.state.doc_keys.contains_key(input.doc_key@) {
            Err(already_exists(input.doc_key@))
        } else {
            match payload::row_refusal(c.state.payload, input.doc_payload@) {
                Some(e) => Err(StorageErrorView::Filter(e)),
                None => Ok((
                    c.state.next_doc,
                    chunk_changes(c.state.next_doc, input.doc_key@, c.state.next_row, chunks, input.doc_payload@, new_meta(input)),
                )),
            }
        },
    }
}

/// The metadata of the next version of a document.
pub open spec fn next_meta(d: DocView, chunk_spec: ChunkSpec, source: Option<String>, model: ModelFingerprint) -> WalDocMeta {
    WalDocMeta {
        version: (d.meta.version + 1) as u32,
        source,
        chunk_spec,
        chunker_version: d.meta.chunker_version,
        embedding_model: model,
    }
}

/// The plan of replacing a document: all its rows go, the new chunks come.
pub open spec fn replace_document_plan(
    c: CollectionView,
    doc_key: Seq<char>,
    chunks: Seq<ChunkView>,
    fields: FieldsView,
    chunk_spec: ChunkSpec,
    source: Option<String>,
    model: ModelFingerprint,
) -> Result<(u64, Seq<ChangeView>), StorageErrorView> {
    match chunks_refusal(c, chunks, "replace_document requires at least one chunk"@) {
        Some(e) => Err(e),
        None => if !c.state.doc_keys.contains_key(doc_key) {
            Err(StorageErrorView::DocumentNotFound(doc_key))
        } else {
            let doc_id = c.state.doc_keys[doc_key];
            let entry = c.state.docs[doc_id];
            match payload::row_refusal(c.state.payload, fields) {
                Some(e) => Err(StorageErrorView::Filter(e)),
                None => Ok((
                    doc_id,
                    removal_changes(c.state, doc_id, doc_key, entry.meta, rows_of_document(c.state, doc_id))
                        + chunk_changes(doc_id, doc_key, c.state.next_row, chunks, fields, next_meta(entry, chunk_spec, source, model)),
                )),
            }
        },
    }
}

/// The changes that deleting a document makes.
pub open spec fn delete_document_changes(s: StateView, doc_key: Seq<char>) -> Seq<ChangeView> {
    let doc_id = s.doc_keys[doc_key];
    removal_changes(s, doc_id, doc_key, s.docs[doc_id].meta, rows_of_document(s, doc_id))
}

/// A planned document operation.
pub struct DocumentPlan {
    pub doc_id: DocId,
    pub records: Vec<WalRecord>,
}

/// Whether a planning call came out as the plan says.
pub open spec fn planned(r: StorageResult<DocumentPlan>, plan: Result<(u64, Seq<ChangeView>), StorageErrorView>, o: draft::OriginView, stamps: Seq<Timestamp>) -> bool {
    match r {
        Err(e) => plan == Err::<(u64, Seq<ChangeView>), StorageErrorView>(e@),
        Ok(p) => plan matches Ok((doc_id, changes)) && p.doc_id.0 == doc_id
            && wal::record_views(p.records@) == draft::drafted_all(o, changes, stamps),
    }
}

/// Whether a document's entry is there for its key.
pub open spec fn has_entry(s: StateView, doc_key: Seq<char>) -> bool {
    s.doc_keys.contains_key(doc_key) ==> s.docs.contains_key(s.doc_keys[doc_key])
}

/// How many of a document's rows are recorded, none for an unknown key.
pub open spec fn document_size(s: StateView, doc_key: Seq<char>) -> nat {
    if s.doc_keys.contains_key(doc_key) && s.docs.contains_key(s.doc_keys[doc_key]) {
        rows_of_document(s, s.doc_keys[doc_key]).len()
    } else {
        0
    }
}

fn push_chunks(
    records: &mut Vec<WalRecord>,
    ctx: &RequestCtx,
    coll: &String,
    txn: TxnId,
    stamps: &Vec<Timestamp>,
    doc_id: DocId,
    doc_key: &str,
    first_row: u64,
    chunks: &Vec<ChunkInput>,
    fields: &PayloadRow,
    meta: &WalDocMeta,
    n: u32,
    Ghost(all): Ghost<Seq<ChangeView>>,
)
    requires
        all.len() == n,
        stamps@.len() >= n,
        old(records)@.len() + chunks@.len() <= n,
        first_row + chunks@.len() <= collection::row_capacity(),
        wal::record_views(old(records)@)
            == draft::drafted_all(draft::origin(*ctx, coll@, txn.0), all, stamps@).take(old(records)@.len() as int),
        forall|i: int| 0 <= i < chunks@.len() ==> #[trigger] all[old(records)@.len() + i]
            == chunk_change(doc_id.0, doc_key@, first_row, chunk_views(chunks@), fields@, *meta, i),
    ensures
        final(records)@.len() == old(records)@.len() + chunks@.len(),
        wal::record_views(final(records)@)
            == draft::drafted_all(draft::origin(*ctx, coll@, txn.0), all, stamps@).take(final(records)@.len() as int),
        chunks_encode(chunk_views(chunks@)),
{
    let ghost want = draft::drafted_all(draft::origin(*ctx, coll@, txn.0), all, stamps@);
    let ghost base = records@.len();
    let ghost views = chunk_views(chunks@);
    let mut i: usize = 0;
    while i < chunks.len()
        invariant
            i <= chunks@.len(),
            base == old(records)@.len(),
            records@.len() == base + i,
            base + chunks@.len() <= n,
            all.len() == n,
            stamps@.len() >= n,
            first_row + chunks@.len() <= collection::row_capacity(),
            views == chunk_views(chunks@),
            want == draft::drafted_all(draft::origin(*ctx, coll@, txn.0), all, stamps@),
            wal::record_views(records@) == want.take(base + i),
            forall|k: int| 0 <= k < chunks@.len() ==> #[trigger] all[base + k]
                == chunk_change(doc_id.0, doc_key@, first_row, views, fields@, *meta, k),
            forall|k: int| 0 <= k < i ==> encoding::encodes((#[trigger] views[k]).vector),
        decreases chunks@.len() - i,
    {
        let ghost was = records@;
        assert(views[i as int] == chunks@[i as int]@);
        let change = RowChange {
            op: WalOp::Insert,
            row_id: RowId(first_row + i as u64),
            key: chunk_key(doc_key, i as u32),
            doc_id: Some(doc_id),
            doc_key: Some(doc_key.to_owned()),
            chunk_ord: Some(i as u32),
            payload: Some(make_image(&chunks[i].vector, Some(chunks[i].text.clone()), fields, &None)),
            undo: None,
            params: Some(meta.clone()),
        };
        assert(change@ == all[base + i]);
        let at = records.len();
        records.push(make_record(ctx, coll, txn, stamps[at], change, at as u32, n));
        proof {
            assert(records@[base + i]@ == want[base + i]);
            assert(wal::record_views(records@) =~= wal::record_views(was).push(want[base + i]));
            assert(want.take(base + i + 1) =~= want.take(base + i).push(want[base + i]));
        }
        i += 1;
    }
}

impl Collection {
    fn push_removals(
        &self,
        records: &mut Vec<WalRecord>,
        ctx: &RequestCtx,
        txn: TxnId,
        stamps: &Vec<Timestamp>,
        doc_id: DocId,
        doc_key: &str,
        rows: &Vec<u32>,
        meta: &WalDocMeta,
        n: u32,
        Ghost(all): Ghost<Seq<ChangeView>>,
    )
        requires
            all.len() == n,
            stamps@.len() >= n,
            old(records)@.len() + rows@.len() <= n,
            forall|i: int| 0 <= i < rows@.len() ==> self@.state.rows.contains_key(#[trigger] rows@[i] as u64),
            wal::record_views(old(records)@)
                == draft::drafted_all(draft::origin(*ctx, self@.name, txn.0), all, stamps@).take(old(records)@.len() as int),
            forall|i: int| 0 <= i < rows@.len() ==> #[trigger] all[old(records)@.len() + i]
                == removal_change(self@.state, doc_id.0, doc_key@, *meta, rows@[i]),
        ensures
            final(records)@.len() == old(records)@.len() + rows@.len(),
            wal::record_views(final(records)@)
                == draft::drafted_all(draft::origin(*ctx, self@.name, txn.0), all, stamps@).take(final(records)@.len() as int),
            rows_encode(self@.state, rows@),
    {
        let ghost want = draft::drafted_all(draft::origin(*ctx, self@.name, txn.0), all, stamps@);
        let ghost base = records@.len();
        let ghost s = self@.state;
        let mut i: usize = 0;
        while i < rows.len()
            invariant
                i <= rows@.len(),
                base == old(records)@.len(),
                records@.len() == base + i,
                base + rows@.len() <= n,
                all.len() == n,
                stamps@.len() >= n,
                s == self@.state,
                forall|k: int| 0 <= k < rows@.len() ==> s.rows.contains_key(#[trigger] rows@[k] as u64),
                want == draft::drafted_all(draft::origin(*ctx, self@.name, txn.0), all, stamps@),
                wal::record_views(records@) == want.take(base + i),
                forall|k: int| 0 <= k < rows@.len() ==> #[trigger] all[base + k]
                    == removal_change(s, doc_id.0, doc_key@, *meta, rows@[k]),
                forall|k: int| 0 <= k < i ==> encoding::encodes(s.rows[#[trigger] rows@[k] as u64].vector),
            decreases rows@.len() - i,
        {
            let ghost was = records@;
            let row_id = RowId::from_bitmap_index(rows[i]);
            assert(s.rows.contains_key(rows@[i as int] as u64));
            match self.inner.rows.get(&row_id.0) {
                Some(row) => {
                    assert(row@ == s.rows[row_id.0]);
                    let change = RowChange {
                        op: WalOp::Delete,
                        row_id,
                        key: row.key.clone(),
                        doc_id: Some(doc_id),
                        doc_key: Some(doc_key.to_owned()),
                        chunk_ord: row.chunk_ord,
                        payload: None,
                        undo: Some(make_row_image(row)),
                        params: Some(meta.clone()),
                    };
                    assert(change@ == all[base + i]);
                    let at = records.len();
                    records.push(make_record(ctx, &self.name, txn, stamps[at], change, at as u32, n));
                },
                None => { assert(false); },
            }
            proof {
                assert(records@[base + i]@ == want[base + i]);
                assert(wal::record_views(records@) =~= wal::record_views(was).push(want[base + i]));
                assert(want.take(base + i + 1) =~= want.take(base + i).push(want[base + i]));
            }
            i += 1;
        }
    }

    fn recorded_rows(&self, rows: &RoaringBitmap) -> (r: Vec<u32>)
        ensures
            ({
                let l = bitmap::listing(bitmap::rows_of(*rows));
                r@ == recorded(self@.state, l, l.len())
            }),
            forall|i: int| 0 <= i < r@.len() ==> self@.state.rows.contains_key(#[trigger] r@[i] as u64),
    {
        let all = bitmap_to_vec(rows);
        proof { bitmap::listing_is(all@, bitmap::rows_of(*rows)); }
        let mut out: Vec<u32> = Vec::new();
        let mut i: usize = 0;
        while i < all.len()
            invariant
                i <= all@.len(),
                out@ == recorded(self@.state, all@, i as nat),
                forall|k: int| 0 <= k < out@.len() ==> self@.state.rows.contains_key(#[trigger] out@[k] as u64),
            decreases all@.len() - i,
        {
            if self.inner.rows.contains_key(&(all[i] as u64)) {
                out.push(all[i]);
            }
            i += 1;
        }
        out
    }

    fn check_chunks(&self, chunks: &Vec<ChunkInput>, empty: &str) -> (r: StorageResult<()>)
        ensures
            recovery::result_is(r, chunks_refusal(self@, chunk_views(chunks@), empty@)),
    {
        if chunks.len() == 0 {
            return Err(StorageError::InvalidArgument(empty.to_owned()));
        }
        let ghost views = chunk_views(chunks@);
        let mut i: usize = 0;
        while i < chunks.len()
            invariant
                i <= chunks@.len(),
                chunks@.len() > 0,
                views == chunk_views(chunks@),
                first_misfit_chunk(views, self.dim, 0) == first_misfit_chunk(views, self.dim, i as nat),
            decreases chunks@.len() - i,
        {
            assert(views[i as int] == chunks@[i as int]@);
            match self.check_dim(&chunks[i].vector) {
                Ok(_) => {},
                Err(e) => { return Err(e); },
            }
            i += 1;
        }
        Ok(())
    }

    /// Plans the insertion of a document.
    pub fn plan_put_document(&self, ctx: &RequestCtx, input: &PutDocumentInput, txn: TxnId, stamps: &Vec<Timestamp>) -> (r: StorageResult<DocumentPlan>)
        requires
            self.wf(),
            input.chunks@.len() <= u32::MAX,
            stamps@.len() >= input.chunks@.len(),
            self@.state.next_row + input.chunks@.len() <= collection::row_capacity(),
            self@.state.next_doc < u64::MAX,
        ensures
            planned(r, put_document_plan(self@, *input), draft::origin(*ctx, self@.name, txn.0), stamps@),
            r is Ok ==> chunks_encode(chunk_views(input.chunks@)),
    {
        match self.check_chunks(&input.chunks, "put_document requires at least one chunk") {
            Ok(_) => {},
            Err(e) => { return Err(e); },
        }
        if self.inner.doc_key_to_id.contains_key(input.doc_key.as_str()) {
            let mut m = "document ".to_owned();
            let name = quote(input.doc_key.as_str());
            m.append(name.as_str());
            m.append(" already exists; use replace_document");
            return Err(StorageError::InvalidArgument(m));
        }
        let doc_id = DocId(self.inner.next_doc_id);
        let first_row = self.inner.next_row_id;
        match self.inner.payload.validate_row(&input.doc_payload) {
            Ok(_) => {},
            Err(e) => { return Err(StorageError::Filter(e)); },
        }
        let meta = WalDocMeta {
            version: 1,
            source: copy_opt(&input.source),
            chunk_spec: input.chunk_spec.clone(),
            chunker_version: 1,
            embedding_model: input.embedding_model.clone(),
        };
        let ghost all = chunk_changes(doc_id.0, input.doc_key@, first_row, chunk_views(input.chunks@), input.doc_payload@, meta);
        let mut records: Vec<WalRecord> = Vec::new();
        let n = input.chunks.len() as u32;
        let ghost want = draft::drafted_all(draft::origin(*ctx, self@.name, txn.0), all, stamps@);
        assert(wal::record_views(records@) =~= want.take(0));
        push_chunks(
            &mut records, ctx, &self.name, txn, stamps, doc_id, input.doc_key.as_str(), first_row, &input.chunks,
            &input.doc_payload, &meta, n, Ghost(all),
        );
        assert(want.take(n as int) =~= want);
        Ok(DocumentPlan { doc_id, records })
    }

    /// Plans the replacement of a document's chunks. The document keeps its
    /// id and its key.
    pub fn plan_replace_document(
        &self,
        ctx: &RequestCtx,
        doc_key: &str,
        chunks: &Vec<ChunkInput>,
        doc_payload: &PayloadRow,
        chunk_spec: &ChunkSpec,
        source: &Option<String>,
        embedding_model: &ModelFingerprint,
        txn: TxnId,
        stamps: &Vec<Timestamp>,
    ) -> (r: StorageResult<DocumentPlan>)
        requires
            self.wf(),
            has_entry(self@.state, doc_key@),
            document_size(self@.state, doc_key@) + chunks@.len() <= u32::MAX,
            stamps@.len() >= document_size(self@.state, doc_key@) + chunks@.len(),
            self@.state.next_row + chunks@.len() <= collection::row_capacity(),
            self@.state.doc_keys.contains_key(doc_key@)
                ==> self@.state.docs[self@.state.doc_keys[doc_key@]].meta.version < u32::MAX,
        ensures
            planned(
                r,
                replace_document_plan(self@, doc_key@, chunk_views(chunks@), doc_payload@, *chunk_spec, *source, *embedding_model),
                draft::origin(*ctx, self@.name, txn.0),
                stamps@,
            ),
            r is Ok ==> chunks_encode(chunk_views(chunks@))
                && rows_encode(self@.state, rows_of_document(self@.state, self@.state.doc_keys[doc_key@])),
    {
        match self.check_chunks(chunks, "replace_document requires at least one chunk") {
            Ok(_) => {},
            Err(e) => { return Err(e); },
        }
        let doc_id = match self.inner.doc_key_to_id.get(doc_key) {
            Some(id) => DocId(*id),
            None => { return Err(StorageError::DocumentNotFound(doc_key.to_owned())); },
        };
        let ghost s = self@.state;
        assert(s.docs.contains_key(doc_id.0));
        let first_row = self.inner.next_row_id;
        let (old_meta, old_rows) = match self.inner.docs.get(&doc_id.0) {
            Some(entry) => {
                assert(entry@ == s.docs[doc_id.0]);
                (entry.meta(), self.recorded_rows(&entry.rows))
            },
            None => {
                assert(false);
                return Err(StorageError::DocumentNotFound(doc_key.to_owned()));
            },
        };
        match self.inner.payload.validate_row(doc_payload) {
            Ok(_) => {},
            Err(e) => { return Err(StorageError::Filter(e)); },
        }
        let meta = WalDocMeta {
            version: old_meta.version + 1,
            source: copy_opt(source),
            chunk_spec: chunk_spec.clone(),
            chunker_version: old_meta.chunker_version,
            embedding_model: embedding_model.clone(),
        };
        let ghost removals = removal_changes(s, doc_id.0, doc_key@, old_meta, old_rows@);
        let ghost all = removals + chunk_changes(doc_id.0, doc_key@, first_row, chunk_views(chunks@), doc_payload@, meta);
        let n = (old_rows.len() + chunks.len()) as u32;
        let mut records: Vec<WalRecord> = Vec::new();
        let ghost want = draft::drafted_all(draft::origin(*ctx, self@.name, txn.0), all, stamps@);
        proof {
            assert(wal::record_views(records@) =~= want.take(0));
            assert forall|i: int| 0 <= i < old_rows@.len() implies #[trigger] all[0 + i]
                == removal_change(self@.state, doc_id.0, doc_key@, old_meta, old_rows@[i]) by {
                assert(all[i] == removals[i]);
            }
        }
        self.push_removals(&mut records, ctx, txn, stamps, doc_id, doc_key, &old_rows, &old_meta, n, Ghost(all));
        push_chunks(
            &mut records, ctx, &self.name, txn, stamps, doc_id, doc_key, first_row, chunks, doc_payload, &meta, n, Ghost(all),
        );
        assert(want.take(n as int) =~= want);
        Ok(DocumentPlan { doc_id, records })
    }

    /// Plans the deletion of a document with all its chunks.
    pub fn plan_delete_document(&self, ctx: &RequestCtx, doc_key: &str, txn: TxnId, stamps: &Vec<Timestamp>) -> (r: StorageResult<Vec<WalRecord>>)
        requires
            self.wf(),
            has_entry(self@.state, doc_key@),
            document_size(self@.state, doc_key@) <= u32::MAX,
            stamps@.len() >= document_size(self@.state, doc_key@),
        ensures
            r matches Err(e) ==> !self@.state.doc_keys.contains_key(doc_key@) && e@ == StorageErrorView::DocumentNotFound(doc_key@),
            r matches Ok(records) ==> self@.state.doc_keys.contains_key(doc_key@) && wal::record_views(records@) == draft::drafted_all(
                draft::origin(*ctx, self@.name, txn.0),
                delete_document_changes(self@.state, doc_key@),
                stamps@,
            ) && rows_encode(self@.state, rows_of_document(self@.state, self@.state.doc_keys[doc_key@])),
    {
        let doc_id = match self.inner.doc_key_to_id.get(doc_key) {
            Some(id) => DocId(*id),
            None => { return Err(StorageError::DocumentNotFound(doc_key.to_owned())); },
        };
        let ghost s = self@.state;
        assert(s.docs.contains_key(doc_id.0));
        let (meta, rows) = match self.inner.docs.get(&doc_id.0) {
            Some(entry) => {
                assert(entry@ == s.docs[doc_id.0]);
                (entry.meta(), self.recorded_rows(&entry.rows))
            },
            None => {
                assert(false);
                return Err(StorageError::DocumentNotFound(doc_key.to_owned()));
            },
        };
        let ghost all = delete_document_changes(s, doc_key@);
        let n = rows.len() as u32;
        let mut records: Vec<WalRecord> = Vec::new();
        let ghost want = draft::drafted_all(draft::origin(*ctx, self@.name, txn.0), all, stamps@);
        assert(wal::record_views(records@) =~= want.take(0));
        self.push_removals(&mut records, ctx, txn, stamps, doc_id, doc_key, &rows, &meta, n, Ghost(all));
        assert(want.take(n as int) =~= want);
        Ok(records)
    }
}

/// Whether these changes were written, by some transaction at some times.
pub open spec fn changes_took_place(before: CollectionView, after: CollectionView, ctx: RequestCtx, changes: Seq<ChangeView>) -> bool {
    exists|txn: u128, stamps: Seq<Timestamp>|
        stamps.len() >= changes.len()
            && after == #[trigger] written_changes(before, draft::origin(ctx, before.name, txn), changes, stamps)
}

/// How a planned document operation comes out. A refused one changes nothing.
pub open spec fn document_outcome(
    before: CollectionView,
    plan: Result<(u64, Seq<ChangeView>), StorageErrorView>,
    after: CollectionView,
    ctx: RequestCtx,
    r: StorageResult<DocId>,
) -> bool {
    match r {
        Err(e) => plan == Err::<(u64, Seq<ChangeView>), StorageErrorView>(e@) && after == before,
        Ok(id) => plan matches Ok((doc_id, changes)) && id.0 == doc_id && changes_took_place(before, after, ctx, changes),
    }
}

/// What a transaction that makes these changes makes of a collection.
pub open spec fn written_changes(c: CollectionView, o: draft::OriginView, changes: Seq<ChangeView>, stamps: Seq<Timestamp>) -> CollectionView {
    collection::written(c, o.txn, draft::drafted_all(o, changes, stamps))
}

/// Whether a change names a row and a document within the limits.
pub open spec fn change_fits(c: ChangeView) -> bool {
    c.row_id <= u32::MAX && (c.doc_id matches Some(d) ==> d < u64::MAX)
}

/// Whether a change is a removal, or writes what the store accepts.
pub open spec fn change_clean(s: payload::StoreView, c: ChangeView) -> bool {
    match c.op {
        WalOp::Delete => true,
        WalOp::Insert => {
            &&& c.payload is Some
            &&& wal::image_vector(c.payload->0) matches Ok(Some(_))
            &&& payload::row_refusal(s, recovery::image_fields(c.payload->0)) is None
            &&& c.doc_key is Some
        },
        _ => false,
    }
}

/// Changes that fit and are clean always apply.
pub proof fn lemma_changes_apply(s: StateView, o: draft::OriginView, changes: Seq<ChangeView>, stamps: Seq<Timestamp>)
    requires
        forall|i: int| 0 <= i < changes.len() ==> change_fits(#[trigger] changes[i]) && change_clean(s.payload, changes[i]),
    ensures
        recovery::all_ids_fit(draft::drafted_all(o, changes, stamps)),
        recovery::applied_from(s, draft::drafted_all(o, changes, stamps), 0).1 is None,
{
    let records = draft::drafted_all(o, changes, stamps);
    assert forall|i: int| 0 <= i < records.len() implies recovery::ids_fit(#[trigger] records[i]) by {
        assert(change_fits(changes[i]));
    }
    assert forall|i: int| 0 <= i < records.len() implies recovery::clean(s.payload, #[trigger] records[i]) by {
        assert(change_clean(s.payload, changes[i]));
    }
    recovery::clean_transaction_applies(s, records);
}

/// The changes that insert chunks fit and are clean.
pub proof fn lemma_chunk_changes_fit(
    s: StateView,
    doc_id: u64,
    doc_key: Seq<char>,
    first_row: u64,
    chunks: Seq<ChunkView>,
    fields: FieldsView,
    meta: WalDocMeta,
)
    requires
        first_row + chunks.len() <= collection::row_capacity(),
        doc_id < u64::MAX,
        chunks_encode(chunks),
        payload::row_refusal(s.payload, fields) is None,
    ensures
        ({
            let changes = chunk_changes(doc_id, doc_key, first_row, chunks, fields, meta);
            forall|i: int| 0 <= i < changes.len() ==> change_fits(#[trigger] changes[i]) && change_clean(s.payload, changes[i])
        }),
{
    let changes = chunk_changes(doc_id, doc_key, first_row, chunks, fields, meta);
    assert forall|i: int| 0 <= i < changes.len() implies change_fits(#[trigger] changes[i]) && change_clean(s.payload, changes[i]) by {
        assert(encoding::encodes(chunks[i].vector));
        assert(recovery::image_fields(changes[i].payload->0) == fields);
    }
}

/// The recorded rows among some have their records.
pub proof fn lemma_recorded(s: StateView, rows: Seq<u32>, n: nat)
    requires
        n <= rows.len(),
    ensures
        forall|i: int| 0 <= i < recorded(s, rows, n).len() ==> s.rows.contains_key(#[trigger] recorded(s, rows, n)[i] as u64),
        forall|i: int| 0 <= i < recorded(s, rows, n).len() ==> rows.contains(#[trigger] recorded(s, rows, n)[i]),
        (forall|i: int| 0 <= i < n ==> s.rows.contains_key(#[trigger] rows[i] as u64)) ==> recorded(s, rows, n) == rows.take(n as int),
    decreases n,
{
    if n > 0 {
        lemma_recorded(s, rows, (n - 1) as nat);
        assert(rows.take(n as int) =~= rows.take(n - 1).push(rows[n - 1]));
        assert(rows.contains(rows[n - 1]));
        let prior = recorded(s, rows, (n - 1) as nat);
        let all = recorded(s, rows, n);
        assert forall|i: int| 0 <= i < all.len() implies s.rows.contains_key(#[trigger] all[i] as u64) && rows.contains(all[i]) by {
            if i < prior.len() {
                assert(all[i] == prior[i]);
            }
        }
    } else {
        assert(recorded(s, rows, n) =~= rows.take(0));
    }
}

impl Collection {
    /// Whether a key that names a document has the document's entry, which
    /// replacing and deleting the document ask for.
    pub fn entry_is_there(&self, doc_key: &str) -> (r: bool)
        ensures
            r == has_entry(self@.state, doc_key@),
    {
        match self.inner.doc_key_to_id.get(doc_key) {
            Some(id) => self.inner.docs.contains_key(id),
            None => true,
        }
    }

    /// How many rows a document's entry lists, of those that are recorded.
    pub fn document_rows(&self, doc_key: &str) -> (r: usize)
        ensures
            r == document_size(self@.state, doc_key@),
    {
        match self.inner.doc_key_to_id.get(doc_key) {
            Some(id) => match self.inner.docs.get(id) {
                Some(entry) => {
                    assert(entry@ == self@.state.docs[*id]);
                    self.recorded_rows(&entry.rows).len()
                },
                None => 0,
            },
            None => 0,
        }
    }

    /// Inserts a document in one transaction, on a collection without a log:
    /// either all its chunks land or none does.
    pub fn put_document(&mut self, ctx: &RequestCtx, input: PutDocumentInput) -> (r: StorageResult<DocId>)
        requires
            old(self).wf(),
            old(self).wal is None,
            input.chunks@.len() <= u32::MAX,
            old(self)@.state.next_row + input.chunks@.len() <= collection::row_capacity(),
            old(self)@.state.next_doc < u64::MAX,
        ensures
            final(self).wf(),
            document_outcome(old(self)@, put_document_plan(old(self)@, input), final(self)@, *ctx, r),
            r is Ok ==> chunks_encode(chunk_views(input.chunks@)),
    {
        let txn = TxnId::new();
        let stamps = clock::readings(input.chunks.len());
        let plan = match self.plan_put_document(ctx, &input, txn, &stamps) {
            Ok(p) => p,
            Err(e) => { return Err(e); },
        };
        let ghost before = self@;
        let ghost view = put_document_plan(old(self)@, input);
        let ghost changes = (view->Ok_0).1;
        let ghost o = draft::origin(*ctx, before.name, txn.0);
        proof {
            let s = old(self)@.state;
            assert(payload::row_refusal(before.state.payload, input.doc_payload@) is None);
            lemma_chunk_changes_fit(
                before.state, s.next_doc, input.doc_key@, s.next_row, chunk_views(input.chunks@), input.doc_payload@, new_meta(input),
            );
            lemma_changes_apply(before.state, o, changes, stamps@);
        }
        match self.finish(txn, &plan.records, Ok(())) {
            Ok(_) => {},
            Err(e) => { return Err(e); },
        }
        assert(self@ == written_changes(before, o, changes, stamps@));
        Ok(plan.doc_id)
    }

    /// Replaces a document's chunks in one transaction, on a collection
    /// without a log: readers see the old version or the new one, never a mix.
    pub fn replace_document(
        &mut self,
        ctx: &RequestCtx,
        doc_key: &str,
        chunks: Vec<ChunkInput>,
        doc_payload: PayloadRow,
        chunk_spec: ChunkSpec,
        source: Option<String>,
        embedding_model: ModelFingerprint,
    ) -> (r: StorageResult<DocId>)
        requires
            old(self).wf(),
            old(self).wal is None,
            has_entry(old(self)@.state, doc_key@),
            document_size(old(self)@.state, doc_key@) + chunks@.len() <= u32::MAX,
            old(self)@.state.next_row + chunks@.len() <= collection::row_capacity(),
            old(self)@.state.doc_keys.contains_key(doc_key@)
                ==> old(self)@.state.docs[old(self)@.state.doc_keys[doc_key@]].meta.version < u32::MAX,
        ensures
            final(self).wf(),
            document_outcome(
                old(self)@,
                replace_document_plan(
                    old(self)@, doc_key@, chunk_views(chunks@), doc_payload@, chunk_spec, source, embedding_model,
                ),
                final(self)@,
                *ctx,
                r,
            ),
            r is Ok ==> chunks_encode(chunk_views(chunks@))
                && rows_encode(old(self)@.state, rows_of_document(old(self)@.state, old(self)@.state.doc_keys[doc_key@])),
    {
        let txn = TxnId::new();
        let size = self.document_rows(doc_key);
        let stamps = clock::readings(size + chunks.len());
        let plan = match self.plan_replace_document(
            ctx, doc_key, &chunks, &doc_payload, &chunk_spec, &source, &embedding_model, txn, &stamps,
        ) {
            Ok(p) => p,
            Err(e) => { return Err(e); },
        };
        let ghost before = self@;
        let ghost view = replace_document_plan(
            old(self)@, doc_key@, chunk_views(chunks@), doc_payload@, chunk_spec, source, embedding_model,
        );
        let ghost changes = (view->Ok_0).1;
        let ghost o = draft::origin(*ctx, before.name, txn.0);
        proof {
            let s = old(self)@.state;
            let doc_id = s.doc_keys[doc_key@];
            let entry = s.docs[doc_id];
            assert(s.docs.contains_key(doc_id));
            let l = bitmap::listing(entry.rows);
            lemma_recorded(s, l, l.len());
            let rows = rows_of_document(s, doc_id);
            let removals = removal_changes(s, doc_id, doc_key@, entry.meta, rows);
            let additions = chunk_changes(
                doc_id, doc_key@, s.next_row, chunk_views(chunks@), doc_payload@, next_meta(entry, chunk_spec, source, embedding_model),
            );
            lemma_chunk_changes_fit(
                before.state, doc_id, doc_key@, s.next_row, chunk_views(chunks@), doc_payload@,
                next_meta(entry, chunk_spec, source, embedding_model),
            );
            assert forall|i: int| 0 <= i < changes.len() implies change_fits(#[trigger] changes[i]) && change_clean(before.state.payload, changes[i]) by {
                if i < removals.len() {
                    assert(changes[i] == removals[i]);
                    assert(s.rows.contains_key(rows[i] as u64));
                } else {
                    assert(changes[i] == additions[i - removals.len()]);
                }
            }
            lemma_changes_apply(before.state, o, changes, stamps@);
        }
        match self.finish(txn, &plan.records, Ok(())) {
            Ok(_) => {},
            Err(e) => { return Err(e); },
        }
        assert(self@ == written_changes(before, o, changes, stamps@));
        Ok(plan.doc_id)
    }

    /// Deletes a document with all its chunks in one transaction, on a
    /// collection without a log.
    pub fn delete_document(&mut self, ctx: &RequestCtx, doc_key: &str) -> (r: StorageResult<()>)
        requires
            old(self).wf(),
            old(self).wal is None,
            has_entry(old(self)@.state, doc_key@),
            document_size(old(self)@.state, doc_key@) <= u32::MAX,
        ensures
            final(self).wf(),
            r matches Err(e) ==> !old(self)@.state.doc_keys.contains_key(doc_key@) && e@ == StorageErrorView::DocumentNotFound(doc_key@)
                && *final(self) == *old(self),
            r is Ok ==> old(self)@.state.doc_keys.contains_key(doc_key@)
                && rows_encode(old(self)@.state, rows_of_document(old(self)@.state, old(self)@.state.doc_keys[doc_key@]))
                && changes_took_place(old(self)@, final(self)@, *ctx, delete_document_changes(old(self)@.state, doc_key@)),
    {
        let txn = TxnId::new();
        let size = self.document_rows(doc_key);
        let stamps = clock::readings(size);
        let records = match self.plan_delete_document(ctx, doc_key, txn, &stamps) {
            Ok(p) => p,
            Err(e) => { return Err(e); },
        };
        let ghost before = self@;
        let ghost s = before.state;
        let ghost changes = delete_document_changes(s, doc_key@);
        let ghost o = draft::origin(*ctx, before.name, txn.0);
        proof {
            let doc_id = s.doc_keys[doc_key@];
            assert(s.docs.contains_key(doc_id));
            let l = bitmap::listing(s.docs[doc_id].rows);
            lemma_recorded(s, l, l.len());
            let rows = rows_of_document(s, doc_id);
            assert forall|i: int| 0 <= i < changes.len() implies change_fits(#[trigger] changes[i]) && change_clean(s.payload, changes[i]) by {
                assert(s.rows.contains_key(rows[i] as u64));
            }
            lemma_changes_apply(s, o, changes, stamps@);
        }
        match self.finish(txn, &records, Ok(())) {
            Ok(_) => {},
            Err(e) => { return Err(e); },
        }
        assert(self@ == written_changes(before, o, changes, stamps@));
        Ok(())
    }

    /// A document's registry entry.
    pub fn get_document(&self, doc_key: &str) -> (r: Option<DocEntry>)
        ensures
            is_entry_of(self@.state, doc_key@, r),
    {
        match self.inner.doc_key_to_id.get(doc_key) {
            Some(id) => match self.inner.docs.get(id) {
                Some(entry) => {
                    assert(entry@ == self@.state.docs[*id]);
                    Some(entry.clone())
                },
                None => None,
            },
            None => None,
        }
    }

    /// A document's chunks, ordered by their place in it; rows without a
    /// place come last, and rows with the same place in row order.
    pub fn list_chunks(&self, doc_id: DocId) -> (r: StorageResult<Vec<Row>>)
        ensures
            r matches Err(e) ==> !self@.state.docs.contains_key(doc_id.0)
                && e@ == StorageErrorView::DocumentNotFound(text::decimal(doc_id.0 as nat)),
            r matches Ok(rows) ==> self@.state.docs.contains_key(doc_id.0) && chunks_in_order(self@.state, rows_of_document(self@.state, doc_id.0), rows@),
    {
        let ghost s = self@.state;
        let rows = match self.inner.docs.get(&doc_id.0) {
            Some(entry) => {
                assert(entry@ == s.docs[doc_id.0]);
                self.recorded_rows(&entry.rows)
            },
            None => { return Err(StorageError::DocumentNotFound(decimal_string(doc_id.0))); },
        };
        let mut keys: Vec<i128> = Vec::new();
        let mut i: usize = 0;
        while i < rows.len()
            invariant
                i <= rows@.len(),
                s == self@.state,
                forall|k: int| 0 <= k < rows@.len() ==> s.rows.contains_key(#[trigger] rows@[k] as u64),
                keys@ == place_keys(s, rows@).take(i as int),
            decreases rows@.len() - i,
        {
            assert(s.rows.contains_key(rows@[i as int] as u64));
            let id = rows[i] as u64;
            match self.inner.rows.get(&id) {
                Some(rec) => {
                    assert(rec@ == s.rows[id]);
                    let place: u32 = match rec.chunk_ord {
                        Some(o) => o,
                        None => u32::MAX,
                    };
                    keys.push(place as i128);
                },
                None => { assert(false); },
            }
            assert(keys@ =~= place_keys(s, rows@).take(i + 1));
            i += 1;
        }
        assert(keys@ =~= place_keys(s, rows@));
        let order = stable_order(&keys);
        let mut out: Vec<Row> = Vec::new();
        let mut j: usize = 0;
        while j < order.len()
            invariant
                j <= order@.len(),
                s == self@.state,
                keys@ == place_keys(s, rows@),
                order::stable_order_of(keys@, order@),
                forall|k: int| 0 <= k < rows@.len() ==> s.rows.contains_key(#[trigger] rows@[k] as u64),
                out@.len() == j,
                forall|k: int| 0 <= k < j ==> state::is_row(
                    #[trigger] out@[k],
                    rows@[order@[k] as int] as u64,
                    s.rows[rows@[order@[k] as int] as u64],
                ),
            decreases order@.len() - j,
        {
            let at = order[j];
            assert(s.rows.contains_key(rows@[at as int] as u64));
            let row_id = RowId::from_bitmap_index(rows[at]);
            match self.inner.rows.get(&row_id.0) {
                Some(rec) => {
                    assert(rec@ == s.rows[row_id.0]);
                    out.push(rec.to_row(row_id));
                },
                None => { assert(false); },
            }
            j += 1;
        }
        assert(chunks_in_order(s, rows@, out@));
        Ok(out)
    }

    /// All registered documents, ordered by id.
    pub fn list_documents(&self) -> (r: Vec<DocEntry>)
        requires
            self.wf(),
        ensures
            forall|i: int, j: int| 0 <= i < j < r@.len() ==> (#[trigger] r@[i]).doc_id.0 < (#[trigger] r@[j]).doc_id.0,
            forall|i: int| 0 <= i < r@.len() ==> self@.state.docs.contains_key((#[trigger] r@[i]).doc_id.0)
                && r@[i]@ == self@.state.docs[r@[i].doc_id.0],
            forall|d: u64| #[trigger] self@.state.docs.contains_key(d) ==> exists|i: int| 0 <= i < r@.len() && (#[trigger] r@[i]).doc_id.0 == d,
    {
        broadcast use vstd::std_specs::btree::group_btree_axioms;

        let ghost s = self@.state;
        let mut out: Vec<DocEntry> = Vec::new();
        let ghost all = vstd::std_specs::iter::IteratorSpec::remaining(&self.inner.docs.iter());
        let ghost keys = all.map_values(|kv: (&u64, &DocEntry)| *kv.0);
        for (k, entry) in it: self.inner.docs.iter()
            invariant
                it.seq() == all,
                out@.len() == it.index(),
                forall|i: int| 0 <= i < out@.len() ==> (#[trigger] out@[i])@ == (*all[i].1)@,
        {
            out.push(entry.clone());
        }
        proof {
            assert(vstd::std_specs::btree::increasing_seq(keys));
            assert forall|i: int| 0 <= i < out@.len() implies self.inner.docs@.contains_key(*(#[trigger] all[i]).0)
                && self.inner.docs@[*all[i].0] == *all[i].1 by {}
            assert forall|i: int| 0 <= i < out@.len() implies s.docs.contains_key((#[trigger] out@[i]).doc_id.0)
                && out@[i]@ == s.docs[out@[i].doc_id.0] && out@[i].doc_id.0 == *all[i].0 by {
                let d = *all[i].0;
                assert(s.docs.contains_key(d));
                assert(s.docs[d] == (*all[i].1)@);
                assert(out@[i]@.doc_id == d);
            }
            assert forall|i: int, j: int| 0 <= i < j < out@.len() implies (#[trigger] out@[i]).doc_id.0 < (#[trigger] out@[j]).doc_id.0 by {
                assert(keys[i] == out@[i].doc_id.0);
                assert(keys[j] == out@[j].doc_id.0);
                order::lemma_increasing(keys, i, j);
            }
            assert forall|d: u64| #[trigger] s.docs.contains_key(d) implies exists|i: int| 0 <= i < out@.len() && (#[trigger] out@[i]).doc_id.0 == d by {
                assert(self.inner.docs@.contains_key(d));
                assert(all.contains((&d, &self.inner.docs@[d])));
                let i = choose|i: int| 0 <= i < all.len() && all[i] == (&d, &self.inner.docs@[d]);
                assert(out@[i].doc_id.0 == d);
            }
        }
        out
    }
}

/// Whether `r` is the entry of the document `key`, if it is registered.
pub open spec fn is_entry_of(s: StateView, key: Seq<char>, r: Option<DocEntry>) -> bool {
    match r {
        Some(e) => s.doc_keys.contains_key(key) && s.docs.contains_key(s.doc_keys[key]) && e@ == s.docs[s.doc_keys[key]],
        None => !(s.doc_keys.contains_key(key) && s.docs.contains_key(s.doc_keys[key])),
    }
}

/// Where each row goes among a document's chunks.
pub open spec fn place_keys(s: StateView, rows: Seq<u32>) -> Seq<i128> {
    Seq::new(
        rows.len(),
        |i: int| match s.rows[rows[i] as u64].chunk_ord {
            Some(o) => o as i128,
            None => u32::MAX as i128,
        },
    )
}

/// Whether `out` holds these rows, ordered by their place, stably.
pub open spec fn chunks_in_order(s: StateView, rows: Seq<u32>, out: Seq<Row>) -> bool {
    exists|p: Seq<usize>| #[trigger] order::stable_order_of(place_keys(s, rows), p) && out.len() == p.len()
        && forall|k: int| 0 <= k < out.len() ==> state::is_row(#[trigger] out[k], rows[p[k] as int] as u64, s.rows[rows[p[k] as int] as u64])
}

} // verus!
