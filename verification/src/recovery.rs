//! Applying log records to a collection's state. Every write, live or
//! replayed, becomes state through the functions here.

use crate::bitmap;
use crate::bitmap::{bitmap_insert, bitmap_is_empty, bitmap_len, bitmap_new, bitmap_remove};
use crate::change::{ChangeEvent, EventView, WrittenView};
use crate::change;
use crate::encoding;
use crate::error::{StorageError, StorageErrorView, StorageResult};
use crate::fields::{FieldsView, PayloadRow};
use crate::ids::{DocId, PrincipalId, RowId, SessionId};
use crate::payload;
use crate::state::{CollectionInner, DocEntry, DocView, RowRecord, RowView, StateView};
use crate::text::copy_opt;
use crate::txn_index;
use crate::txn_index::{EntryView, TxnEntry};
use crate::wal;
use crate::wal::{summarize_txn, RecordView, WalDocMeta, WalOp, WalRecord};
use vstd::prelude::*;
use vstd::slice::slice_subrange;

verus! {

/// A state, and the error that ended a step if one did.
pub type Outcome = (StateView, Option<StorageErrorView>);

/// The refusal of a malformed record.
pub open spec fn malformed(s: StateView, message: Seq<char>) -> Outcome {
    (s, Some(StorageErrorView::InvalidArgument(message)))
}

/// The larger of two numbers.
pub open spec fn max_u64(a: u64, b: u64) -> u64 {
    if a >= b { a } else { b }
}

/// The fields of an image, none where it has none.
pub open spec fn image_fields(p: wal::ImageView) -> FieldsView {
    match p.fields {
        Some(f) => f,
        None => Map::empty(),
    }
}

/// The row that an insert or update record writes.
pub open spec fn written_row(r: RecordView, vector: Seq<u32>) -> RowView {
    RowView {
        key: r.key->0,
        vector,
        fields: image_fields(r.payload->0),
        extra: r.payload->0.extra,
        text: r.payload->0.text,
        doc_id: r.doc_id,
        chunk_ord: r.chunk_ord,
    }
}

/// The state with row `id` written, its columns not yet.
pub open spec fn with_row_stored(s: StateView, id: u64, row: RowView) -> StateView {
    StateView {
        next_row: max_u64(s.next_row, (id + 1) as u64),
        keys: s.keys.insert(row.key, id),
        rows: s.rows.insert(id, row),
        live: s.live.insert(id as u32),
        ..s
    }
}

/// The entry of a document after a record with metadata for it.
pub open spec fn doc_with_meta(s: StateView, id: u64, key: Seq<char>, meta: WalDocMeta, txn: u128, fields: FieldsView) -> DocView {
    if s.docs.contains_key(id) {
        DocView { meta, updated_txn: txn, doc_payload: fields, ..s.docs[id] }
    } else {
        DocView {
            doc_id: id,
            doc_key: key,
            rows: Set::empty(),
            chunk_count: 0,
            meta,
            created_txn: txn,
            updated_txn: txn,
            doc_payload: fields,
        }
    }
}

/// The registry with the metadata that a record carries for document `id`.
pub open spec fn with_doc_meta(s: StateView, id: u64, r: RecordView, fields: FieldsView) -> Outcome {
    match r.params {
        None => (s, None),
        Some(meta) => match r.doc_key {
            None => malformed(s, "WAL doc-chunk record missing doc_key"@),
            Some(key) => (
                StateView {
                    docs: s.docs.insert(id, doc_with_meta(s, id, key, meta, r.txn, fields)),
                    doc_keys: s.doc_keys.insert(key, id),
                    ..s
                },
                None,
            ),
        },
    }
}

/// An entry with the given live chunks.
pub open spec fn doc_with_rows(d: DocView, rows: Set<u32>) -> DocView {
    DocView { rows, chunk_count: rows.len() as u32, ..d }
}

/// The state with `row` among the chunks of document `id`, if it is registered.
pub open spec fn with_chunk(s: StateView, id: u64, row: u32) -> StateView {
    if s.docs.contains_key(id) {
        StateView { docs: s.docs.insert(id, doc_with_rows(s.docs[id], s.docs[id].rows.insert(row))), ..s }
    } else {
        s
    }
}

/// The state without `row` among the chunks of document `id`.
pub open spec fn without_chunk(s: StateView, id: u64, row: u32) -> StateView {
    if s.docs.contains_key(id) {
        StateView { docs: s.docs.insert(id, doc_with_rows(s.docs[id], s.docs[id].rows.remove(row))), ..s }
    } else {
        s
    }
}

/// The document part of an insert or update.
pub open spec fn with_document(s: StateView, r: RecordView, fields: FieldsView) -> Outcome {
    match r.doc_id {
        None => (s, None),
        Some(id) => {
            let bumped = StateView { next_doc: max_u64(s.next_doc, (id + 1) as u64), ..s };
            let (t, e) = with_doc_meta(bumped, id, r, fields);
            if e is Some { (t, e) } else { (with_chunk(t, id, r.row_id->0 as u32), None) }
        },
    }
}

/// What an insert or update record does.
pub open spec fn upserted(s: StateView, r: RecordView) -> Outcome {
    if r.row_id is None {
        malformed(s, "WAL insert/update record missing row_id"@)
    } else if r.key is None {
        malformed(s, "WAL insert/update record missing key"@)
    } else if r.payload is None {
        malformed(s, "WAL insert/update record missing payload"@)
    } else {
        match wal::image_vector(r.payload->0) {
            Err(e) => malformed(s, encoding::wal_error_text(e)),
            Ok(None) => malformed(s, "WAL insert/update record missing vector"@),
            Ok(Some(vector)) => {
                let id = r.row_id->0;
                let row = written_row(r, vector);
                let stored = with_row_stored(s, id, row);
                match payload::row_refusal(s.payload, row.fields) {
                    Some(e) => (stored, Some(StorageErrorView::Filter(e))),
                    None => with_document(
                        StateView { payload: payload::with_row(s.payload, id as u32, row.fields), ..stored },
                        r,
                        row.fields,
                    ),
                }
            },
        }
    }
}

/// What a delete record does: the row leaves the live set, the columns, the
/// key map and its document; its record stays.
pub open spec fn deleted(s: StateView, r: RecordView) -> Outcome {
    match r.row_id {
        None => malformed(s, "WAL delete record missing row_id"@),
        Some(id) => {
            let row = id as u32;
            let t = StateView {
                live: s.live.remove(row),
                payload: payload::without_row(s.payload, row),
                keys: if s.rows.contains_key(id) { s.keys.remove(s.rows[id].key) } else { s.keys },
                ..s
            };
            match r.doc_id {
                None => (t, None),
                Some(d) => (without_chunk(t, d, row), None),
            }
        },
    }
}

/// What a record does to the state. Collection-level operations change nothing.
pub open spec fn applied_one(s: StateView, r: RecordView) -> Outcome {
    match r.op {
        WalOp::Insert => upserted(s, r),
        WalOp::Update => upserted(s, r),
        WalOp::Delete => deleted(s, r),
        _ => (s, None),
    }
}

/// The state after the first `n` records of a transaction, the error of the
/// first that failed ending it.
pub open spec fn applied_records(s: StateView, group: Seq<RecordView>, n: nat) -> Outcome
    decreases n,
{
    if n == 0 {
        (s, None)
    } else {
        let (t, e) = applied_records(s, group, (n - 1) as nat);
        if e is Some {
            (t, e)
        } else {
            let (u, f) = applied_one(t, group[n - 1]);
            if f is Some {
                (u, f)
            } else {
                (StateView { applied: max_u64(u.applied, group[n - 1].lsn), ..u }, None)
            }
        }
    }
}

/// The documents that the records name.
pub open spec fn touched_docs(group: Seq<RecordView>) -> Set<u64> {
    Set::new(|d: u64| exists|i: int| 0 <= i < group.len() && (#[trigger] group[i]).doc_id == Some(d))
}

/// The rows that the records name.
pub open spec fn touched_rows(group: Seq<RecordView>) -> Set<u32> {
    Set::new(|r: u32| exists|i: int| 0 <= i < group.len() && (#[trigger] group[i]).row_id is Some && group[i].row_id->0 as u32 == r)
}

/// Whether document `d` was touched and has no chunks left.
pub open spec fn emptied(s: StateView, touched: Set<u64>, d: u64) -> bool {
    touched.contains(d) && s.docs.contains_key(d) && s.docs[d].rows == Set::<u32>::empty()
}

/// The registry without the touched documents that have no chunks left.
pub open spec fn without_emptied(s: StateView, touched: Set<u64>) -> StateView {
    StateView {
        docs: Map::new(|d: u64| s.docs.contains_key(d) && !emptied(s, touched, d), |d: u64| s.docs[d]),
        doc_keys: Map::new(
            |k: Seq<char>| s.doc_keys.contains_key(k) && !exists|d: u64| #[trigger] emptied(s, touched, d) && s.docs[d].doc_key == k,
            |k: Seq<char>| s.doc_keys[k],
        ),
        ..s
    }
}

/// Whether `s` lists the members of `docs` once each, ascending.
pub open spec fn lists_docs(s: Seq<u64>, docs: Set<u64>) -> bool {
    &&& forall|i: int, j: int| 0 <= i < j < s.len() ==> s[i] < s[j]
    &&& forall|d: u64| #[trigger] docs.contains(d) <==> s.contains(d)
}

/// The members of `docs`, ascending.
pub open spec fn ascending_docs(docs: Set<u64>) -> Seq<u64> {
    choose|s: Seq<u64>| lists_docs(s, docs)
}

/// The first position of a group's records.
pub open spec fn first_lsn(group: Seq<RecordView>, n: nat) -> u64
    decreases n,
{
    if n <= 1 {
        group[0].lsn
    } else {
        let m = first_lsn(group, (n - 1) as nat);
        if group[n - 1].lsn < m { group[n - 1].lsn } else { m }
    }
}

/// The last position of a group's records.
pub open spec fn last_lsn(group: Seq<RecordView>, n: nat) -> u64
    decreases n,
{
    if n <= 1 {
        group[0].lsn
    } else {
        max_u64(last_lsn(group, (n - 1) as nat), group[n - 1].lsn)
    }
}

/// The index entry of a transaction.
pub open spec fn txn_entry(group: Seq<RecordView>) -> EntryView {
    EntryView {
        txn_id: group[0].txn,
        session: group[0].session,
        principal: group[0].actor.id.0@,
        ts: group[0].ts,
        lsn_range: (first_lsn(group, group.len()), last_lsn(group, group.len())),
        coll: group[0].coll,
        op_summary: wal::txn_summary(group),
        affected: touched_rows(group),
        doc_ids: ascending_docs(touched_docs(group)),
        undone_by: None,
    }
}

/// The state with a transaction in its index; one that compensates another
/// marks that one as undone.
pub open spec fn with_txn(s: StateView, group: Seq<RecordView>) -> StateView {
    let ix = txn_index::recorded(s.txns, txn_entry(group));
    StateView {
        txns: match group[0].caused_by {
            Some(t) => txn_index::marked_undone(ix, t, group[0].txn),
            None => ix,
        },
        ..s
    }
}

/// What a transaction does: all its records, then the documents it emptied
/// leave the registry, then it enters the index.
pub open spec fn applied_group(s: StateView, group: Seq<RecordView>) -> Outcome {
    let (t, e) = applied_records(s, group, group.len());
    if e is Some {
        (t, e)
    } else {
        (with_txn(without_emptied(t, touched_docs(group)), group), None)
    }
}

/// Where the run of records with the transaction of record `from - 1` ends.
pub open spec fn run_end(records: Seq<RecordView>, from: nat) -> nat
    decreases records.len() - from,
{
    if from >= records.len() || from == 0 || records[from as int].txn != records[from - 1].txn {
        from
    } else {
        run_end(records, from + 1)
    }
}

/// A run of records ends within the list.
pub proof fn lemma_run_end(records: Seq<RecordView>, from: nat)
    ensures
        from <= records.len() ==> from <= run_end(records, from) <= records.len(),
        run_end(records, from) >= from,
    decreases records.len() - from,
{
    if from >= records.len() || from == 0 || records[from as int].txn != records[from - 1].txn {
    } else {
        lemma_run_end(records, from + 1);
    }
}

/// What a list of records does from `from` on: each run of one transaction as
/// a unit, the first error ending it.
pub open spec fn applied_from(s: StateView, records: Seq<RecordView>, from: nat) -> Outcome
    decreases records.len() - from,
{
    if from >= records.len() {
        (s, None)
    } else {
        proof { lemma_run_end(records, from + 1); }
        let to = run_end(records, from + 1);
        let (t, e) = applied_group(s, records.subrange(from as int, to as int));
        if e is Some { (t, e) } else { applied_from(t, records, to) }
    }
}

/// Whether a record's ids fit: its row in a bitmap, its document with room
/// for a next one.
pub open spec fn ids_fit(r: RecordView) -> bool {
    &&& r.row_id matches Some(id) ==> id <= u32::MAX
    &&& r.doc_id matches Some(d) ==> d < u64::MAX
}

/// Whether all records' ids fit.
pub open spec fn all_ids_fit(records: Seq<RecordView>) -> bool {
    forall|i: int| 0 <= i < records.len() ==> ids_fit(#[trigger] records[i])
}

/// Whether all records' ids fit, which applying them asks for.
pub fn ids_all_fit(records: &Vec<WalRecord>) -> (r: bool)
    ensures
        r == all_ids_fit(wal::record_views(records@)),
{
    let ghost views = wal::record_views(records@);
    let mut i: usize = 0;
    while i < records.len()
        invariant
            i <= records@.len(),
            views == wal::record_views(records@),
            forall|j: int| 0 <= j < i ==> ids_fit(#[trigger] views[j]),
        decreases records@.len() - i,
    {
        assert(views[i as int] == records@[i as int]@);
        let row_fits = match records[i].row_id {
            Some(id) => id.0 <= 0xffff_ffff,
            None => true,
        };
        let doc_fits = match records[i].doc_id {
            Some(d) => d.0 < u64::MAX,
            None => true,
        };
        if !row_fits || !doc_fits {
            assert(!ids_fit(views[i as int]));
            return false;
        }
        i += 1;
    }
    true
}

/// Whether a call's result says what the outcome does.
pub open spec fn result_is(r: StorageResult<()>, e: Option<StorageErrorView>) -> bool {
    match r {
        Ok(_) => e is None,
        Err(x) => e == Some(x@),
    }
}

fn invalid(message: &str) -> (r: StorageError)
    ensures
        r@ == StorageErrorView::InvalidArgument(message@),
{
    StorageError::InvalidArgument(message.to_owned())
}

fn apply_doc_meta(inner: &mut CollectionInner, doc_id: DocId, record: &WalRecord, doc_payload: &PayloadRow) -> (r: StorageResult<()>)
    requires
        old(inner).wf(),
    ensures
        final(inner).wf(),
        final(inner)@ == with_doc_meta(old(inner)@, doc_id.0, record@, doc_payload@).0,
        result_is(r, with_doc_meta(old(inner)@, doc_id.0, record@, doc_payload@).1),
{
    let meta = match &record.params {
        None => { return Ok(()); },
        Some(m) => m.clone(),
    };
    let doc_key = match &record.doc_key {
        None => { return Err(invalid("WAL doc-chunk record missing doc_key")); },
        Some(k) => k.clone(),
    };
    let entry = match inner.docs.remove(&doc_id.0) {
        Some(old_entry) => DocEntry {
            version: meta.version,
            source: meta.source,
            chunk_spec: meta.chunk_spec,
            chunker_version: meta.chunker_version,
            embedding_model: meta.embedding_model,
            updated_txn: record.txn,
            doc_payload: doc_payload.clone(),
            ..old_entry
        },
        None => DocEntry {
            doc_id,
            doc_key: doc_key.clone(),
            version: meta.version,
            rows: bitmap_new(),
            chunk_count: 0,
            source: meta.source,
            chunk_spec: meta.chunk_spec,
            chunker_version: meta.chunker_version,
            embedding_model: meta.embedding_model,
            created_txn: record.txn,
            updated_txn: record.txn,
            doc_payload: doc_payload.clone(),
        },
    };
    let ghost before = inner.docs@;
    inner.docs.insert(doc_id.0, entry);
    inner.doc_key_to_id.insert(doc_key, doc_id.0);
    proof {
        let want = with_doc_meta(old(inner)@, doc_id.0, record@, doc_payload@).0;
        assert(inner@.docs =~= want.docs);
    }
    Ok(())
}

fn add_chunk(inner: &mut CollectionInner, doc_id: DocId, row: u32)
    requires
        old(inner).wf(),
    ensures
        final(inner).wf(),
        final(inner)@ == with_chunk(old(inner)@, doc_id.0, row),
{
    match inner.docs.remove(&doc_id.0) {
        Some(e) => {
            let mut entry = e;
            bitmap_insert(&mut entry.rows, row);
            entry.chunk_count = bitmap_len(&entry.rows) as u32;
            inner.docs.insert(doc_id.0, entry);
            assert(inner@.docs =~= with_chunk(old(inner)@, doc_id.0, row).docs);
        },
        None => {
            assert(inner.docs@ =~= old(inner).docs@);
        },
    }
}

fn drop_chunk(inner: &mut CollectionInner, doc_id: DocId, row: u32)
    requires
        old(inner).wf(),
    ensures
        final(inner).wf(),
        final(inner)@ == without_chunk(old(inner)@, doc_id.0, row),
{
    match inner.docs.remove(&doc_id.0) {
        Some(e) => {
            let mut entry = e;
            bitmap_remove(&mut entry.rows, row);
            entry.chunk_count = bitmap_len(&entry.rows) as u32;
            inner.docs.insert(doc_id.0, entry);
            assert(inner@.docs =~= without_chunk(old(inner)@, doc_id.0, row).docs);
        },
        None => {
            assert(inner.docs@ =~= old(inner).docs@);
        },
    }
}

fn store_row(inner: &mut CollectionInner, row_id: RowId, row: RowRecord)
    requires
        old(inner).wf(),
        row_id.0 <= u32::MAX,
    ensures
        final(inner).wf(),
        final(inner)@ == with_row_stored(old(inner)@, row_id.0, row@),
{
    if inner.next_row_id < row_id.0 + 1 {
        inner.next_row_id = row_id.0 + 1;
    }
    inner.key_to_row.insert(row.key.clone(), row_id.0);
    bitmap_insert(&mut inner.live, row_id.to_bitmap_index());
    let ghost view = row@;
    inner.rows.insert(row_id.0, row);
    assert(inner@.rows =~= old(inner)@.rows.insert(row_id.0, view));
}

fn apply_upsert(inner: &mut CollectionInner, record: &WalRecord) -> (r: StorageResult<()>)
    requires
        old(inner).wf(),
        ids_fit(record@),
    ensures
        final(inner).wf(),
        final(inner)@ == upserted(old(inner)@, record@).0,
        result_is(r, upserted(old(inner)@, record@).1),
{
    let row_id = match record.row_id {
        None => { return Err(invalid("WAL insert/update record missing row_id")); },
        Some(id) => id,
    };
    let key = match &record.key {
        None => { return Err(invalid("WAL insert/update record missing key")); },
        Some(k) => k.clone(),
    };
    let image = match &record.payload {
        None => { return Err(invalid("WAL insert/update record missing payload")); },
        Some(p) => p,
    };
    let vector = match image.vector() {
        Err(e) => { return Err(StorageError::InvalidArgument(e.to_text())); },
        Ok(None) => { return Err(invalid("WAL insert/update record missing vector")); },
        Ok(Some(v)) => v,
    };
    let fields = match &image.fields {
        Some(f) => f.clone(),
        None => PayloadRow::new(),
    };
    assert(fields@ == image_fields(image@));
    let row = RowRecord {
        key,
        vector,
        fields: fields.clone(),
        extra: copy_opt(&image.extra),
        text: copy_opt(&image.text),
        doc_id: record.doc_id,
        chunk_ord: record.chunk_ord,
    };
    assert(row@ == written_row(record@, vector@));
    let ghost view = row@;
    store_row(inner, row_id, row);
    let ghost stored = inner@;
    match inner.payload.set_row(row_id, &fields) {
        Ok(_) => {},
        Err(e) => { return Err(StorageError::Filter(e)); },
    }
    let ghost indexed = inner@;
    match record.doc_id {
        None => {},
        Some(doc_id) => {
            if inner.next_doc_id < doc_id.0 + 1 {
                inner.next_doc_id = doc_id.0 + 1;
            }
            match apply_doc_meta(inner, doc_id, record, &fields) {
                Ok(_) => {},
                Err(e) => { return Err(e); },
            }
            add_chunk(inner, doc_id, row_id.to_bitmap_index());
        },
    }
    Ok(())
}

fn apply_delete(inner: &mut CollectionInner, record: &WalRecord) -> (r: StorageResult<()>)
    requires
        old(inner).wf(),
        ids_fit(record@),
    ensures
        final(inner).wf(),
        final(inner)@ == deleted(old(inner)@, record@).0,
        result_is(r, deleted(old(inner)@, record@).1),
{
    let row_id = match record.row_id {
        None => { return Err(invalid("WAL delete record missing row_id")); },
        Some(id) => id,
    };
    let row = row_id.to_bitmap_index();
    bitmap_remove(&mut inner.live, row);
    inner.payload.clear_row(row_id);
    match inner.rows.get(&row_id.0) {
        Some(rec) => { inner.key_to_row.remove(rec.key.as_str()); },
        None => {},
    }
    match record.doc_id {
        None => {},
        Some(doc_id) => { drop_chunk(inner, doc_id, row); },
    }
    Ok(())
}

fn apply_single_record(inner: &mut CollectionInner, record: &WalRecord) -> (r: StorageResult<()>)
    requires
        old(inner).wf(),
        ids_fit(record@),
    ensures
        final(inner).wf(),
        final(inner)@ == applied_one(old(inner)@, record@).0,
        result_is(r, applied_one(old(inner)@, record@).1),
{
    match record.op {
        WalOp::Insert => apply_upsert(inner, record),
        WalOp::Update => apply_upsert(inner, record),
        WalOp::Delete => apply_delete(inner, record),
        _ => Ok(()),
    }
}

proof fn lemma_docs_listing_unique(a: Seq<u64>, b: Seq<u64>, docs: Set<u64>)
    requires
        lists_docs(a, docs),
        lists_docs(b, docs),
    ensures
        a == b,
    decreases a.len(),
{
    if a.len() == 0 {
        if b.len() > 0 {
            assert(b.contains(b[0]));
            assert(docs.contains(b[0]));
            assert(a.contains(b[0]));
        }
        assert(a =~= b);
    } else {
        assert(a.contains(a.last()));
        assert(docs.contains(a.last()));
        assert(b.contains(a.last()));
        assert(b.contains(b.last()));
        assert(docs.contains(b.last()));
        assert(a.contains(b.last()));
        assert(a.last() == b.last());
        lemma_docs_drop_last(a, docs);
        lemma_docs_drop_last(b, docs);
        lemma_docs_listing_unique(a.drop_last(), b.drop_last(), docs.remove(a.last()));
        assert(a =~= a.drop_last().push(a.last()));
        assert(b =~= b.drop_last().push(b.last()));
    }
}

proof fn lemma_docs_drop_last(a: Seq<u64>, docs: Set<u64>)
    requires
        lists_docs(a, docs),
        a.len() > 0,
    ensures
        lists_docs(a.drop_last(), docs.remove(a.last())),
{
    let rest = docs.remove(a.last());
    let d = a.drop_last();
    assert forall|v: u64| #[trigger] rest.contains(v) <==> d.contains(v) by {
        if rest.contains(v) {
            assert(docs.contains(v));
            let i = choose|i: int| 0 <= i < a.len() && a[i] == v;
            assert(d[i] == v);
        }
        if d.contains(v) {
            let i = choose|i: int| 0 <= i < d.len() && d[i] == v;
            assert(a[i] == v);
            assert(a.contains(v));
            assert(docs.contains(v));
            assert(a[i] < a[a.len() - 1]);
        }
    }
}

/// Adds a document to an ascending list without duplicates.
fn note_doc(list: &mut Vec<DocId>, doc_id: DocId, Ghost(docs): Ghost<Set<u64>>)
    requires
        lists_docs(txn_index::doc_numbers(old(list)@), docs),
    ensures
        lists_docs(txn_index::doc_numbers(final(list)@), docs.insert(doc_id.0)),
{
    let ghost s = txn_index::doc_numbers(list@);
    let mut at: usize = list.len();
    while at > 0 && list[at - 1].0 > doc_id.0
        invariant
            at <= list@.len(),
            s == txn_index::doc_numbers(list@),
            lists_docs(s, docs),
            forall|k: int| at <= k < s.len() ==> #[trigger] s[k] > doc_id.0,
        decreases at,
    {
        assert(s[at - 1] == list@[at - 1].0);
        at -= 1;
    }
    if at > 0 && list[at - 1].0 == doc_id.0 {
        assert(s[at - 1] == doc_id.0);
        assert(s.contains(doc_id.0));
        assert(docs.insert(doc_id.0) =~= docs);
        return;
    }
    list.insert(at, doc_id);
    proof {
        let t = txn_index::doc_numbers(list@);
        assert(t =~= s.insert(at as int, doc_id.0));
        if at > 0 {
            assert(s[at - 1] < doc_id.0);
        }
        assert forall|i: int, j: int| 0 <= i < j < t.len() implies t[i] < t[j] by {
            let a = if i < at { i } else { i - 1 };
            let b = if j < at { j } else { j - 1 };
            if i == at {
                assert(s[b] > doc_id.0);
            } else if j == at {
                if a < at - 1 {
                    assert(s[a] < s[at - 1]);
                }
            } else {
                assert(s[a] < s[b]);
            }
        }
        assert forall|d: u64| #[trigger] docs.insert(doc_id.0).contains(d) <==> t.contains(d) by {
            if t.contains(d) {
                let i = choose|i: int| 0 <= i < t.len() && t[i] == d;
                if i != at {
                    let a = if i < at { i } else { i - 1 };
                    assert(s[a] == d);
                    assert(s.contains(d));
                }
            }
            if docs.contains(d) {
                assert(s.contains(d));
                let a = choose|a: int| 0 <= a < s.len() && s[a] == d;
                let i = if a < at { a } else { a + 1 };
                assert(t[i] == d);
            }
            if d == doc_id.0 {
                assert(t[at as int] == d);
            }
        }
    }
}

proof fn lemma_touched_step(group: Seq<RecordView>, k: int)
    requires
        0 <= k < group.len(),
    ensures
        touched_docs(group.take(k + 1)) == (match group[k].doc_id {
            Some(d) => touched_docs(group.take(k)).insert(d),
            None => touched_docs(group.take(k)),
        }),
        touched_rows(group.take(k + 1)) == (match group[k].row_id {
            Some(r) => touched_rows(group.take(k)).insert(r as u32),
            None => touched_rows(group.take(k)),
        }),
{
    let t = group.take(k + 1);
    let p = group.take(k);
    assert(t =~= p.push(group[k]));
    let docs = match group[k].doc_id {
        Some(d) => touched_docs(p).insert(d),
        None => touched_docs(p),
    };
    assert forall|d: u64| touched_docs(t).contains(d) <==> docs.contains(d) by {
        if touched_docs(t).contains(d) {
            let i = choose|i: int| 0 <= i < t.len() && (#[trigger] t[i]).doc_id == Some(d);
            if i < k {
                assert(p[i].doc_id == Some(d));
            }
        }
        if touched_docs(p).contains(d) {
            let i = choose|i: int| 0 <= i < p.len() && (#[trigger] p[i]).doc_id == Some(d);
            assert(t[i].doc_id == Some(d));
        }
        if group[k].doc_id == Some(d) {
            assert(t[k].doc_id == Some(d));
        }
    }
    assert(touched_docs(t) =~= docs);
    let rows = match group[k].row_id {
        Some(r) => touched_rows(p).insert(r as u32),
        None => touched_rows(p),
    };
    assert forall|r: u32| touched_rows(t).contains(r) <==> rows.contains(r) by {
        if touched_rows(t).contains(r) {
            let i = choose|i: int| 0 <= i < t.len() && (#[trigger] t[i]).row_id is Some && t[i].row_id->0 as u32 == r;
            if i < k {
                assert(p[i].row_id is Some && p[i].row_id->0 as u32 == r);
            }
        }
        if touched_rows(p).contains(r) {
            let i = choose|i: int| 0 <= i < p.len() && (#[trigger] p[i]).row_id is Some && p[i].row_id->0 as u32 == r;
            assert(t[i].row_id is Some && t[i].row_id->0 as u32 == r);
        }
        if group[k].row_id is Some && group[k].row_id->0 as u32 == r {
            assert(t[k].row_id is Some);
        }
    }
    assert(touched_rows(t) =~= rows);
}

proof fn lemma_records_error(s: StateView, group: Seq<RecordView>, k: nat, n: nat)
    requires
        k <= n,
        applied_records(s, group, k).1 is Some,
    ensures
        applied_records(s, group, n) == applied_records(s, group, k),
    decreases n - k,
{
    if k < n {
        lemma_records_error(s, group, k, (n - 1) as nat);
    }
}

/// Drops the documents in `list` that have no chunks left.
fn drop_emptied(inner: &mut CollectionInner, list: &Vec<DocId>, Ghost(touched): Ghost<Set<u64>>)
    requires
        old(inner).wf(),
        lists_docs(txn_index::doc_numbers(list@), touched),
    ensures
        final(inner).wf(),
        final(inner)@ == without_emptied(old(inner)@, touched),
{
    let ghost s = txn_index::doc_numbers(list@);
    let ghost start = inner@;
    let mut i: usize = 0;
    proof {
        assert(without_emptied(start, s.take(0).to_set()).docs =~= start.docs);
        assert(without_emptied(start, s.take(0).to_set()).doc_keys =~= start.doc_keys);
    }
    while i < list.len()
        invariant
            i <= list@.len(),
            s == txn_index::doc_numbers(list@),
            lists_docs(s, touched),
            inner.wf(),
            inner@ == without_emptied(start, s.take(i as int).to_set()),
        decreases list@.len() - i,
    {
        let d = list[i].0;
        let ghost before = inner@;
        let ghost prev = s.take(i as int).to_set();
        let ghost next = s.take(i + 1).to_set();
        proof {
            assert(s[i as int] == d);
            assert(s.take(i + 1) =~= s.take(i as int).push(d));
            assert forall|x: u64| next.contains(x) <==> prev.contains(x) || x == d by {
                if s.take(i as int).contains(x) {
                    let k = choose|k: int| 0 <= k < s.take(i as int).len() && s.take(i as int)[k] == x;
                    assert(s.take(i + 1)[k] == x);
                }
                if x == d {
                    assert(s.take(i + 1)[i as int] == x);
                }
            }
            if prev.contains(d) {
                let k = choose|k: int| 0 <= k < s.take(i as int).len() && s.take(i as int)[k] == d;
                assert(s[k] < s[i as int]);
            }
            assert(!prev.contains(d));
            assert(before.docs.contains_key(d) == start.docs.contains_key(d));
            if start.docs.contains_key(d) {
                assert(before.docs[d] == start.docs[d]);
                assert(inner.docs@[d]@ == before.docs[d]);
            }
        }
        let gone = match inner.docs.get(&d) {
            Some(entry) => bitmap_is_empty(&entry.rows),
            None => false,
        };
        assert(gone == emptied(start, next, d));
        if gone {
            match inner.docs.remove(&d) {
                Some(entry) => {
                    inner.doc_key_to_id.remove(entry.doc_key.as_str());
                    assert(entry@ == start.docs[d]);
                },
                None => {},
            }
        }
        proof {
            let want = without_emptied(start, next);
            assert(inner@.docs =~= if gone { before.docs.remove(d) } else { before.docs });
            assert forall|x: u64| #[trigger] emptied(start, next, x) <==> emptied(start, prev, x) || (x == d && gone) by {}
            assert(inner@.docs =~= want.docs) by {
                assert forall|x: u64| inner@.docs.contains_key(x) == want.docs.contains_key(x) by {
                    assert(emptied(start, next, x) <==> emptied(start, prev, x) || (x == d && gone));
                    assert(before.docs.contains_key(x) <==> start.docs.contains_key(x) && !emptied(start, prev, x));
                }
            }
            assert(inner@.doc_keys =~= want.doc_keys) by {
                assert forall|k: Seq<char>| inner@.doc_keys.contains_key(k) == want.doc_keys.contains_key(k) by {
                    if exists|x: u64| #[trigger] emptied(start, next, x) && start.docs[x].doc_key == k {
                        let x = choose|x: u64| #[trigger] emptied(start, next, x) && start.docs[x].doc_key == k;
                        assert(emptied(start, prev, x) || (x == d && gone));
                    }
                    if exists|x: u64| #[trigger] emptied(start, prev, x) && start.docs[x].doc_key == k {
                        let x = choose|x: u64| #[trigger] emptied(start, prev, x) && start.docs[x].doc_key == k;
                        assert(emptied(start, next, x));
                    }
                    if gone && start.docs[d].doc_key == k {
                        assert(emptied(start, next, d));
                    }
                }
            }
        }
        i += 1;
    }
    proof {
        assert(s.take(i as int) =~= s);
        assert(s.to_set() =~= touched) by {
            assert forall|x: u64| s.to_set().contains(x) <==> touched.contains(x) by {
                assert(touched.contains(x) <==> s.contains(x));
            }
        }
    }
}

/// Applies one transaction's records and enters it in the index.
pub fn apply_txn_group(inner: &mut CollectionInner, group: &[WalRecord]) -> (r: StorageResult<()>)
    requires
        old(inner).wf(),
        group@.len() > 0,
        all_ids_fit(wal::record_views(group@)),
    ensures
        final(inner).wf(),
        final(inner)@ == applied_group(old(inner)@, wal::record_views(group@)).0,
        result_is(r, applied_group(old(inner)@, wal::record_views(group@)).1),
{
    let ghost views = wal::record_views(group@);
    let ghost start = inner@;
    let mut touched: Vec<DocId> = Vec::new();
    let mut affected = bitmap_new();
    let mut lo = group[0].lsn;
    let mut hi = group[0].lsn;
    let mut i: usize = 0;
    proof {
        assert(views[0] == group@[0]@);
        assert(touched_docs(views.take(0)) =~= Set::empty());
        assert(touched_rows(views.take(0)) =~= Set::empty());
        assert(txn_index::doc_numbers(touched@) =~= Seq::<u64>::empty());
        assert(lists_docs(txn_index::doc_numbers(touched@), touched_docs(views.take(0))));
    }
    while i < group.len()
        invariant
            i <= group@.len(),
            group@.len() > 0,
            views == wal::record_views(group@),
            all_ids_fit(views),
            inner.wf(),
            start == old(inner)@,
            applied_records(start, views, i as nat) == (inner@, None::<StorageErrorView>),
            lists_docs(txn_index::doc_numbers(touched@), touched_docs(views.take(i as int))),
            bitmap::rows_of(affected) == touched_rows(views.take(i as int)),
            lo.0 == first_lsn(views, i as nat),
            hi.0 == last_lsn(views, i as nat),
            views[0] == group@[0]@,
        decreases group@.len() - i,
    {
        let record = &group[i];
        proof {
            assert(views[i as int] == record@);
            assert(ids_fit(views[i as int]));
            lemma_touched_step(views, i as int);
        }
        match apply_single_record(inner, record) {
            Ok(_) => {},
            Err(e) => {
                proof { lemma_records_error(start, views, (i + 1) as nat, views.len()); }
                return Err(e);
            },
        }
        match record.doc_id {
            Some(d) => { note_doc(&mut touched, d, Ghost(touched_docs(views.take(i as int)))); },
            None => {},
        }
        match record.row_id {
            Some(r) => { bitmap_insert(&mut affected, r.to_bitmap_index()); },
            None => {},
        }
        if inner.last_applied_lsn.0 < record.lsn.0 {
            inner.last_applied_lsn = record.lsn;
        }
        if record.lsn.0 < lo.0 {
            lo = record.lsn;
        }
        if record.lsn.0 > hi.0 {
            hi = record.lsn;
        }
        i += 1;
    }
    assert(views.take(i as int) =~= views);
    drop_emptied(inner, &touched, Ghost(touched_docs(views)));
    let entry = TxnEntry {
        txn_id: group[0].txn,
        session: SessionId(group[0].session.0.clone()),
        principal: PrincipalId(group[0].actor.id.0.clone()),
        ts: group[0].ts,
        lsn_range: (lo, hi),
        coll: group[0].coll.clone(),
        op_summary: summarize_txn(group),
        affected_rows: affected,
        doc_ids: touched,
        undone_by: None,
    };
    proof {
        lemma_docs_listing_unique(txn_index::doc_numbers(touched@), ascending_docs(touched_docs(views)), touched_docs(views));
        assert(entry@ == txn_entry(views));
    }
    inner.txn_index.record(entry);
    match group[0].caused_by {
        Some(t) => { inner.txn_index.mark_undone(t, group[0].txn); },
        None => {},
    }
    Ok(())
}

/// Applies a list of records, transaction by transaction.
pub fn apply_replayed_records(inner: &mut CollectionInner, records: &[WalRecord]) -> (r: StorageResult<()>)
    requires
        old(inner).wf(),
        all_ids_fit(wal::record_views(records@)),
    ensures
        final(inner).wf(),
        final(inner)@ == applied_from(old(inner)@, wal::record_views(records@), 0).0,
        result_is(r, applied_from(old(inner)@, wal::record_views(records@), 0).1),
{
    let ghost views = wal::record_views(records@);
    let ghost start = inner@;
    let mut i: usize = 0;
    while i < records.len()
        invariant
            i <= records@.len(),
            views == wal::record_views(records@),
            all_ids_fit(views),
            inner.wf(),
            start == old(inner)@,
            applied_from(start, views, 0) == applied_from(inner@, views, i as nat),
        decreases records@.len() - i,
    {
        let mut j: usize = i + 1;
        while j < records.len() && records[j].txn == records[i].txn
            invariant
                i < j <= records@.len(),
                views == wal::record_views(records@),
                run_end(views, (i + 1) as nat) == run_end(views, j as nat),
                records@[j - 1].txn == records@[i as int].txn,
            decreases records@.len() - j,
        {
            proof {
                assert(views[j as int] == records@[j as int]@);
                assert(views[j - 1] == records@[j - 1]@);
            }
            j += 1;
        }
        proof {
            if j < records@.len() {
                assert(views[j as int] == records@[j as int]@);
                assert(views[j - 1] == records@[j - 1]@);
            }
            assert(run_end(views, j as nat) == j);
        }
        let group = slice_subrange(records, i, j);
        let ghost gv = wal::record_views(group@);
        proof {
            assert(gv =~= views.subrange(i as int, j as int));
            assert forall|k: int| 0 <= k < gv.len() implies ids_fit(#[trigger] gv[k]) by {
                assert(gv[k] == views[i + k]);
            }
        }
        match apply_txn_group(inner, group) {
            Ok(_) => {},
            Err(e) => { return Err(e); },
        }
        i = j;
    }
    Ok(())
}

/// What subscribers are told of a record, if anything.
pub open spec fn event_of(r: RecordView) -> Option<EventView> {
    if r.row_id is None {
        None
    } else if r.op == WalOp::Delete {
        Some(EventView::Delete {
            row_id: r.row_id->0,
            doc_id: r.doc_id,
            text: match r.undo {
                Some(u) => u.text,
                None => None,
            },
        })
    } else if r.op == WalOp::Insert || r.op == WalOp::Update {
        if r.payload is None || r.key is None {
            None
        } else {
            match wal::image_vector(r.payload->0) {
                Ok(Some(vector)) => {
                    let w = WrittenView {
                        row_id: r.row_id->0,
                        key: r.key->0,
                        vector,
                        fields: image_fields(r.payload->0),
                        extra: r.payload->0.extra,
                        doc_id: r.doc_id,
                        text: r.payload->0.text,
                    };
                    if r.op == WalOp::Insert { Some(EventView::Insert(w)) } else { Some(EventView::Update(w)) }
                },
                _ => None,
            }
        }
    } else {
        None
    }
}

/// What subscribers are told of the first `n` records.
pub open spec fn events_of(records: Seq<RecordView>, n: nat) -> Seq<EventView>
    decreases n,
{
    if n == 0 {
        Seq::empty()
    } else {
        match event_of(records[n - 1]) {
            Some(e) => events_of(records, (n - 1) as nat).push(e),
            None => events_of(records, (n - 1) as nat),
        }
    }
}

fn change_event(record: &WalRecord) -> (r: Option<ChangeEvent>)
    ensures
        r matches Some(e) ==> event_of(record@) == Some(e@),
        r is None ==> event_of(record@) is None,
{
    let row_id = match record.row_id {
        Some(id) => id,
        None => { return None; },
    };
    if record.op == WalOp::Delete {
        let text = match &record.undo {
            Some(u) => copy_opt(&u.text),
            None => None,
        };
        return Some(ChangeEvent::Delete { row_id, doc_id: record.doc_id, text });
    }
    if record.op != WalOp::Insert && record.op != WalOp::Update {
        return None;
    }
    let image = match &record.payload {
        Some(p) => p,
        None => { return None; },
    };
    let key = match &record.key {
        Some(k) => k.clone(),
        None => { return None; },
    };
    let vector = match image.vector() {
        Ok(Some(v)) => v,
        _ => { return None; },
    };
    let fields = match &image.fields {
        Some(f) => f.clone(),
        None => PayloadRow::new(),
    };
    let extra = copy_opt(&image.extra);
    let text = copy_opt(&image.text);
    let doc_id = record.doc_id;
    if record.op == WalOp::Insert {
        Some(ChangeEvent::Insert { row_id, key, vector, fields, extra, doc_id, text })
    } else {
        Some(ChangeEvent::Update { row_id, key, vector, fields, extra, doc_id, text })
    }
}

/// The change events of a batch of records: what was applied and what
/// subscribers are told come from the same records.
pub fn change_events_from_records(records: &[WalRecord]) -> (r: Vec<ChangeEvent>)
    ensures
        change::event_views(r@) == events_of(wal::record_views(records@), records@.len()),
{
    let ghost views = wal::record_views(records@);
    let mut out: Vec<ChangeEvent> = Vec::new();
    let mut i: usize = 0;
    assert(change::event_views(out@) =~= Seq::<EventView>::empty());
    while i < records.len()
        invariant
            i <= records@.len(),
            views == wal::record_views(records@),
            change::event_views(out@) == events_of(views, i as nat),
        decreases records@.len() - i,
    {
        assert(views[i as int] == records@[i as int]@);
        let ghost was = out@;
        match change_event(&records[i]) {
            Some(e) => {
                let ghost ev = e@;
                out.push(e);
                assert(change::event_views(out@) =~= change::event_views(was).push(ev));
            },
            None => {},
        }
        i += 1;
    }
    out
}

/// Whether a record has all that its operation needs and fits the schema.
pub open spec fn clean(s: payload::StoreView, r: RecordView) -> bool {
    match r.op {
        WalOp::Delete => r.row_id is Some,
        WalOp::Insert => clean_write(s, r),
        WalOp::Update => clean_write(s, r),
        _ => true,
    }
}

/// Whether an insert or update has all that it needs and fits the schema.
pub open spec fn clean_write(s: payload::StoreView, r: RecordView) -> bool {
    &&& r.row_id is Some
    &&& r.key is Some
    &&& r.payload is Some
    &&& wal::image_vector(r.payload->0) matches Ok(Some(_))
    &&& payload::row_refusal(s, image_fields(r.payload->0)) is None
    &&& r.doc_id is Some && r.params is Some ==> r.doc_key is Some
}

/// Every part of a clean transaction applies.
pub proof fn lemma_clean_prefix(s: StateView, group: Seq<RecordView>, n: nat)
    requires
        n <= group.len(),
        forall|i: int| 0 <= i < group.len() ==> clean(s.payload, #[trigger] group[i]),
    ensures
        applied_records(s, group, n).1 is None,
        applied_records(s, group, n).0.payload.schema == s.payload.schema,
        applied_records(s, group, n).0.payload.strict == s.payload.strict,
    decreases n,
{
    if n > 0 {
        lemma_clean_prefix(s, group, (n - 1) as nat);
        assert(clean(s.payload, group[n - 1]));
        let t = applied_records(s, group, (n - 1) as nat).0;
        let fields = image_fields(group[n - 1].payload->0);
        assert(payload::row_refusal(t.payload, fields) is None <==> payload::row_refusal(s.payload, fields) is None);
    }
}

proof fn lemma_whole_run(records: Seq<RecordView>, from: nat)
    requires
        0 < from <= records.len(),
        forall|i: int, j: int| 0 <= i < records.len() && 0 <= j < records.len() ==> (#[trigger] records[i]).txn == (#[trigger] records[j]).txn,
    ensures
        run_end(records, from) == records.len(),
    decreases records.len() - from,
{
    if from < records.len() {
        lemma_whole_run(records, from + 1);
    }
}

/// The records of one transaction are applied as one unit.
pub proof fn one_transaction_is_one_unit(s: StateView, records: Seq<RecordView>)
    requires
        records.len() > 0,
        forall|i: int, j: int| 0 <= i < records.len() && 0 <= j < records.len() ==> (#[trigger] records[i]).txn == (#[trigger] records[j]).txn,
    ensures
        applied_from(s, records, 0) == applied_group(s, records),
{
    lemma_whole_run(records, 1);
    assert(records.subrange(0, records.len() as int) =~= records);
    let t = applied_group(s, records).0;
    assert(applied_from(t, records, records.len()) == (t, None::<StorageErrorView>));
}

/// A transaction whose records are well formed and fit the schema always
/// applies.
pub proof fn clean_transaction_applies(s: StateView, records: Seq<RecordView>)
    requires
        forall|i: int, j: int| 0 <= i < records.len() && 0 <= j < records.len() ==> (#[trigger] records[i]).txn == (#[trigger] records[j]).txn,
        forall|i: int| 0 <= i < records.len() ==> clean(s.payload, #[trigger] records[i]),
    ensures
        applied_from(s, records, 0).1 is None,
        records.len() > 0 ==> applied_from(s, records, 0) == applied_group(s, records),
{
    if records.len() > 0 {
        one_transaction_is_one_unit(s, records);
        lemma_clean_prefix(s, records, records.len());
    }
}

proof fn lemma_run_in_first_part(a: Seq<RecordView>, b: Seq<RecordView>, from: nat)
    requires
        0 < from <= a.len(),
        b.len() > 0 ==> a.last().txn != b[0].txn,
    ensures
        run_end(a + b, from) == run_end(a, from),
    decreases a.len() - from,
{
    if from < a.len() {
        assert((a + b)[from as int] == a[from as int]);
        assert((a + b)[from - 1] == a[from - 1]);
        lemma_run_in_first_part(a, b, from + 1);
    } else if b.len() > 0 {
        assert((a + b)[from as int] == b[0]);
        assert((a + b)[from - 1] == a.last());
    }
}

proof fn lemma_run_in_second_part(a: Seq<RecordView>, b: Seq<RecordView>, from: nat)
    requires
        0 < from,
    ensures
        run_end(a + b, (a.len() + from) as nat) == a.len() + run_end(b, from),
    decreases b.len() - from,
{
    if from < b.len() {
        assert((a + b)[(a.len() + from) as int] == b[from as int]);
        assert((a + b)[a.len() + from - 1] == b[from - 1]);
        lemma_run_in_second_part(a, b, from + 1);
        assert(a.len() + from + 1 == a.len() + (from + 1));
    }
}

proof fn lemma_second_part(s: StateView, a: Seq<RecordView>, b: Seq<RecordView>, from: nat)
    ensures
        applied_from(s, a + b, (a.len() + from) as nat) == applied_from(s, b, from),
    decreases b.len() - from,
{
    if from < b.len() {
        lemma_run_end(b, from + 1);
        lemma_run_in_second_part(a, b, from + 1);
        let to = run_end(b, from + 1);
        assert(run_end(a + b, (a.len() + from + 1) as nat) == a.len() + to);
        assert((a + b).subrange((a.len() + from) as int, (a.len() + to) as int) =~= b.subrange(from as int, to as int));
        let (t, e) = applied_group(s, b.subrange(from as int, to as int));
        if e is None {
            lemma_second_part(t, a, b, to);
        }
    }
}

proof fn lemma_in_parts(s: StateView, a: Seq<RecordView>, b: Seq<RecordView>, from: nat)
    requires
        from <= a.len(),
        a.len() > 0 && b.len() > 0 ==> a.last().txn != b[0].txn,
    ensures
        applied_from(s, a + b, from) == ({
            let (t, e) = applied_from(s, a, from);
            if e is Some { (t, e) } else { applied_from(t, b, 0) }
        }),
    decreases a.len() - from,
{
    if from < a.len() {
        lemma_run_end(a, from + 1);
        lemma_run_in_first_part(a, b, from + 1);
        let to = run_end(a, from + 1);
        assert((a + b).subrange(from as int, to as int) =~= a.subrange(from as int, to as int));
        let (t, e) = applied_group(s, a.subrange(from as int, to as int));
        if e is None {
            lemma_in_parts(t, a, b, to);
        }
    } else {
        lemma_second_part(s, a, b, 0);
    }
}

/// Applying a log at once, as a restart or a follower does, gives the state
/// that applying it part by part gave, as long as no transaction is split
/// between the parts.
pub proof fn replaying_equals_having_applied(s: StateView, earlier: Seq<RecordView>, later: Seq<RecordView>)
    requires
        earlier.len() > 0 && later.len() > 0 ==> earlier.last().txn != later[0].txn,
        applied_from(s, earlier, 0).1 is None,
    ensures
        applied_from(s, earlier + later, 0) == applied_from(applied_from(s, earlier, 0).0, later, 0),
{
    lemma_in_parts(s, earlier, later, 0);
}

proof fn lemma_insert_doc(s: Seq<u64>, docs: Set<u64>, d: u64)
    requires
        lists_docs(s, docs),
    ensures
        exists|t: Seq<u64>| lists_docs(t, docs.insert(d)),
    decreases s.len(),
{
    if docs.contains(d) {
        assert(docs.insert(d) =~= docs);
    } else if s.len() == 0 || s.last() < d {
        let t = s.push(d);
        assert forall|x: u64| #[trigger] docs.insert(d).contains(x) <==> t.contains(x) by {
            if docs.contains(x) {
                assert(s.contains(x));
                let i = choose|i: int| 0 <= i < s.len() && s[i] == x;
                assert(t[i] == x);
            }
            if x == d {
                assert(t[s.len() as int] == d);
            }
            if t.contains(x) {
                let i = choose|i: int| 0 <= i < t.len() && t[i] == x;
                if i < s.len() {
                    assert(s.contains(x));
                }
            }
        }
        assert(lists_docs(t, docs.insert(d)));
    } else {
        let last = s.last();
        let front = s.drop_last();
        let fewer = docs.remove(last);
        assert(s.contains(last) && docs.contains(last));
        assert(lists_docs(front, fewer)) by {
            assert forall|x: u64| #[trigger] fewer.contains(x) <==> front.contains(x) by {
                if fewer.contains(x) {
                    assert(s.contains(x));
                    let i = choose|i: int| 0 <= i < s.len() && s[i] == x;
                    assert(front[i] == x);
                }
                if front.contains(x) {
                    let i = choose|i: int| 0 <= i < front.len() && front[i] == x;
                    assert(s[i] == x);
                    assert(s[i] < s[s.len() - 1]);
                    assert(s.contains(x));
                }
            }
        }
        lemma_insert_doc(front, fewer, d);
        let t = choose|t: Seq<u64>| lists_docs(t, fewer.insert(d));
        let u = t.push(last);
        assert forall|i: int, j: int| 0 <= i < j < u.len() implies u[i] < u[j] by {
            if j == t.len() {
                assert(t.contains(t[i]));
                assert(fewer.insert(d).contains(t[i]));
                if t[i] != d {
                    assert(front.contains(t[i]));
                    let x = choose|x: int| 0 <= x < front.len() && front[x] == t[i];
                    assert(s[x] < s[s.len() - 1]);
                } else {
                    assert(d != last);
                }
            }
        }
        assert forall|x: u64| #[trigger] docs.insert(d).contains(x) <==> u.contains(x) by {
            if docs.insert(d).contains(x) {
                if x == last {
                    assert(u[t.len() as int] == x);
                } else {
                    assert(fewer.insert(d).contains(x));
                    assert(t.contains(x));
                    let i = choose|i: int| 0 <= i < t.len() && t[i] == x;
                    assert(u[i] == x);
                }
            }
            if u.contains(x) {
                let i = choose|i: int| 0 <= i < u.len() && u[i] == x;
                if i < t.len() {
                    assert(t.contains(x));
                    assert(fewer.insert(d).contains(x));
                }
            }
        }
        assert(lists_docs(u, docs.insert(d)));
    }
}

proof fn lemma_docs_list_exists(group: Seq<RecordView>, n: nat)
    requires
        n <= group.len(),
    ensures
        exists|s: Seq<u64>| lists_docs(s, touched_docs(group.take(n as int))),
    decreases n,
{
    if n == 0 {
        assert(lists_docs(Seq::<u64>::empty(), touched_docs(group.take(0))));
    } else {
        let m = (n - 1) as nat;
        lemma_docs_list_exists(group, m);
        let s = choose|s: Seq<u64>| lists_docs(s, touched_docs(group.take(m as int)));
        lemma_touched_step(group, m as int);
        match group[m as int].doc_id {
            Some(d) => {
                lemma_insert_doc(s, touched_docs(group.take(m as int)), d);
            },
            None => {},
        }
    }
}

/// The documents that a transaction names can be listed.
pub proof fn lemma_ascending_docs(group: Seq<RecordView>)
    ensures
        lists_docs(ascending_docs(touched_docs(group)), touched_docs(group)),
{
    lemma_docs_list_exists(group, group.len());
    assert(group.take(group.len() as int) =~= group);
}

} // verus!
