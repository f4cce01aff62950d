//! What writes are refused for, what they record, and what each record does to
//! a collection, said of the inputs and of what is read afterwards.

use crate::change::{EventView, WrittenView};
use crate::collection;
use crate::collection::{CollectionView, PutView};
use crate::consistency;
use crate::doc_guarantees;
use crate::document;
use crate::document::{ChunkView, PutDocumentInput};
use crate::draft;
use crate::draft::ChangeView;
use crate::encoding;
use crate::encoding::WalErrorView;
use crate::error::StorageErrorView;
use crate::fields::FieldsView;
use crate::guarantees;
use crate::model::{ChunkSpec, ModelFingerprint, RequestCtx, Timestamp};
use crate::payload;
use crate::recovery;
use crate::snapshot;
use crate::state::{DocEntry, Row, StateView};
use crate::wal;
use crate::wal::{RecordView, WalOp};
use vstd::prelude::*;

verus! {

proof fn lemma_first_misfit(items: Seq<PutView>, dim: usize, from: nat)
    requires
        from <= items.len(),
    ensures
        from <= collection::first_misfit(items, dim, from) <= items.len(),
        forall|j: int| from <= j < collection::first_misfit(items, dim, from) ==> (#[trigger] items[j]).vector.len() == dim,
        collection::first_misfit(items, dim, from) < items.len() ==> items[collection::first_misfit(items, dim, from) as int].vector.len() != dim,
    decreases items.len() - from,
{
    if from < items.len() && items[from as int].vector.len() == dim {
        lemma_first_misfit(items, dim, from + 1);
    }
}

proof fn lemma_first_refused(items: Seq<PutView>, s: payload::StoreView, from: nat)
    requires
        from <= items.len(),
    ensures
        from <= collection::first_refused(items, s, from) <= items.len(),
        forall|j: int| from <= j < collection::first_refused(items, s, from) ==> payload::row_refusal(s, (#[trigger] items[j]).fields) is None,
        collection::first_refused(items, s, from) < items.len() ==> payload::row_refusal(s, items[collection::first_refused(items, s, from) as int].fields) is Some,
    decreases items.len() - from,
{
    if from < items.len() && payload::row_refusal(s, items[from as int].fields) is None {
        lemma_first_refused(items, s, from + 1);
    }
}

/// A put is accepted exactly when every vector has the collection's dimension
/// and every row's fields are accepted. Otherwise the refusal is about the
/// first vector of another dimension, giving both dimensions; where there is
/// none, it is what the first row with fields that are not accepted is refused
/// for.
pub proof fn a_put_is_refused_for_its_first_fault(c: CollectionView, items: Seq<PutView>)
    ensures
        collection::put_refusal(c, items) is None <==> forall|i: int| 0 <= i < items.len() ==> (#[trigger] items[i]).vector.len() == c.dim
            && payload::row_refusal(c.state.payload, items[i].fields) is None,
        forall|i: int| 0 <= i < items.len() && (#[trigger] items[i]).vector.len() != c.dim && (forall|j: int| 0 <= j < i ==> (#[trigger] items[j]).vector.len() == c.dim)
            ==> collection::put_refusal(c, items) == Some(
            StorageErrorView::DimensionMismatch { coll: c.name, expected: c.dim, got: items[i].vector.len() as usize },
        ),
        (forall|i: int| 0 <= i < items.len() ==> (#[trigger] items[i]).vector.len() == c.dim) ==> forall|i: int|
            0 <= i < items.len() && (forall|j: int| 0 <= j < i ==> payload::row_refusal(c.state.payload, (#[trigger] items[j]).fields) is None)
                && payload::row_refusal(c.state.payload, (#[trigger] items[i]).fields) is Some ==> collection::put_refusal(c, items) == Some(
                StorageErrorView::Filter(payload::row_refusal(c.state.payload, items[i].fields)->0),
            ),
{
    lemma_first_misfit(items, c.dim, 0);
    lemma_first_refused(items, c.state.payload, 0);
    let m = collection::first_misfit(items, c.dim, 0) as int;
    let f = collection::first_refused(items, c.state.payload, 0) as int;
    if m < items.len() {
        assert(items[m].vector.len() != c.dim);
    } else if f < items.len() {
        assert(payload::row_refusal(c.state.payload, items[f].fields) is Some);
    }
}

/// After a put, a read by the key of one of its items (the last one of that
/// key) gives the item's vector, fields and extra payload. A row that is
/// written over keeps its id, its text and its place in a document; a new one
/// has none of those and an id that none had before.
pub proof fn a_put_row_is_read_as_given(c: CollectionView, after: CollectionView, ctx: RequestCtx, items: Seq<PutView>, i: int, r: Option<Row>)
    requires
        guarantees::can_put(c, items),
        collection::put_took_place(c, after, ctx, items),
        0 <= i < items.len(),
        guarantees::last_of_key(items, i, items.len() as int),
        collection::is_row_of_key(after.state, items[i].key, r),
    ensures
        r matches Some(row) && {
            &&& row.key@ == items[i].key
            &&& row.vector matches Some(v) && v@ == items[i].vector
            &&& row.fields@ == items[i].fields
            &&& match row.extra {
                Some(x) => items[i].extra == Some(x@),
                None => items[i].extra is None,
            }
            &&& c.state.keys.contains_key(items[i].key) ==> {
                let was = c.state.rows[c.state.keys[items[i].key]];
                &&& row.id.0 == c.state.keys[items[i].key]
                &&& match row.text {
                    Some(x) => was.text == Some(x@),
                    None => was.text is None,
                }
                &&& match row.doc_id {
                    Some(d) => was.doc_id == Some(d.0),
                    None => was.doc_id is None,
                }
                &&& row.chunk_ord == was.chunk_ord
            }
            &&& !c.state.keys.contains_key(items[i].key) ==> row.id.0 >= c.state.next_row && !c.state.rows.contains_key(row.id.0) && row.text is None
                && row.doc_id is None && row.chunk_ord is None
        },
{
    guarantees::a_put_reads_back(c, after, ctx, items, i);
    guarantees::row_ids_stay_with_their_keys(c, items, i);
}

/// The records of a transaction say who wrote it, in which session and
/// collection, under one id, and each its own place among them all; nothing
/// caused it.
pub proof fn records_say_where_they_come_from(ctx: RequestCtx, coll: Seq<char>, txn: u128, changes: Seq<ChangeView>, stamps: Seq<Timestamp>)
    requires
        stamps.len() >= changes.len(),
        changes.len() <= u32::MAX,
    ensures
        ({
            let records = draft::drafted_all(draft::origin(ctx, coll, txn), changes, stamps);
            &&& records.len() == changes.len()
            &&& forall|i: int| 0 <= i < records.len() ==> {
                let r = #[trigger] records[i];
                &&& r.txn == txn
                &&& r.actor.id == ctx.principal.id
                &&& r.actor.name == ctx.principal.name
                &&& r.session == ctx.session.0@
                &&& r.coll == coll
                &&& r.ts == stamps[i]
                &&& r.txn_seq.0 as int == i + 1
                &&& r.txn_seq.1 as int == changes.len()
                &&& r.caused_by is None
                &&& r.op == changes[i].op
                &&& r.row_id == Some(changes[i].row_id)
                &&& r.key == Some(changes[i].key)
                &&& r.doc_id == changes[i].doc_id
                &&& r.doc_key == changes[i].doc_key
                &&& r.chunk_ord == changes[i].chunk_ord
                &&& r.payload == changes[i].payload
                &&& r.undo == changes[i].undo
                &&& r.params == changes[i].params
            }
        }),
{
}

/// A put records one change for each item, in their order: an insertion
/// where the key had no row by then and an update otherwise, with what is
/// written, and for an update what was there before.
pub proof fn a_put_records_each_item(c: CollectionView, ctx: RequestCtx, txn: u128, stamps: Seq<Timestamp>, items: Seq<PutView>, i: int)
    requires
        0 <= i < items.len() <= u32::MAX,
        stamps.len() >= items.len(),
    ensures
        ({
            let records = collection::put_records(c, ctx, txn, stamps, items);
            let r = records[i];
            let before = forall|j: int| 0 <= j < i ==> (#[trigger] items[j]).key != items[i].key;
            &&& records.len() == items.len()
            &&& r.txn == txn
            &&& r.coll == c.name
            &&& r.session == ctx.session.0@
            &&& r.actor.id == ctx.principal.id
            &&& r.txn_seq.0 as int == i + 1
            &&& r.txn_seq.1 as int == items.len()
            &&& r.key == Some(items[i].key)
            &&& r.row_id == Some(collection::put_row_id(c.state, items, i))
            &&& r.op == (if before && !c.state.keys.contains_key(items[i].key) { WalOp::Insert } else { WalOp::Update })
            &&& r.payload is Some
            &&& r.payload->0.fields == Some(items[i].fields)
            &&& r.payload->0.extra == items[i].extra
            &&& r.undo is Some <==> r.op == WalOp::Update
            &&& before && c.state.keys.contains_key(items[i].key) ==> {
                let was = c.state.rows[c.state.keys[items[i].key]];
                &&& r.undo == Some(draft::row_image(was))
                &&& r.payload->0.text == was.text
                &&& r.doc_id == was.doc_id
                &&& r.chunk_ord == was.chunk_ord
            }
        }),
{
    collection::lemma_earlier(items, items[i].key, i as nat);
    if let Some(j) = collection::earlier(items, items[i].key, i as nat) {
        assert(items[j].key == items[i].key);
    }
}

/// The image of a row holds its text, fields and extra payload, and a vector
/// that reads back.
pub proof fn an_image_holds_the_row(vector: Seq<u32>, text: Option<Seq<char>>, fields: FieldsView, extra: Option<Seq<char>>)
    requires
        encoding::encodes(vector),
    ensures
        ({
            let image = draft::image(vector, text, fields, extra);
            &&& wal::image_vector(image) == Ok::<Option<Seq<u32>>, WalErrorView>(Some(vector))
            &&& image.text == text
            &&& image.fields == Some(fields)
            &&& image.extra == extra
        }),
{
}

/// What applying a record that writes a row comes to, where it comes to no
/// error: the row holds what the record says, is live, and is what its key
/// leads to; no other row changes.
pub proof fn a_written_record_is_stored(s: StateView, r: RecordView)
    requires
        r.op == WalOp::Insert || r.op == WalOp::Update,
        recovery::ids_fit(r),
        recovery::applied_one(s, r).1 is None,
    ensures
        ({
            let t = recovery::applied_one(s, r).0;
            let id = r.row_id->0;
            let image = r.payload->0;
            &&& r.row_id is Some
            &&& r.key is Some
            &&& r.payload is Some
            &&& wal::image_vector(image) matches Ok(Some(vector)) && t.rows[id].vector == vector
            &&& t.rows.contains_key(id)
            &&& t.rows[id].key == r.key->0
            &&& t.rows[id].text == image.text
            &&& t.rows[id].extra == image.extra
            &&& t.rows[id].fields == (match image.fields {
                Some(f) => f,
                None => Map::empty(),
            })
            &&& t.rows[id].doc_id == r.doc_id
            &&& t.rows[id].chunk_ord == r.chunk_ord
            &&& t.keys.contains_key(r.key->0)
            &&& t.keys[r.key->0] == id
            &&& t.live == s.live.insert(id as u32)
            &&& t.next_row == (if s.next_row > id { s.next_row as int } else { id + 1 })
            &&& forall|other: u64| other != id ==> #[trigger] t.rows.contains_key(other) == s.rows.contains_key(other) && (s.rows.contains_key(other)
                ==> t.rows[other] == s.rows[other])
            &&& forall|k: Seq<char>| k != r.key->0 ==> #[trigger] t.keys.contains_key(k) == s.keys.contains_key(k) && (s.keys.contains_key(k)
                ==> t.keys[k] == s.keys[k])
            &&& t.payload.schema == s.payload.schema
            &&& t.payload.strict == s.payload.strict
            &&& t.txns == s.txns
        }),
{
}

/// A record that writes a chunk also keeps its document: the document's id is
/// taken, the row is among its chunks, and, where the record carries them, its
/// metadata and payload are the record's. Its key leads to it. When it was
/// first written stays; no other document changes.
pub proof fn a_written_chunk_keeps_its_document(s: StateView, r: RecordView, d: u64)
    requires
        r.op == WalOp::Insert || r.op == WalOp::Update,
        recovery::ids_fit(r),
        recovery::applied_one(s, r).1 is None,
    ensures
        ({
            let t = recovery::applied_one(s, r).0;
            let row = r.row_id->0 as u32;
            &&& r.doc_id != Some(d) ==> t.docs.contains_key(d) == s.docs.contains_key(d) && (s.docs.contains_key(d) ==> t.docs[d] == s.docs[d])
            &&& r.doc_id is None ==> t.next_doc == s.next_doc && t.doc_keys == s.doc_keys
            &&& r.doc_id == Some(d) ==> {
                &&& t.next_doc == (if s.next_doc > d { s.next_doc as int } else { d + 1 })
                &&& t.docs.contains_key(d) <==> s.docs.contains_key(d) || r.params is Some
                &&& t.docs.contains_key(d) ==> {
                    &&& t.docs[d].rows == (if s.docs.contains_key(d) { s.docs[d].rows.insert(row) } else { Set::<u32>::empty().insert(row) })
                    &&& t.docs[d].chunk_count == t.docs[d].rows.len() as u32
                }
                &&& r.params matches Some(meta) ==> {
                    &&& r.doc_key is Some
                    &&& t.doc_keys == s.doc_keys.insert(r.doc_key->0, d)
                    &&& t.docs[d].meta == meta
                    &&& t.docs[d].updated_txn == r.txn
                    &&& t.docs[d].doc_payload == (match r.payload->0.fields {
                        Some(f) => f,
                        None => Map::empty(),
                    })
                    &&& t.docs[d].created_txn == (if s.docs.contains_key(d) { s.docs[d].created_txn } else { r.txn })
                    &&& t.docs[d].doc_key == (if s.docs.contains_key(d) { s.docs[d].doc_key } else { r.doc_key->0 })
                    &&& t.docs[d].doc_id == (if s.docs.contains_key(d) { s.docs[d].doc_id } else { d })
                }
                &&& r.params is None ==> t.doc_keys == s.doc_keys && (s.docs.contains_key(d) ==> t.docs[d].meta == s.docs[d].meta && t.docs[d].created_txn
                    == s.docs[d].created_txn && t.docs[d].updated_txn == s.docs[d].updated_txn && t.docs[d].doc_payload == s.docs[d].doc_payload && t.docs[d].doc_key
                    == s.docs[d].doc_key && t.docs[d].doc_id == s.docs[d].doc_id)
            }
        }),
{
}

/// What applying a deletion comes to: the row is live no longer, and its key
/// leads nowhere; what was stored of it stays, so that the deletion can be
/// undone. Its document no longer lists it. Nothing else changes.
pub proof fn a_deletion_takes_the_row_away(s: StateView, r: RecordView)
    requires
        r.op == WalOp::Delete,
        recovery::ids_fit(r),
        recovery::applied_one(s, r).1 is None,
    ensures
        ({
            let t = recovery::applied_one(s, r).0;
            let id = r.row_id->0;
            &&& r.row_id is Some
            &&& t.live == s.live.remove(id as u32)
            &&& t.rows == s.rows
            &&& t.next_row == s.next_row
            &&& t.next_doc == s.next_doc
            &&& t.doc_keys == s.doc_keys
            &&& t.txns == s.txns
            &&& s.rows.contains_key(id) ==> !t.keys.contains_key(s.rows[id].key)
            &&& forall|k: Seq<char>| (s.rows.contains_key(id) ==> k != s.rows[id].key) ==> #[trigger] t.keys.contains_key(k) == s.keys.contains_key(k)
                && (s.keys.contains_key(k) ==> t.keys[k] == s.keys[k])
            &&& forall|d: u64| #[trigger] t.docs.contains_key(d) <==> s.docs.contains_key(d)
            &&& forall|d: u64| #[trigger] s.docs.contains_key(d) && r.doc_id != Some(d) ==> t.docs[d] == s.docs[d]
            &&& r.doc_id matches Some(d) ==> s.docs.contains_key(d) ==> {
                &&& t.docs[d].rows == s.docs[d].rows.remove(id as u32)
                &&& t.docs[d].chunk_count == t.docs[d].rows.len() as u32
                &&& t.docs[d].meta == s.docs[d].meta
                &&& t.docs[d].doc_key == s.docs[d].doc_key
                &&& t.docs[d].doc_payload == s.docs[d].doc_payload
                &&& t.docs[d].created_txn == s.docs[d].created_txn
                &&& t.docs[d].updated_txn == s.docs[d].updated_txn
            }
            &&& forall|name: Seq<char>| #[trigger] t.payload.columns.contains_key(name) <==> s.payload.columns.contains_key(name)
            &&& forall|name: Seq<char>| #[trigger] s.payload.columns.contains_key(name) ==> !t.payload.columns[name].cells.contains_key(id as u32)
        }),
{
}

/// A record can be applied exactly when it is whole: a deletion names its
/// row; a write names its row and key, carries a payload with a vector that
/// can be read and with fields that the schema accepts and, where it carries
/// the metadata of a document, names the document's key. A record of another
/// kind changes nothing.
pub proof fn a_record_is_applied_where_it_is_whole(s: StateView, r: RecordView)
    ensures
        r.op == WalOp::Delete ==> (recovery::applied_one(s, r).1 is None <==> r.row_id is Some),
        r.op == WalOp::Insert || r.op == WalOp::Update ==> (recovery::applied_one(s, r).1 is None <==> {
            &&& r.row_id is Some
            &&& r.key is Some
            &&& r.payload is Some
            &&& wal::image_vector(r.payload->0) matches Ok(Some(_))
            &&& payload::row_refusal(
                s.payload,
                match r.payload->0.fields {
                    Some(f) => f,
                    None => Map::empty(),
                },
            ) is None
            &&& r.doc_id is Some && r.params is Some ==> r.doc_key is Some
        }),
        r.op != WalOp::Insert && r.op != WalOp::Update && r.op != WalOp::Delete ==> recovery::applied_one(s, r) == (s, None::<StorageErrorView>),
{
}

proof fn lemma_applied_to(s: StateView, group: Seq<RecordView>, n: nat)
    requires
        n <= group.len(),
        recovery::applied_records(s, group, n).1 is None,
    ensures
        recovery::applied_records(s, group, n).0.applied >= s.applied,
        forall|i: int| 0 <= i < n ==> recovery::applied_records(s, group, n).0.applied >= (#[trigger] group[i]).lsn,
        recovery::applied_records(s, group, n).0.applied == s.applied || exists|i: int| 0 <= i < n && recovery::applied_records(s, group, n).0.applied
            == (#[trigger] group[i]).lsn,
    decreases n,
{
    if n > 0 {
        lemma_applied_to(s, group, (n - 1) as nat);
        let t = recovery::applied_records(s, group, (n - 1) as nat).0;
        assert(recovery::applied_one(t, group[n - 1]).0.applied == t.applied);
        if t.applied != s.applied {
            let i = choose|i: int| 0 <= i < n - 1 && t.applied == (#[trigger] group[i]).lsn;
            assert(t.applied == group[i].lsn);
        }
        assert(group[n - 1].lsn == group[n - 1].lsn);
    }
}

/// A transaction that has been applied leaves the position at its highest, or
/// where it was if that is higher. A document that it names and that has no
/// chunks left is gone, with its key; every other document that the records
/// left stays as they left it.
pub proof fn a_transaction_ends_with_its_records(s: StateView, group: Seq<RecordView>, d: u64)
    requires
        group.len() > 0,
        recovery::applied_group(s, group).1 is None,
    ensures
        ({
            let t = recovery::applied_records(s, group, group.len()).0;
            let u = recovery::applied_group(s, group).0;
            let named = exists|i: int| 0 <= i < group.len() && (#[trigger] group[i]).doc_id == Some(d);
            &&& u.applied >= s.applied
            &&& forall|i: int| 0 <= i < group.len() ==> u.applied >= (#[trigger] group[i]).lsn
            &&& u.applied == s.applied || exists|i: int| 0 <= i < group.len() && u.applied == (#[trigger] group[i]).lsn
            &&& u.docs.contains_key(d) <==> t.docs.contains_key(d) && !(named && t.docs[d].rows == Set::<u32>::empty())
            &&& u.docs.contains_key(d) ==> u.docs[d] == t.docs[d]
            &&& t.docs.contains_key(d) && !u.docs.contains_key(d) ==> !u.doc_keys.contains_key(t.docs[d].doc_key)
            &&& forall|k: Seq<char>| #[trigger] u.doc_keys.contains_key(k) ==> t.doc_keys.contains_key(k) && u.doc_keys[k] == t.doc_keys[k]
            &&& u.rows == t.rows
            &&& u.keys == t.keys
            &&& u.live == t.live
            &&& u.payload == t.payload
            &&& u.next_row == t.next_row
            &&& u.next_doc == t.next_doc
        }),
{
    lemma_applied_to(s, group, group.len());
    let t = recovery::applied_records(s, group, group.len()).0;
    let touched = recovery::touched_docs(group);
    if t.docs.contains_key(d) && recovery::emptied(t, touched, d) {
        assert(recovery::emptied(t, touched, d));
    }
}

/// Whether what an event says was written is what a record says.
pub open spec fn says(w: WrittenView, r: RecordView) -> bool {
    &&& r.row_id == Some(w.row_id)
    &&& r.key == Some(w.key)
    &&& r.payload is Some
    &&& wal::image_vector(r.payload->0) == Ok::<Option<Seq<u32>>, WalErrorView>(Some(w.vector))
    &&& w.fields == (match r.payload->0.fields {
        Some(f) => f,
        None => Map::empty(),
    })
    &&& w.extra == r.payload->0.extra
    &&& w.doc_id == r.doc_id
    &&& w.text == r.payload->0.text
}

/// What subscribers are told of a record: a deletion names the row, its
/// document and the text that it had; a write says all that is written.
/// Nothing is told of a record that names no row, or of one of another kind,
/// or of a write that cannot be read.
pub proof fn an_event_says_what_its_record_says(r: RecordView)
    ensures
        recovery::event_of(r) matches Some(EventView::Insert(_)) ==> r.op == WalOp::Insert,
        recovery::event_of(r) matches Some(EventView::Update(_)) ==> r.op == WalOp::Update,
        recovery::event_of(r) matches Some(EventView::Delete { .. }) <==> r.op == WalOp::Delete && r.row_id is Some,
        recovery::event_of(r) matches Some(EventView::Delete { row_id, doc_id, text }) ==> r.row_id == Some(row_id) && doc_id == r.doc_id && text == (
        match r.undo {
            Some(u) => u.text,
            None => None,
        }),
        (r.op == WalOp::Insert || r.op == WalOp::Update) ==> (recovery::event_of(r) is Some <==> r.row_id is Some && r.key is Some && r.payload is Some
            && (wal::image_vector(r.payload->0) matches Ok(Some(_)))),
        r.op != WalOp::Insert && r.op != WalOp::Update && r.op != WalOp::Delete ==> recovery::event_of(r) is None,
        (match recovery::event_of(r) {
            Some(EventView::Insert(w)) => says(w, r),
            Some(EventView::Update(w)) => says(w, r),
            _ => true,
        }),
{
}

proof fn lemma_first_misfit_chunk(chunks: Seq<ChunkView>, dim: usize, from: nat)
    requires
        from <= chunks.len(),
    ensures
        from <= document::first_misfit_chunk(chunks, dim, from) <= chunks.len(),
        forall|j: int| from <= j < document::first_misfit_chunk(chunks, dim, from) ==> (#[trigger] chunks[j]).vector.len() == dim,
        document::first_misfit_chunk(chunks, dim, from) < chunks.len() ==> chunks[document::first_misfit_chunk(chunks, dim, from) as int].vector.len() != dim,
    decreases chunks.len() - from,
{
    if from < chunks.len() && chunks[from as int].vector.len() == dim {
        lemma_first_misfit_chunk(chunks, dim, from + 1);
    }
}

/// Chunks are refused exactly when there are none or one has a vector of
/// another dimension than the collection's; then the refusal gives both
/// dimensions, of the first such chunk.
pub proof fn chunks_are_refused_for_their_first_fault(c: CollectionView, chunks: Seq<ChunkView>, empty: Seq<char>)
    ensures
        document::chunks_refusal(c, chunks, empty) is None <==> chunks.len() > 0 && forall|i: int| 0 <= i < chunks.len() ==> (#[trigger] chunks[i]).vector.len() == c.dim,
        chunks.len() == 0 ==> document::chunks_refusal(c, chunks, empty) == Some(StorageErrorView::InvalidArgument(empty)),
        forall|i: int| 0 <= i < chunks.len() && (#[trigger] chunks[i]).vector.len() != c.dim && (forall|j: int| 0 <= j < i ==> (#[trigger] chunks[j]).vector.len() == c.dim)
            ==> document::chunks_refusal(c, chunks, empty) == Some(
            StorageErrorView::DimensionMismatch { coll: c.name, expected: c.dim, got: chunks[i].vector.len() as usize },
        ),
{
    lemma_first_misfit_chunk(chunks, c.dim, 0);
    let m = document::first_misfit_chunk(chunks, c.dim, 0) as int;
    if m < chunks.len() {
        assert(chunks[m].vector.len() != c.dim);
    }
}

/// A new document is accepted exactly when it has chunks, all of the
/// collection's dimension, its key is not taken, and its payload is accepted;
/// it gets the next document id. A replacement is accepted exactly when its
/// chunks and payload are and the key leads to a document, which keeps its id;
/// otherwise, the chunks being right, the refusal says that there is none.
pub proof fn documents_are_refused_for_a_fault(
    c: CollectionView,
    input: PutDocumentInput,
    doc_key: Seq<char>,
    chunks: Seq<ChunkView>,
    fields: FieldsView,
    chunk_spec: ChunkSpec,
    source: Option<String>,
    model: ModelFingerprint,
)
    ensures
        ({
            let put = document::put_document_plan(c, input);
            let given = document::chunk_views(input.chunks@);
            &&& put is Ok <==> given.len() > 0 && (forall|i: int| 0 <= i < given.len() ==> (#[trigger] given[i]).vector.len() == c.dim)
                && !c.state.doc_keys.contains_key(input.doc_key@) && payload::row_refusal(c.state.payload, input.doc_payload@) is None
            &&& put matches Ok((id, changes)) ==> id == c.state.next_doc && changes.len() == given.len()
            &&& given.len() == 0 ==> put == Err::<(u64, Seq<ChangeView>), StorageErrorView>(
                StorageErrorView::InvalidArgument("put_document requires at least one chunk"@),
            )
            &&& given.len() > 0 && (forall|i: int| 0 <= i < given.len() ==> (#[trigger] given[i]).vector.len() == c.dim) ==> {
                &&& c.state.doc_keys.contains_key(input.doc_key@) ==> put == Err::<(u64, Seq<ChangeView>), StorageErrorView>(document::already_exists(input.doc_key@))
                &&& !c.state.doc_keys.contains_key(input.doc_key@) ==> (payload::row_refusal(c.state.payload, input.doc_payload@) matches Some(e) ==> put == Err::<
                    (u64, Seq<ChangeView>),
                    StorageErrorView,
                >(StorageErrorView::Filter(e)))
            }
        }),
        ({
            let replace = document::replace_document_plan(c, doc_key, chunks, fields, chunk_spec, source, model);
            let right = chunks.len() > 0 && forall|i: int| 0 <= i < chunks.len() ==> (#[trigger] chunks[i]).vector.len() == c.dim;
            &&& replace is Ok <==> right && c.state.doc_keys.contains_key(doc_key) && payload::row_refusal(c.state.payload, fields) is None
            &&& replace matches Ok((id, changes)) ==> id == c.state.doc_keys[doc_key]
            &&& chunks.len() == 0 ==> replace == Err::<(u64, Seq<ChangeView>), StorageErrorView>(
                StorageErrorView::InvalidArgument("replace_document requires at least one chunk"@),
            )
            &&& right && !c.state.doc_keys.contains_key(doc_key) ==> replace == Err::<(u64, Seq<ChangeView>), StorageErrorView>(StorageErrorView::DocumentNotFound(doc_key))
        }),
{
    chunks_are_refused_for_their_first_fault(c, document::chunk_views(input.chunks@), "put_document requires at least one chunk"@);
    chunks_are_refused_for_their_first_fault(c, chunks, "replace_document requires at least one chunk"@);
}

/// Whether a row that was read is chunk `i` of a document.
pub open spec fn is_chunk(r: Option<Row>, doc_id: u64, chunk: ChunkView, fields: FieldsView, i: int) -> bool {
    r matches Some(row) && {
        &&& row.vector matches Some(v) && v@ == chunk.vector
        &&& row.text matches Some(t) && t@ == chunk.text
        &&& row.fields@ == fields
        &&& row.extra is None
        &&& row.doc_id matches Some(d) && d.0 == doc_id
        &&& row.chunk_ord == Some(i as u32)
    }
}

/// A document that has been put is read as it was given: its first version,
/// with its source, its payload, how it was cut and embedded, and as many
/// chunks as it has; and chunk `i`, read by its key, has its text and vector.
pub proof fn a_put_document_is_read_as_given(c: CollectionView, after: CollectionView, ctx: RequestCtx, input: PutDocumentInput, e: Option<DocEntry>, i: int, r: Option<Row>)
    requires
        collection::sound(c.state),
        consistency::linked(c.state),
        document::put_document_plan(c, input) is Ok,
        document::chunks_encode(document::chunk_views(input.chunks@)),
        input.chunks@.len() <= u32::MAX,
        c.state.next_row + input.chunks@.len() <= collection::row_capacity(),
        c.state.next_doc < u64::MAX,
        document::changes_took_place(c, after, ctx, (document::put_document_plan(c, input)->Ok_0).1),
        document::is_entry_of(after.state, input.doc_key@, e),
        0 <= i < input.chunks@.len(),
        collection::is_row_of_key(after.state, document::chunk_key_of(input.doc_key@, i as nat), r),
    ensures
        e matches Some(d) && {
            &&& d.doc_id.0 == c.state.next_doc
            &&& d.doc_key@ == input.doc_key@
            &&& d.version == 1
            &&& d.source == input.source
            &&& d.chunk_spec == input.chunk_spec
            &&& d.chunker_version == 1
            &&& d.embedding_model == input.embedding_model
            &&& d.chunk_count == input.chunks@.len()
            &&& d.doc_payload@ == input.doc_payload@
        },
        is_chunk(r, c.state.next_doc, input.chunks@[i]@, input.doc_payload@, i),
        r matches Some(row) ==> row.id.0 == c.state.next_row + i,
{
    doc_guarantees::a_put_document_reads_back(c, after, ctx, input);
    let key = document::chunk_key_of(input.doc_key@, i as nat);
    assert(collection::row_of_key(after.state, key) is Some);
}

/// A document that has been replaced is read as it was given: its version is
/// one higher, its chunks are the new ones, and it keeps its id.
pub proof fn a_replaced_document_is_read_as_given(
    c: CollectionView,
    after: CollectionView,
    ctx: RequestCtx,
    doc_key: Seq<char>,
    chunks: Seq<ChunkView>,
    fields: FieldsView,
    chunk_spec: ChunkSpec,
    source: Option<String>,
    model: ModelFingerprint,
    e: Option<DocEntry>,
    i: int,
    r: Option<Row>,
)
    requires
        collection::sound(c.state),
        consistency::linked(c.state),
        document::replace_document_plan(c, doc_key, chunks, fields, chunk_spec, source, model) is Ok,
        document::chunks_encode(chunks),
        document::document_size(c.state, doc_key) + chunks.len() <= u32::MAX,
        c.state.next_row + chunks.len() <= collection::row_capacity(),
        c.state.docs[c.state.doc_keys[doc_key]].meta.version < u32::MAX,
        document::changes_took_place(
            c,
            after,
            ctx,
            (document::replace_document_plan(c, doc_key, chunks, fields, chunk_spec, source, model)->Ok_0).1,
        ),
        document::is_entry_of(after.state, doc_key, e),
        0 <= i < chunks.len(),
        collection::is_row_of_key(after.state, document::chunk_key_of(doc_key, i as nat), r),
    ensures
        e matches Some(d) && {
            let was = c.state.docs[c.state.doc_keys[doc_key]];
            &&& d.doc_id.0 == was.doc_id
            &&& d.doc_key@ == doc_key
            &&& d.version as int == was.meta.version + 1
            &&& d.source == source
            &&& d.chunk_spec == chunk_spec
            &&& d.chunker_version == was.meta.chunker_version
            &&& d.embedding_model == model
            &&& d.chunk_count == chunks.len()
            &&& d.doc_payload@ == fields
            &&& d.created_txn.0 == was.created_txn
        },
        is_chunk(r, c.state.doc_keys[doc_key], chunks[i], fields, i),
{
    doc_guarantees::a_replaced_document_reads_back(c, after, ctx, doc_key, chunks, fields, chunk_spec, source, model);
    let key = document::chunk_key_of(doc_key, i as nat);
    assert(collection::row_of_key(after.state, key) is Some);
}

proof fn lemma_each_is_told(records: Seq<RecordView>, n: nat)
    requires
        n <= records.len(),
        forall|i: int| 0 <= i < n ==> recovery::event_of(#[trigger] records[i]) is Some,
    ensures
        recovery::events_of(records, n).len() == n,
        forall|i: int| 0 <= i < n ==> #[trigger] recovery::events_of(records, n)[i] == recovery::event_of(records[i])->0,
    decreases n,
{
    if n > 0 {
        lemma_each_is_told(records, (n - 1) as nat);
        assert(recovery::event_of(records[n - 1]) is Some);
    }
}

/// A write is announced in one batch more, under its transaction's id and the
/// collection's name; what was waiting to be announced still is.
pub proof fn a_write_is_announced_under_its_transaction(c: CollectionView, txn: u128, records: Seq<RecordView>)
    ensures
        ({
            let after = collection::written(c, txn, records);
            &&& after.outbox.len() == c.outbox.len() + 1
            &&& forall|i: int| 0 <= i < c.outbox.len() ==> #[trigger] after.outbox[i] == c.outbox[i]
            &&& after.outbox.last().txn_id == txn
            &&& after.outbox.last().coll == c.name
            &&& after.outbox.last().events == recovery::events_of(records, records.len())
            &&& after.state == recovery::applied_from(c.state, records, 0).0
            &&& after.name == c.name
            &&& after.dim == c.dim
            &&& after.metric == c.metric
            &&& after.wal == c.wal
        }),
{
}

/// Subscribers are told of a put item by item: the row, the key, and the
/// vector, fields and extra payload that were given; as an insertion where the
/// key had no row by then, and as an update otherwise.
pub proof fn a_put_is_announced_item_by_item(c: CollectionView, after: CollectionView, ctx: RequestCtx, items: Seq<PutView>, i: int)
    requires
        collection::all_encode(items),
        collection::put_took_place(c, after, ctx, items),
        0 <= i < items.len(),
    ensures
        ({
            let events = after.outbox.last().events;
            let fresh = !c.state.keys.contains_key(items[i].key) && forall|j: int| 0 <= j < i ==> (#[trigger] items[j]).key != items[i].key;
            &&& events.len() == items.len()
            &&& (match events[i] {
                EventView::Insert(w) => fresh && tells_of_item(w, items[i], collection::put_row_id(c.state, items, i)),
                EventView::Update(w) => !fresh && tells_of_item(w, items[i], collection::put_row_id(c.state, items, i)),
                EventView::Delete { .. } => false,
            })
        }),
{
    let (txn, stamps) = choose|txn: u128, stamps: Seq<Timestamp>|
        stamps.len() >= items.len() && #[trigger] collection::put_records(c, ctx, txn, stamps, items).len() == items.len()
            && after == collection::written(c, txn, collection::put_records(c, ctx, txn, stamps, items));
    let records = collection::put_records(c, ctx, txn, stamps, items);
    assert forall|j: int| 0 <= j < records.len() implies recovery::event_of(#[trigger] records[j]) is Some by {
        assert(encoding::encodes(items[j].vector));
    }
    lemma_each_is_told(records, records.len());
    assert(encoding::encodes(items[i].vector));
    collection::lemma_earlier(items, items[i].key, i as nat);
    if let Some(j) = collection::earlier(items, items[i].key, i as nat) {
        assert(items[j].key == items[i].key);
    }
}

/// Whether what an event says was written is an item, in its row.
pub open spec fn tells_of_item(w: WrittenView, item: PutView, id: u64) -> bool {
    &&& w.row_id == id
    &&& w.key == item.key
    &&& w.vector == item.vector
    &&& w.fields == item.fields
    &&& w.extra == item.extra
}

/// Subscribers are told of a deletion with the row, the document that it was
/// in and the text that it had.
pub proof fn a_deletion_is_announced_with_its_text(c: CollectionView, after: CollectionView, ctx: RequestCtx, key: Seq<char>)
    requires
        c.state.keys.contains_key(key),
        collection::delete_took_place(c, after, ctx, key),
    ensures
        ({
            let events = after.outbox.last().events;
            let id = c.state.keys[key];
            &&& events.len() == 1
            &&& events[0] matches EventView::Delete { row_id, doc_id, text } && row_id == id && doc_id == c.state.rows[id].doc_id && text == c.state.rows[id].text
        }),
{
    let (txn, ts) = choose|txn: u128, ts: Timestamp| after == collection::written(c, txn, #[trigger] collection::delete_records(c, ctx, txn, ts, key));
    let records = collection::delete_records(c, ctx, txn, ts, key);
    assert(recovery::event_of(records[0]) is Some);
    lemma_each_is_told(records, 1);
}

/// Applying a transaction's records stops at the first that cannot be applied:
/// its error is the outcome, no later record is looked at, and no transaction
/// is recorded.
pub proof fn a_transaction_stops_at_its_first_fault(s: StateView, group: Seq<RecordView>, i: int, n: nat)
    requires
        0 <= i < n <= group.len(),
        recovery::applied_records(s, group, i as nat).1 is None,
        recovery::applied_one(recovery::applied_records(s, group, i as nat).0, group[i]).1 is Some,
    ensures
        recovery::applied_records(s, group, n) == recovery::applied_one(recovery::applied_records(s, group, i as nat).0, group[i]),
        recovery::applied_group(s, group) == recovery::applied_one(recovery::applied_records(s, group, i as nat).0, group[i]),
        recovery::applied_group(s, group).0.txns == s.txns,
{
    lemma_stops(s, group, i, n);
    lemma_stops(s, group, i, group.len());
    snapshot::lemma_records_leave_txns(s, group, group.len());
}

proof fn lemma_stops(s: StateView, group: Seq<RecordView>, i: int, n: nat)
    requires
        0 <= i < n <= group.len(),
        recovery::applied_records(s, group, i as nat).1 is None,
        recovery::applied_one(recovery::applied_records(s, group, i as nat).0, group[i]).1 is Some,
    ensures
        recovery::applied_records(s, group, n) == recovery::applied_one(recovery::applied_records(s, group, i as nat).0, group[i]),
    decreases n,
{
    if n > i + 1 {
        lemma_stops(s, group, i, (n - 1) as nat);
    }
}

/// A log is applied transaction by transaction: records of one transaction
/// that stand together, followed by another's, are applied as one and then the
/// rest; and where one cannot be applied, none after it is.
pub proof fn a_log_is_applied_transaction_by_transaction(s: StateView, group: Seq<RecordView>, rest: Seq<RecordView>)
    requires
        group.len() > 0,
        forall|i: int| 0 <= i < group.len() ==> (#[trigger] group[i]).txn == group[0].txn,
        rest.len() > 0 ==> rest[0].txn != group[0].txn,
    ensures
        ({
            let whole = recovery::applied_from(s, group + rest, 0);
            let (t, e) = recovery::applied_group(s, group);
            &&& e is Some ==> whole == (t, e)
            &&& e is None ==> whole == recovery::applied_from(t, rest, 0)
        }),
{
    let all = group + rest;
    lemma_group_ends(group, rest, 1);
    assert(all.subrange(0, group.len() as int) =~= group);
    recovery::lemma_run_end(all, 1);
    let (t, e) = recovery::applied_group(s, group);
    if e is None {
        lemma_rest_applies(t, group, rest, 0);
    }
}

proof fn lemma_group_ends(group: Seq<RecordView>, rest: Seq<RecordView>, from: nat)
    requires
        0 < from <= group.len(),
        forall|i: int| 0 <= i < group.len() ==> (#[trigger] group[i]).txn == group[0].txn,
        rest.len() > 0 ==> rest[0].txn != group[0].txn,
    ensures
        recovery::run_end(group + rest, from) == group.len(),
    decreases group.len() - from,
{
    let all = group + rest;
    if from < group.len() {
        assert(all[from as int] == group[from as int] && all[from - 1] == group[from - 1]);
        lemma_group_ends(group, rest, from + 1);
    } else if rest.len() > 0 {
        assert(all[from as int] == rest[0] && all[from - 1] == group[from - 1]);
    }
}

proof fn lemma_later_run(group: Seq<RecordView>, rest: Seq<RecordView>, from: nat)
    requires
        0 < from,
    ensures
        recovery::run_end(group + rest, group.len() + from) == group.len() + recovery::run_end(rest, from),
    decreases rest.len() - from,
{
    let all = group + rest;
    if from < rest.len() {
        assert(all[(group.len() + from) as int] == rest[from as int]);
        assert(all[group.len() + from - 1] == rest[from - 1]);
        if rest[from as int].txn == rest[from - 1].txn {
            lemma_later_run(group, rest, from + 1);
        }
    }
}

proof fn lemma_rest_applies(s: StateView, group: Seq<RecordView>, rest: Seq<RecordView>, from: nat)
    requires
        from <= rest.len(),
    ensures
        recovery::applied_from(s, group + rest, group.len() + from) == recovery::applied_from(s, rest, from),
    decreases rest.len() - from,
{
    let all = group + rest;
    if from < rest.len() {
        lemma_later_run(group, rest, from + 1);
        recovery::lemma_run_end(rest, from + 1);
        let to = recovery::run_end(rest, from + 1);
        assert(all.subrange((group.len() + from) as int, (group.len() + to) as int) =~= rest.subrange(from as int, to as int));
        let (t, e) = recovery::applied_group(s, rest.subrange(from as int, to as int));
        if e is None {
            lemma_rest_applies(t, group, rest, to);
        }
    }
}

/// A record that is not whole is refused with the first thing that it lacks,
/// and changes nothing: a write its row, its key, its payload, its vector; a
/// deletion its row.
pub proof fn a_refused_record_says_what_it_lacks(s: StateView, r: RecordView)
    ensures
        ({
            let out = recovery::applied_one(s, r);
            let write = r.op == WalOp::Insert || r.op == WalOp::Update;
            &&& write && r.row_id is None ==> out == (s, Some(StorageErrorView::InvalidArgument("WAL insert/update record missing row_id"@)))
            &&& write && r.row_id is Some && r.key is None ==> out == (s, Some(StorageErrorView::InvalidArgument("WAL insert/update record missing key"@)))
            &&& write && r.row_id is Some && r.key is Some && r.payload is None ==> out == (
                s,
                Some(StorageErrorView::InvalidArgument("WAL insert/update record missing payload"@)),
            )
            &&& write && r.row_id is Some && r.key is Some && r.payload is Some ==> match wal::image_vector(r.payload->0) {
                Err(e) => out == (s, Some(StorageErrorView::InvalidArgument(encoding::wal_error_text(e)))),
                Ok(None) => out == (s, Some(StorageErrorView::InvalidArgument("WAL insert/update record missing vector"@))),
                Ok(Some(_)) => true,
            }
            &&& r.op == WalOp::Delete && r.row_id is None ==> out == (s, Some(StorageErrorView::InvalidArgument("WAL delete record missing row_id"@)))
        }),
{
}

} // verus!
