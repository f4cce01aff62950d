//! That contracts lose sight of nothing: what is said of the contents of a
//! value covers every part of it.

use crate::api::{RegistryEntry, Storage};
use crate::bitmap;
use crate::change::{ChangeBatch, ChangeEvent, EventView, WrittenView};
use crate::coarse;
use crate::coarse::CoarseQuantizer;
use crate::codec;
use crate::codec::{DecodedFrame, ProtoError};
use crate::collection;
use crate::collection::PutInput;
use crate::document;
use crate::document::ChunkInput;
use crate::encoding;
use crate::encoding::{WalError, WalErrorView};
use crate::error::{StorageError, StorageErrorView, StorageResult};
use crate::fields::{PayloadRow, PayloadValue, ValueView};
use crate::ids::{DocId, RowId, TxnId};
use crate::live::LiveIndex;
use crate::lsn::Lsn;
use crate::payload;
use crate::payload::{FilterError, FilterErrorView, FilterMask};
use crate::recovery;
use crate::replication;
use crate::replication::ReceivedLine;
use crate::snapshot::CollectionSnapshot;
use crate::state::{CollectionInner, DocEntry, RowRecord};
use crate::text;
use crate::txn_index;
use crate::txn_index::{Conflict, TxnEntry};
use crate::undo;
use crate::wal;
use crate::wal::{SegmentLines, WalPayload, WalRecord};
use roaring::RoaringBitmap;
use vstd::prelude::*;

verus! {

/// Whether an optional text has these characters.
pub open spec fn reads(s: Option<String>, v: Option<Seq<char>>) -> bool {
    match s {
        Some(t) => v == Some(t@),
        None => v is None,
    }
}

/// Whether an optional document id is this number.
pub open spec fn numbers_doc(d: Option<DocId>, v: Option<u64>) -> bool {
    match d {
        Some(i) => v == Some(i.0),
        None => v is None,
    }
}

/// Whether an optional transaction id is these bits.
pub open spec fn numbers_txn(t: Option<TxnId>, v: Option<u128>) -> bool {
    match t {
        Some(i) => v == Some(i.0),
        None => v is None,
    }
}

/// Whether an image holds what a payload does.
pub open spec fn pictures(p: Option<WalPayload>, v: Option<wal::ImageView>) -> bool {
    match p {
        Some(i) => v matches Some(w) && reads(i.vector_b64, w.vector_b64) && reads(i.text, w.text) && reads(i.extra, w.extra) && match i.fields {
            Some(f) => w.fields == Some(f@),
            None => w.fields is None,
        },
        None => v is None,
    }
}

/// What is given to be put is seen as it is given, each item in its place.
pub proof fn inputs_are_seen_as_given(items: Seq<PutInput>, chunks: Seq<ChunkInput>)
    ensures
        collection::put_views(items).len() == items.len(),
        forall|i: int| 0 <= i < items.len() ==> {
            let v = #[trigger] collection::put_views(items)[i];
            v.key == items[i].key@ && v.vector == items[i].vector@ && v.fields == items[i].fields@ && reads(items[i].extra, v.extra)
        },
        document::chunk_views(chunks).len() == chunks.len(),
        forall|i: int| 0 <= i < chunks.len() ==> {
            let v = #[trigger] document::chunk_views(chunks)[i];
            v.text == chunks[i].text@ && v.vector == chunks[i].vector@
        },
{
}

/// A value is seen with its type and what it holds.
pub proof fn values_are_seen_as_they_are(v: PayloadValue)
    ensures
        v matches PayloadValue::Keyword(s) ==> v@ == ValueView::Keyword(s@),
        v matches PayloadValue::KeywordList(l) ==> v@ is KeywordList && v@->KeywordList_0.len() == l@.len() && forall|i: int|
            0 <= i < l@.len() ==> #[trigger] v@->KeywordList_0[i] == l@[i]@,
        v matches PayloadValue::I64(x) ==> v@ == ValueView::I64(x),
        v matches PayloadValue::F64(x) ==> v@ == ValueView::F64(x),
        v matches PayloadValue::DateTime(x) ==> v@ == ValueView::DateTime(x),
        v matches PayloadValue::Bool(x) ==> v@ == ValueView::Bool(x),
        v matches PayloadValue::Text(s) ==> v@ == ValueView::Text(s@),
{
}

/// Records are seen whole, each in its place.
pub proof fn records_are_seen_whole(records: Seq<WalRecord>, i: int)
    requires
        0 <= i < records.len(),
    ensures
        wal::record_views(records).len() == records.len(),
        ({
            let r = records[i];
            let v = wal::record_views(records)[i];
            &&& v.v == r.v
            &&& v.lsn == r.lsn.0
            &&& v.ts == r.ts
            &&& v.txn == r.txn.0
            &&& v.actor == r.actor
            &&& v.session == r.session.0@
            &&& v.coll == r.coll@
            &&& v.op == r.op
            &&& match r.row_id {
                Some(id) => v.row_id == Some(id.0),
                None => v.row_id is None,
            }
            &&& reads(r.key, v.key)
            &&& numbers_doc(r.doc_id, v.doc_id)
            &&& reads(r.doc_key, v.doc_key)
            &&& v.chunk_ord == r.chunk_ord
            &&& pictures(r.payload, v.payload)
            &&& pictures(r.undo, v.undo)
            &&& numbers_txn(r.caused_by, v.caused_by)
            &&& v.txn_seq == r.txn_seq
            &&& v.params == r.params
            &&& v.checksum == r.checksum@
        }),
{
}

/// A stored row is seen whole.
pub proof fn stored_rows_are_seen_whole(r: RowRecord)
    ensures
        r@.key == r.key@,
        r@.vector == r.vector@,
        r@.fields == r.fields@,
        reads(r.extra, r@.extra),
        reads(r.text, r@.text),
        numbers_doc(r.doc_id, r@.doc_id),
        r@.chunk_ord == r.chunk_ord,
{
}

/// A document's entry is seen whole.
pub proof fn documents_are_seen_whole(e: DocEntry)
    ensures
        e@.doc_id == e.doc_id.0,
        e@.doc_key == e.doc_key@,
        e@.rows == bitmap::rows_of(e.rows),
        e@.chunk_count == e.chunk_count,
        e@.meta.version == e.version,
        e@.meta.source == e.source,
        e@.meta.chunk_spec == e.chunk_spec,
        e@.meta.chunker_version == e.chunker_version,
        e@.meta.embedding_model == e.embedding_model,
        e@.created_txn == e.created_txn.0,
        e@.updated_txn == e.updated_txn.0,
        e@.doc_payload == e.doc_payload@,
{
}

/// A collection's state is seen whole: every row and document under its own
/// id, and every key.
pub proof fn states_are_seen_whole(s: CollectionInner)
    ensures
        s@.applied == s.last_applied_lsn.0,
        s@.next_row == s.next_row_id,
        s@.next_doc == s.next_doc_id,
        s@.keys == s.key_to_row@,
        s@.doc_keys == s.doc_key_to_id@,
        s@.live == bitmap::rows_of(s.live),
        s@.payload == s.payload@,
        s@.txns == s.txn_index@,
        forall|id: u64| #[trigger] s@.rows.contains_key(id) <==> s.rows@.contains_key(id),
        forall|id: u64| #[trigger] s.rows@.contains_key(id) ==> s@.rows[id] == s.rows@[id]@,
        forall|d: u64| #[trigger] s@.docs.contains_key(d) <==> s.docs@.contains_key(d),
        forall|d: u64| #[trigger] s.docs@.contains_key(d) ==> s@.docs[d] == s.docs@[d]@,
{
}

/// An entry of the transaction index, and a conflict, are seen whole.
pub proof fn transactions_are_seen_whole(e: TxnEntry, conflicts: Seq<Conflict>)
    ensures
        e@.txn_id == e.txn_id.0,
        e@.session == e.session.0@,
        e@.principal == e.principal.0@,
        e@.ts == e.ts,
        e@.lsn_range.0 == e.lsn_range.0.0,
        e@.lsn_range.1 == e.lsn_range.1.0,
        e@.coll == e.coll@,
        e@.op_summary == e.op_summary@,
        e@.affected == bitmap::rows_of(e.affected_rows),
        e@.doc_ids.len() == e.doc_ids@.len(),
        forall|i: int| 0 <= i < e.doc_ids@.len() ==> #[trigger] e@.doc_ids[i] == e.doc_ids@[i].0,
        numbers_txn(e.undone_by, e@.undone_by),
        txn_index::conflict_views(conflicts).len() == conflicts.len(),
        forall|i: int| 0 <= i < conflicts.len() ==> {
            let v = #[trigger] txn_index::conflict_views(conflicts)[i];
            let c = conflicts[i];
            v.conflicting_txn == c.conflicting_txn.0 && v.ts == c.ts && v.principal == c.principal.0@ && v.op_summary == c.op_summary@ && v.row_count == c.row_count
        },
{
}

/// Events are seen whole, each in its place, and so are their batches.
pub proof fn events_are_seen_whole(b: ChangeBatch, i: int)
    requires
        0 <= i < b.events@.len(),
    ensures
        b@.txn_id == b.txn_id.0,
        b@.coll == b.coll@,
        b@.events.len() == b.events@.len(),
        match b.events@[i] {
            ChangeEvent::Insert { row_id, key, vector, fields, extra, doc_id, text } => b@.events[i] matches EventView::Insert(w) && is_written(
                w,
                row_id,
                key,
                vector,
                fields,
                extra,
                doc_id,
                text,
            ),
            ChangeEvent::Update { row_id, key, vector, fields, extra, doc_id, text } => b@.events[i] matches EventView::Update(w) && is_written(
                w,
                row_id,
                key,
                vector,
                fields,
                extra,
                doc_id,
                text,
            ),
            ChangeEvent::Delete { row_id, doc_id, text } => b@.events[i] matches EventView::Delete { row_id: r, doc_id: d, text: t } && r == row_id.0 && numbers_doc(
                doc_id,
                d,
            ) && reads(text, t),
        },
{
}

/// Whether what is seen as written has these parts.
pub open spec fn is_written(
    w: WrittenView,
    row_id: RowId,
    key: String,
    vector: Vec<u32>,
    fields: PayloadRow,
    extra: Option<String>,
    doc_id: Option<DocId>,
    text: Option<String>,
) -> bool {
    &&& w.row_id == row_id.0
    &&& w.key == key@
    &&& w.vector == vector@
    &&& w.fields == fields@
    &&& reads(extra, w.extra)
    &&& numbers_doc(doc_id, w.doc_id)
    &&& reads(text, w.text)
}

/// A snapshot is seen whole.
pub proof fn snapshots_are_seen_whole(s: CollectionSnapshot, i: int)
    requires
        0 <= i < s.rows@.len(),
    ensures
        s@.applied == s.last_applied_lsn.0,
        s@.next_row == s.next_row_id,
        s@.next_doc == s.next_doc_id,
        s@.rows.len() == s.rows@.len(),
        s@.docs.len() == s.docs@.len(),
        s@.txns.len() == s.txn_entries@.len(),
        forall|j: int| 0 <= j < s.docs@.len() ==> #[trigger] s@.docs[j] == s.docs@[j]@,
        forall|j: int| 0 <= j < s.txn_entries@.len() ==> #[trigger] s@.txns[j] == s.txn_entries@[j]@,
        ({
            let r = s.rows@[i];
            let v = s@.rows[i];
            &&& v.row_id == r.row_id.0
            &&& v.live == r.live
            &&& v.row.key == r.key@
            &&& v.row.vector == r.vector@
            &&& v.row.fields == r.fields@
            &&& reads(r.extra, v.row.extra)
            &&& reads(r.text, v.row.text)
            &&& numbers_doc(r.doc_id, v.row.doc_id)
            &&& v.row.chunk_ord == r.chunk_ord
        }),
{
}

/// A registry's entry is seen whole.
pub proof fn registry_entries_are_seen_whole(e: RegistryEntry)
    ensures
        e@.name == e.name@,
        e@.dim == e.dim,
        e@.metric == e.metric,
        e@.schema.len() == e.schema@.len(),
        forall|i: int| 0 <= i < e.schema@.len() ==> (#[trigger] e@.schema[i]).0 == e.schema@[i].0@ && e@.schema[i].1 == e.schema@[i].1,
{
}

/// What a live index has been told of is seen whole.
pub proof fn live_indexes_are_seen_whole(x: LiveIndex)
    ensures
        x@.dim == x.dim,
        x@.metric == x.metric,
        x@.baked_row_count == x.baked_row_count,
        x@.params == x.params,
        x@.tombstones == bitmap::rows_of(x.tombstones),
        x@.delta.len() == x.delta@.len(),
        forall|i: int| 0 <= i < x.delta@.len() ==> (#[trigger] x@.delta[i]).0 == x.delta@[i].0.0 && x@.delta[i].1 == x.delta@[i].1@,
{
}

/// An error is seen with its kind and with all that it says.
pub proof fn errors_are_seen_whole(e: StorageError, f: FilterError)
    ensures
        e matches StorageError::CollectionNotFound(s) ==> e@ == StorageErrorView::CollectionNotFound(s@),
        e matches StorageError::CollectionAlreadyExists(s) ==> e@ == StorageErrorView::CollectionAlreadyExists(s@),
        e matches StorageError::KeyNotFound(s) ==> e@ == StorageErrorView::KeyNotFound(s@),
        e matches StorageError::RowNotFound(r) ==> e@ == StorageErrorView::RowNotFound(r.0),
        e matches StorageError::DocumentNotFound(s) ==> e@ == StorageErrorView::DocumentNotFound(s@),
        e matches StorageError::DimensionMismatch { coll, expected, got } ==> e@ == (StorageErrorView::DimensionMismatch { coll: coll@, expected, got }),
        e matches StorageError::InvalidArgument(s) ==> e@ == StorageErrorView::InvalidArgument(s@),
        e matches StorageError::Filter(g) ==> e@ == StorageErrorView::Filter(g@),
        e matches StorageError::Wal(s) ==> e@ == StorageErrorView::Wal(s@),
        e matches StorageError::UndoConflict { txn, conflicts } ==> e@ matches StorageErrorView::UndoConflict { txn: t, conflicts: c } && t == txn.0 && c
            == txn_index::conflict_views(conflicts@),
        f matches FilterError::UnknownField(s) ==> f@ == FilterErrorView::UnknownField(s@),
        f matches FilterError::TypeMismatch { field, expected, actual } ==> f@ == (FilterErrorView::TypeMismatch { field: field@, expected: expected@, actual: actual@ }),
        f is TextMatchUnsupported ==> f@ is TextMatchUnsupported,
        f matches FilterError::FieldAlreadyExists(s) ==> f@ == FilterErrorView::FieldAlreadyExists(s@),
{
}

/// A result is what was expected exactly when it succeeds where no error is
/// expected, and otherwise fails with that error.
pub proof fn results_are_what_is_expected(r: StorageResult<()>, e: Option<StorageErrorView>)
    ensures
        recovery::result_is(r, e) <==> (r is Ok && e is None) || (r is Err && e is Some && r->Err_0@ == e->0),
{
}

/// The same of a compiled filter, of a vector that was read and of a frame.
pub proof fn other_results_are_what_is_expected(
    m: Result<RoaringBitmap, FilterError>,
    want: payload::MaskView,
    v: Result<Vec<u32>, WalError>,
    i: Result<Option<Vec<u32>>, WalError>,
    d: Result<Option<(DecodedFrame, usize)>, ProtoError>,
)
    ensures
        payload::mask_is(m, want) <==> (m is Ok && want is Ok && bitmap::rows_of(m->Ok_0) == want->Ok_0) || (m is Err && want is Err && m->Err_0@ == want->Err_0),
        match v {
            Ok(x) => encoding::vector_result(v) == Ok::<Seq<u32>, WalErrorView>(x@),
            Err(e) => encoding::vector_result(v) == Err::<Seq<u32>, WalErrorView>(e@),
        },
        match i {
            Ok(Some(x)) => wal::image_vector_result(i) == Ok::<Option<Seq<u32>>, WalErrorView>(Some(x@)),
            Ok(None) => wal::image_vector_result(i) == Ok::<Option<Seq<u32>>, WalErrorView>(None),
            Err(e) => wal::image_vector_result(i) == Err::<Option<Seq<u32>>, WalErrorView>(e@),
        },
        match d {
            Ok(Some((f, n))) => codec::decode_result(d) matches Ok(Some((w, k))) && k == n && w.version == f.version && w.kind == f.kind && w.request_id == f.request_id
                && w.body == f.body@,
            Ok(None) => codec::decode_result(d) matches Ok(None),
            Err(e) => codec::decode_result(d) matches Err(x) && x == e,
        },
{
}

/// An image without a vector has none, and one with a vector has the one that
/// its text stands for.
pub proof fn an_image_has_the_vector_of_its_text(p: wal::ImageView)
    ensures
        p.vector_b64 is None ==> wal::image_vector(p) == Ok::<Option<Seq<u32>>, WalErrorView>(None),
        p.vector_b64 matches Some(s) ==> match encoding::decoded_vector(s) {
            Ok(v) => wal::image_vector(p) == Ok::<Option<Seq<u32>>, WalErrorView>(Some(v)),
            Err(e) => wal::image_vector(p) == Err::<Option<Seq<u32>>, WalErrorView>(e),
        },
{
}

/// A refusal to undo carries the transaction and all of its conflicts.
pub proof fn a_conflict_error_carries_every_conflict(ix: txn_index::IndexView, t: u128, e: StorageErrorView)
    requires
        undo::is_conflict(ix, t, e),
    ensures
        e matches StorageErrorView::UndoConflict { txn, conflicts } && txn == t && txn_index::all_conflicts(ix, ix.entries[t], conflicts),
{
}

/// Lines are seen with their lengths, and with their records where these can
/// be trusted; segments, with their ids and all of their lines in order.
pub proof fn lines_are_seen_with_their_records(segments: Seq<SegmentLines>, i: int, j: int)
    requires
        0 <= i < segments.len(),
        0 <= j < segments[i].lines@.len(),
    ensures
        wal::segment_views(segments).len() == segments.len(),
        wal::segment_views(segments)[i].0 == segments[i].segment_id,
        wal::segment_views(segments)[i].1.len() == segments[i].lines@.len(),
        ({
            let line = segments[i].lines@[j];
            let seen = wal::segment_views(segments)[i].1[j];
            &&& seen.len == line.byte_len
            &&& line.read is None ==> seen.record is None
            &&& line.read matches Some(read) ==> if encoding::checksum_text(encoding::crc32c_of(read.unsealed@)) == read.record.checksum@ {
                seen.record == Some(read.record@)
            } else {
                seen.record is None
            }
        }),
{
}

/// Lines that were received are taken as their records, in order.
pub proof fn received_lines_are_taken_in_order(lines: Seq<ReceivedLine>, i: int)
    requires
        0 <= i < lines.len(),
        lines[i] is Ok,
    ensures
        replication::line_records(lines).len() == lines.len(),
        replication::line_records(lines)[i] == (lines[i]->Ok_0).record@,
{
}

/// A position that may be absent is seen as its bits.
pub proof fn positions_are_seen_as_their_bits(p: Option<Lsn>, r: Option<RowId>)
    ensures
        p matches Some(x) ==> wal::lsn_bits(p) == Some(x.0),
        p is None ==> wal::lsn_bits(p) is None,
        r matches Some(x) ==> wal::opt_row(r) == Some(x.0),
        r is None ==> wal::opt_row(r) is None,
{
}

/// A quantiser is seen with all of its posting lists, in order; a mask, with
/// its rows and how many it says they are.
pub proof fn quantisers_are_seen_whole(q: CoarseQuantizer, filter: Option<&FilterMask>, i: int, j: int)
    ensures
        q matches CoarseQuantizer::Flat { centroids, posting_lists } ==> q@ is Flat && q@->Flat_0.len() == posting_lists@.len() && (0 <= i < posting_lists@.len()
            ==> q@->Flat_0[i] == bitmap::rows_of(posting_lists@[i])),
        q matches CoarseQuantizer::Hierarchical { parents, leaves_by_parent } ==> q@ is Hierarchical && q@->Hierarchical_0.len() == leaves_by_parent@.len() && (0 <= i
            < leaves_by_parent@.len() ==> q@->Hierarchical_0[i].len() == leaves_by_parent@[i]@.len() && (0 <= j < leaves_by_parent@[i]@.len() ==> q@->Hierarchical_0[i][j]
            == bitmap::rows_of(leaves_by_parent@[i]@[j].posting_list))),
        filter is None ==> coarse::mask_of(filter) is None,
        filter matches Some(f) ==> coarse::mask_of(filter) == Some((bitmap::rows_of(f.allowed), f.estimated_cardinality)),
{
}

/// A store is seen with all of its collections and entries, in order.
pub proof fn stores_are_seen_whole(s: Storage, i: int)
    ensures
        s@.durable == s.durable,
        s@.collections.len() == s.collections@.len(),
        s@.registry.len() == s.registry@.len(),
        0 <= i < s.registry@.len() ==> s@.registry[i] == s.registry@[i]@,
        0 <= i < s.collections@.len() ==> {
            let c = s.collections@[i];
            let v = s@.collections[i];
            &&& v.name == c.name@
            &&& v.dim == c.dim
            &&& v.metric == c.metric
            &&& v.state == c.inner@
            &&& v.wal == c.wal
            &&& v.outbox.len() == c.outbox@.len()
            &&& forall|j: int| 0 <= j < c.outbox@.len() ==> #[trigger] v.outbox[j] == c.outbox@[j]@
        },
{
}

/// Texts are seen each in its place.
pub proof fn texts_are_seen_in_order(s: Seq<String>, i: int)
    requires
        0 <= i < s.len(),
    ensures
        text::texts(s).len() == s.len(),
        text::texts(s)[i] == s[i]@,
{
}

} // verus!
