//! Log records before the log has given them a position.

use crate::encoding;
use crate::encoding::encode_vector;
use crate::fields::{FieldsView, PayloadRow};
use crate::ids::{DocId, PrincipalId, RowId, SessionId, TxnId};
use crate::lsn::Lsn;
use crate::model::{RequestCtx, Timestamp};
use crate::state::{RowRecord, RowView};
use crate::text;
use crate::text::copy_opt;
use crate::wal;
use crate::wal::{ImageView, RecordView, WalActor, WalDocMeta, WalOp, WalPayload, WalRecord, WAL_FORMAT_VERSION};
use vstd::prelude::*;

verus! {

/// The row part of a record: what is written, and what was there before.
pub struct ChangeView {
    pub op: WalOp,
    pub row_id: u64,
    pub key: Seq<char>,
    pub doc_id: Option<u64>,
    pub doc_key: Option<Seq<char>>,
    pub chunk_ord: Option<u32>,
    pub payload: Option<ImageView>,
    pub undo: Option<ImageView>,
    pub params: Option<WalDocMeta>,
}

/// Whose transaction a record belongs to.
pub struct OriginView {
    pub actor: WalActor,
    pub session: Seq<char>,
    pub coll: Seq<char>,
    pub txn: u128,
    pub caused_by: Option<u128>,
}

/// The actor that a request's records name.
pub open spec fn actor_of(ctx: RequestCtx) -> WalActor {
    WalActor { id: ctx.principal.id, name: ctx.principal.name }
}

/// The origin of a request's records.
pub open spec fn origin(ctx: RequestCtx, coll: Seq<char>, txn: u128) -> OriginView {
    OriginView { actor: actor_of(ctx), session: ctx.session.0@, coll, txn, caused_by: None }
}

/// Record `i` of `n` of a transaction, with no position and no checksum yet.
pub open spec fn drafted(o: OriginView, c: ChangeView, ts: Timestamp, i: nat, n: nat) -> RecordView {
    RecordView {
        v: WAL_FORMAT_VERSION,
        lsn: 0,
        ts,
        txn: o.txn,
        actor: o.actor,
        session: o.session,
        coll: o.coll,
        op: c.op,
        row_id: Some(c.row_id),
        key: Some(c.key),
        doc_id: c.doc_id,
        doc_key: c.doc_key,
        chunk_ord: c.chunk_ord,
        payload: c.payload,
        undo: c.undo,
        caused_by: o.caused_by,
        txn_seq: ((i + 1) as u32, n as u32),
        params: c.params,
        checksum: Seq::empty(),
    }
}

/// The records of a transaction that makes these changes.
pub open spec fn drafted_all(o: OriginView, changes: Seq<ChangeView>, stamps: Seq<Timestamp>) -> Seq<RecordView> {
    Seq::new(changes.len(), |i: int| drafted(o, changes[i], stamps[i], i as nat, changes.len()))
}

/// The image of a row with these contents.
pub open spec fn image(vector: Seq<u32>, text: Option<Seq<char>>, fields: FieldsView, extra: Option<Seq<char>>) -> ImageView {
    ImageView {
        vector_b64: Some(encoding::base64_text(encoding::vector_bytes(vector))),
        text,
        fields: Some(fields),
        extra,
    }
}

/// The image of a stored row.
pub open spec fn row_image(r: RowView) -> ImageView {
    image(r.vector, r.text, r.fields, r.extra)
}

/// A row part under construction.
pub struct RowChange {
    pub op: WalOp,
    pub row_id: RowId,
    pub key: String,
    pub doc_id: Option<DocId>,
    pub doc_key: Option<String>,
    pub chunk_ord: Option<u32>,
    pub payload: Option<WalPayload>,
    pub undo: Option<WalPayload>,
    pub params: Option<WalDocMeta>,
}

impl View for RowChange {
    type V = ChangeView;

    open spec fn view(&self) -> ChangeView {
        ChangeView {
            op: self.op,
            row_id: self.row_id.0,
            key: self.key@,
            doc_id: wal::opt_doc(self.doc_id),
            doc_key: text::opt_text(self.doc_key),
            chunk_ord: self.chunk_ord,
            payload: wal::opt_image(self.payload),
            undo: wal::opt_image(self.undo),
            params: self.params,
        }
    }
}

/// The actor that a request's records name.
pub fn actor(ctx: &RequestCtx) -> (r: WalActor)
    ensures
        r == actor_of(*ctx),
{
    WalActor { id: PrincipalId(ctx.principal.id.0.clone()), name: ctx.principal.name.clone() }
}

/// Builds the image of a row, from which its vector can be read back.
pub fn make_image(vector: &Vec<u32>, text: Option<String>, fields: &PayloadRow, extra: &Option<String>) -> (r: WalPayload)
    ensures
        r@ == image(vector@, text::opt_text(text), fields@, text::opt_text(*extra)),
        encoding::encodes(vector@),
{
    WalPayload {
        vector_b64: Some(encode_vector(vector)),
        text,
        fields: Some(fields.clone()),
        extra: copy_opt(extra),
    }
}

/// Builds the image of a stored row.
pub fn make_row_image(row: &RowRecord) -> (r: WalPayload)
    ensures
        r@ == row_image(row@),
        encoding::encodes(row@.vector),
{
    make_image(&row.vector, copy_opt(&row.text), &row.fields, &row.extra)
}

/// Builds record `i` of `n` of a request's transaction.
pub fn make_record(ctx: &RequestCtx, coll: &String, txn: TxnId, ts: Timestamp, change: RowChange, i: u32, n: u32) -> (r: WalRecord)
    requires
        i < n,
    ensures
        r@ == drafted(origin(*ctx, coll@, txn.0), change@, ts, i as nat, n as nat),
{
    WalRecord {
        v: WAL_FORMAT_VERSION,
        lsn: Lsn::zero(),
        ts,
        txn,
        actor: actor(ctx),
        session: SessionId(ctx.session.0.clone()),
        coll: coll.clone(),
        op: change.op,
        row_id: Some(change.row_id),
        key: Some(change.key),
        doc_id: change.doc_id,
        doc_key: change.doc_key,
        chunk_ord: change.chunk_ord,
        payload: change.payload,
        undo: change.undo,
        caused_by: None,
        txn_seq: (i + 1, n),
        params: change.params,
        checksum: String::new(),
    }
}

} // verus!
