//! The write-ahead log: records, their summaries, segment names, the append
//! cursor, and replay.

use crate::encoding;
use crate::encoding::{checksum_of, decode_vector, quote, WalError};
use crate::fields;
use crate::fields::{copy_opt_fields, FieldsView, PayloadRow};
use crate::ids::{DocId, PrincipalId, RowId, SessionId, TxnId};
use crate::lsn;
use crate::lsn::Lsn;
use crate::model::{ChunkSpec, ModelFingerprint, Timestamp};
use crate::text;
use crate::text::{copy_opt, decimal_string, push_padded, same_text};
use vstd::prelude::*;
use vstd::string::*;

verus! {

/// The version that new records carry.
pub const WAL_FORMAT_VERSION: u8 = 1;

/// What a record does.
#[derive(Clone, Copy, PartialEq, Eq, Debug, Structural)]
pub enum WalOp {
    Insert,
    Update,
    Delete,
    CreateCollection,
    DropCollection,
    AlterSchema,
    Reindex,
}

/// A row's state before or after a record: all absent for "nothing".
#[derive(PartialEq, Debug)]
pub struct WalPayload {
    pub vector_b64: Option<String>,
    pub text: Option<String>,
    pub fields: Option<PayloadRow>,
    pub extra: Option<String>,
}

/// The contents of a [`WalPayload`].
pub struct ImageView {
    pub vector_b64: Option<Seq<char>>,
    pub text: Option<Seq<char>>,
    pub fields: Option<FieldsView>,
    pub extra: Option<Seq<char>>,
}

impl View for WalPayload {
    type V = ImageView;

    open spec fn view(&self) -> ImageView {
        ImageView {
            vector_b64: text::opt_text(self.vector_b64),
            text: text::opt_text(self.text),
            fields: fields::opt_fields(self.fields),
            extra: text::opt_text(self.extra),
        }
    }
}

/// What an image's vector stands for: nothing where it has none.
pub open spec fn image_vector(p: ImageView) -> Result<Option<Seq<u32>>, encoding::WalErrorView> {
    match p.vector_b64 {
        None => Ok(None),
        Some(s) => match encoding::decoded_vector(s) {
            Ok(v) => Ok(Some(v)),
            Err(e) => Err(e),
        },
    }
}

/// What reading an image's vector came to.
pub open spec fn image_vector_result(r: Result<Option<Vec<u32>>, WalError>) -> Result<Option<Seq<u32>>, encoding::WalErrorView> {
    match r {
        Ok(Some(v)) => Ok(Some(v@)),
        Ok(None) => Ok(None),
        Err(e) => Err(e@),
    }
}

impl WalPayload {
    /// The image's vector, if it has one.
    pub fn vector(&self) -> (r: Result<Option<Vec<u32>>, WalError>)
        ensures
            image_vector_result(r) == image_vector(self@),
    {
        match &self.vector_b64 {
            None => Ok(None),
            Some(s) => match decode_vector(s.as_str()) {
                Ok(v) => Ok(Some(v)),
                Err(e) => Err(e),
            },
        }
    }
}

impl Clone for WalPayload {
    fn clone(&self) -> (r: Self)
        ensures
            r@ == self@,
    {
        WalPayload {
            vector_b64: copy_opt(&self.vector_b64),
            text: copy_opt(&self.text),
            fields: copy_opt_fields(&self.fields),
            extra: copy_opt(&self.extra),
        }
    }
}

/// The contents of an optional image.
pub open spec fn opt_image(p: Option<WalPayload>) -> Option<ImageView> {
    match p {
        Some(i) => Some(i@),
        None => None,
    }
}

/// A copy of an optional image.
pub fn copy_opt_image(p: &Option<WalPayload>) -> (r: Option<WalPayload>)
    ensures
        opt_image(r) == opt_image(*p),
{
    match p {
        Some(i) => Some(i.clone()),
        None => None,
    }
}

/// Who wrote a record.
#[derive(PartialEq, Debug)]
pub struct WalActor {
    pub id: PrincipalId,
    pub name: String,
}

impl Clone for WalActor {
    fn clone(&self) -> (r: Self)
        ensures
            r == *self,
    {
        WalActor { id: PrincipalId(self.id.0.clone()), name: self.name.clone() }
    }
}

/// A document's metadata, carried on each of its records.
#[derive(PartialEq, Debug)]
pub struct WalDocMeta {
    pub version: u32,
    pub source: Option<String>,
    pub chunk_spec: ChunkSpec,
    pub chunker_version: u32,
    pub embedding_model: ModelFingerprint,
}

impl Clone for WalDocMeta {
    fn clone(&self) -> (r: Self)
        ensures
            r == *self,
    {
        WalDocMeta {
            version: self.version,
            source: copy_opt(&self.source),
            chunk_spec: self.chunk_spec.clone(),
            chunker_version: self.chunker_version,
            embedding_model: self.embedding_model.clone(),
        }
    }
}

/// A copy of optional metadata.
pub fn copy_opt_meta(p: &Option<WalDocMeta>) -> (r: Option<WalDocMeta>)
    ensures
        r == *p,
{
    match p {
        Some(m) => Some(m.clone()),
        None => None,
    }
}

/// One line of the log. `undo` holds what is needed to reverse it.
#[derive(PartialEq, Debug)]
pub struct WalRecord {
    pub v: u8,
    pub lsn: Lsn,
    pub ts: Timestamp,
    pub txn: TxnId,
    pub actor: WalActor,
    pub session: SessionId,
    pub coll: String,
    pub op: WalOp,
    pub row_id: Option<RowId>,
    pub key: Option<String>,
    pub doc_id: Option<DocId>,
    pub doc_key: Option<String>,
    pub chunk_ord: Option<u32>,
    pub payload: Option<WalPayload>,
    pub undo: Option<WalPayload>,
    /// On a compensating record, the transaction it reverses.
    pub caused_by: Option<TxnId>,
    /// `(i, n)`: record `i` of `n` in its transaction.
    pub txn_seq: (u32, u32),
    /// Document metadata, on the records of document operations.
    pub params: Option<WalDocMeta>,
    pub checksum: String,
}

/// The contents of a [`WalRecord`].
pub struct RecordView {
    pub v: u8,
    pub lsn: u64,
    pub ts: Timestamp,
    pub txn: u128,
    pub actor: WalActor,
    pub session: Seq<char>,
    pub coll: Seq<char>,
    pub op: WalOp,
    pub row_id: Option<u64>,
    pub key: Option<Seq<char>>,
    pub doc_id: Option<u64>,
    pub doc_key: Option<Seq<char>>,
    pub chunk_ord: Option<u32>,
    pub payload: Option<ImageView>,
    pub undo: Option<ImageView>,
    pub caused_by: Option<u128>,
    pub txn_seq: (u32, u32),
    pub params: Option<WalDocMeta>,
    pub checksum: Seq<char>,
}

/// The number in an optional row id.
pub open spec fn opt_row(r: Option<RowId>) -> Option<u64> {
    match r {
        Some(i) => Some(i.0),
        None => None,
    }
}

/// The number in an optional document id.
pub open spec fn opt_doc(r: Option<DocId>) -> Option<u64> {
    match r {
        Some(i) => Some(i.0),
        None => None,
    }
}

/// The bits in an optional transaction id.
pub open spec fn opt_txn(r: Option<TxnId>) -> Option<u128> {
    match r {
        Some(i) => Some(i.0),
        None => None,
    }
}

impl View for WalRecord {
    type V = RecordView;

    open spec fn view(&self) -> RecordView {
        RecordView {
            v: self.v,
            lsn: self.lsn.0,
            ts: self.ts,
            txn: self.txn.0,
            actor: self.actor,
            session: self.session.0@,
            coll: self.coll@,
            op: self.op,
            row_id: opt_row(self.row_id),
            key: text::opt_text(self.key),
            doc_id: opt_doc(self.doc_id),
            doc_key: text::opt_text(self.doc_key),
            chunk_ord: self.chunk_ord,
            payload: opt_image(self.payload),
            undo: opt_image(self.undo),
            caused_by: opt_txn(self.caused_by),
            txn_seq: self.txn_seq,
            params: self.params,
            checksum: self.checksum@,
        }
    }
}

impl Clone for WalRecord {
    fn clone(&self) -> (r: Self)
        ensures
            r@ == self@,
    {
        WalRecord {
            v: self.v,
            lsn: self.lsn,
            ts: self.ts,
            txn: self.txn,
            actor: self.actor.clone(),
            session: SessionId(self.session.0.clone()),
            coll: self.coll.clone(),
            op: self.op,
            row_id: self.row_id,
            key: copy_opt(&self.key),
            doc_id: self.doc_id,
            doc_key: copy_opt(&self.doc_key),
            chunk_ord: self.chunk_ord,
            payload: copy_opt_image(&self.payload),
            undo: copy_opt_image(&self.undo),
            caused_by: self.caused_by,
            txn_seq: self.txn_seq,
            params: copy_opt_meta(&self.params),
            checksum: self.checksum.clone(),
        }
    }
}

/// The contents of a list of records.
pub open spec fn record_views(s: Seq<WalRecord>) -> Seq<RecordView> {
    Seq::new(s.len(), |i: int| s[i]@)
}

/// A copy of records `from..to`.
pub fn copy_records(v: &Vec<WalRecord>, from: usize, to: usize) -> (r: Vec<WalRecord>)
    requires
        from <= to <= v@.len(),
    ensures
        record_views(r@) == record_views(v@).subrange(from as int, to as int),
{
    let mut out: Vec<WalRecord> = Vec::new();
    let mut i: usize = from;
    while i < to
        invariant
            from <= i <= to <= v@.len(),
            out@.len() == i - from,
            forall|k: int| 0 <= k < out@.len() ==> (#[trigger] out@[k])@ == v@[from + k]@,
        decreases to - i,
    {
        out.push(v[i].clone());
        i += 1;
    }
    assert(record_views(out@) =~= record_views(v@).subrange(from as int, to as int));
    out
}

/// The first document key that the records from `from` on carry.
pub open spec fn first_doc_key(s: Seq<RecordView>, from: nat) -> Option<Seq<char>>
    decreases s.len() - from,
{
    if from >= s.len() {
        None
    } else if s[from as int].doc_key is Some {
        s[from as int].doc_key
    } else {
        first_doc_key(s, from + 1)
    }
}

/// Whether all records have the operation `op`.
pub open spec fn all_op(s: Seq<RecordView>, op: WalOp) -> bool {
    forall|i: int| 0 <= i < s.len() ==> (#[trigger] s[i]).op == op
}

/// The text in an optional text, empty where there is none.
pub open spec fn text_or_empty(s: Option<Seq<char>>) -> Seq<char> {
    match s {
        Some(t) => t,
        None => Seq::empty(),
    }
}

/// A short description of a transaction's records.
pub open spec fn txn_summary(s: Seq<RecordView>) -> Seq<char> {
    if s.len() == 0 {
        "empty transaction"@
    } else {
        let n = text::decimal(s.len());
        let coll = encoding::quoted(s[0].coll);
        match first_doc_key(s, 0) {
            Some(dk) => if all_op(s, WalOp::Insert) {
                "put_document "@ + encoding::quoted(dk) + " ("@ + n + " chunks)"@
            } else if all_op(s, WalOp::Delete) {
                "delete_document "@ + encoding::quoted(dk) + " ("@ + n + " chunks)"@
            } else {
                "replace_document "@ + encoding::quoted(dk) + " ("@ + n + " records)"@
            },
            None => if all_op(s, WalOp::Delete) {
                if s.len() == 1 {
                    "delete "@ + encoding::quoted(text_or_empty(s[0].key)) + " in "@ + coll
                } else {
                    "delete ("@ + n + " rows) in "@ + coll
                }
            } else if s.len() == 1 {
                "put "@ + encoding::quoted(text_or_empty(s[0].key)) + " in "@ + coll
            } else {
                "put_batch ("@ + n + " rows) in "@ + coll
            },
        }
    }
}

fn find_doc_key(records: &[WalRecord]) -> (r: Option<String>)
    ensures
        text::opt_text(r) == first_doc_key(record_views(records@), 0),
{
    let ghost s = record_views(records@);
    let mut i: usize = 0;
    while i < records.len()
        invariant
            i <= records@.len(),
            s == record_views(records@),
            first_doc_key(s, 0) == first_doc_key(s, i as nat),
        decreases records@.len() - i,
    {
        assert(s[i as int] == records@[i as int]@);
        match &records[i].doc_key {
            Some(k) => { return Some(k.clone()); },
            None => {},
        }
        i += 1;
    }
    None
}

fn all_have_op(records: &[WalRecord], op: WalOp) -> (r: bool)
    ensures
        r == all_op(record_views(records@), op),
{
    let ghost s = record_views(records@);
    let mut i: usize = 0;
    while i < records.len()
        invariant
            i <= records@.len(),
            s == record_views(records@),
            forall|k: int| 0 <= k < i ==> (#[trigger] s[k]).op == op,
        decreases records@.len() - i,
    {
        if records[i].op != op {
            assert(s[i as int].op != op);
            return false;
        }
        i += 1;
    }
    true
}

/// A short description of a transaction: the same text when it commits and
/// when the transaction index is rebuilt from the log.
pub fn summarize_txn(records: &[WalRecord]) -> (r: String)
    ensures
        r@ == txn_summary(record_views(records@)),
{
    if records.len() == 0 {
        return "empty transaction".to_owned();
    }
    let ghost s = record_views(records@);
    assert(s[0] == records@[0]@);
    let n = decimal_string(records.len() as u64);
    let coll = quote(records[0].coll.as_str());
    let all_insert = all_have_op(records, WalOp::Insert);
    let all_delete = all_have_op(records, WalOp::Delete);
    match find_doc_key(records) {
        Some(dk) => {
            let mut out = if all_insert {
                "put_document ".to_owned()
            } else if all_delete {
                "delete_document ".to_owned()
            } else {
                "replace_document ".to_owned()
            };
            out.append(quote(dk.as_str()).as_str());
            out.append(" (");
            out.append(n.as_str());
            if all_insert || all_delete {
                out.append(" chunks)");
            } else {
                out.append(" records)");
            }
            out
        },
        None => {
            let key = match &records[0].key {
                Some(k) => k.clone(),
                None => String::new(),
            };
            assert(key@ == text_or_empty(s[0].key));
            if records.len() == 1 {
                let mut out = if all_delete { "delete ".to_owned() } else { "put ".to_owned() };
                out.append(quote(key.as_str()).as_str());
                out.append(" in ");
                out.append(coll.as_str());
                out
            } else {
                let mut out = if all_delete { "delete (".to_owned() } else { "put_batch (".to_owned() };
                out.append(n.as_str());
                out.append(" rows) in ");
                out.append(coll.as_str());
                out
            }
        },
    }
}

/// The file name of a log segment.
pub open spec fn segment_name(id: u32) -> Seq<char> {
    "segment-"@ + text::zero_padded(text::decimal(id as nat), 10) + ".wal"@
}

/// The segment id in a file name, if it is a segment's.
pub open spec fn named_segment(name: Seq<char>) -> Option<nat> {
    text::framed_number(name, "segment-"@, ".wal"@, u32::MAX as nat)
}

/// The file name of a log segment.
pub fn segment_path(id: u32) -> (r: String)
    ensures
        r@ == segment_name(id),
{
    let mut out = "segment-".to_owned();
    push_padded(&mut out, id as u64, 10, 10);
    out.append(".wal");
    out
}

/// The segment id in a file name, if it is a segment's.
pub fn segment_id_from_name(name: &str) -> (r: Option<u32>)
    ensures
        r matches Some(v) ==> named_segment(name@) == Some(v as nat),
        r is None ==> named_segment(name@) is None,
{
    match text::parse_framed(name, "segment-", ".wal", u32::MAX as u64) {
        Some(v) => Some(v as u32),
        None => None,
    }
}

/// A segment's file name gives its id back.
pub proof fn segment_name_round_trips(id: u32)
    ensures
        named_segment(segment_name(id)) == Some(id as nat),
{
    text::framed_number_round_trips(id as nat, "segment-"@, ".wal"@, 10, u32::MAX as nat);
}

/// The ids of the segments among some file names, in the names' order.
pub open spec fn named_segments(names: Seq<Seq<char>>) -> Seq<u32>
    decreases names.len(),
{
    if names.len() == 0 {
        Seq::empty()
    } else {
        match named_segment(names.last()) {
            Some(id) => named_segments(names.drop_last()).push(id as u32),
            None => named_segments(names.drop_last()),
        }
    }
}

/// Whether a list is ascending.
pub open spec fn ascending(s: Seq<u32>) -> bool {
    forall|i: int, j: int| 0 <= i < j < s.len() ==> s[i] <= s[j]
}

/// The segment ids among some file names, ascending.
pub fn list_segment_ids(names: &Vec<String>) -> (r: Vec<u32>)
    ensures
        ascending(r@),
        r@.to_multiset() == named_segments(text::texts(names@)).to_multiset(),
{
    let ghost all = text::texts(names@);
    let mut out: Vec<u32> = Vec::new();
    let mut i: usize = 0;
    assert(all.take(0) =~= Seq::<Seq<char>>::empty());
    while i < names.len()
        invariant
            i <= names@.len(),
            all == text::texts(names@),
            ascending(out@),
            out@.to_multiset() == named_segments(all.take(i as int)).to_multiset(),
        decreases names@.len() - i,
    {
        let ghost t = all.take(i + 1);
        assert(t.drop_last() =~= all.take(i as int));
        assert(t.last() == names@[i as int]@);
        match segment_id_from_name(names[i].as_str()) {
            Some(id) => {
                let mut at: usize = out.len();
                while at > 0 && out[at - 1] > id
                    invariant
                        at <= out@.len(),
                        ascending(out@),
                        forall|k: int| at <= k < out@.len() ==> out@[k] > id,
                    decreases at,
                {
                    at -= 1;
                }
                proof {
                    let ghost prev = named_segments(all.take(i as int));
                    vstd::seq_lib::to_multiset_insert(out@, at as int, id);
                    vstd::seq_lib::to_multiset_build(prev, id);
                    assert forall|a: int, b: int| 0 <= a < b < out@.insert(at as int, id).len() implies
                        out@.insert(at as int, id)[a] <= out@.insert(at as int, id)[b] by {
                        if at > 0 {
                            assert(out@[at - 1] <= id);
                        }
                    }
                }
                out.insert(at, id);
            },
            None => {},
        }
        i += 1;
    }
    assert(all.take(i as int) =~= all);
    out
}

/// When the log is forced to disk.
#[derive(Clone, Copy, PartialEq, Debug, Structural)]
pub enum FsyncPolicy {
    /// After every batch.
    Always,
    /// After a batch, once this many nanoseconds have passed since the last time.
    Interval(u128),
    /// Never; only buffers are flushed.
    Never,
}

/// What to do with the segment file after a batch.
#[derive(Clone, Copy, PartialEq, Eq, Debug, Structural)]
pub enum SyncAction {
    /// Flush the buffers and force them to disk.
    FlushAndSync,
    /// Flush the buffers only.
    Flush,
    /// Leave the buffers as they are.
    Nothing,
}

/// Where the next record goes.
#[derive(Clone, Copy, PartialEq, Eq, Debug, Structural)]
pub struct AppendSlot {
    /// The record's position.
    pub lsn: Lsn,
    /// Whether a new segment has to be opened first, after forcing the old
    /// one to disk.
    pub rotated: bool,
}

/// The log's append cursor: it assigns each record its position, one segment
/// at a time, and says when to rotate and when to sync. The bytes themselves
/// are written by the cursor's owner.
#[derive(Clone, Copy, PartialEq, Debug, Structural)]
pub struct WalWriter {
    pub segment_id: u32,
    pub offset: u32,
    pub segment_size_bytes: u32,
    pub fsync: FsyncPolicy,
}

/// Whether the cursor starts a new segment before the next record.
pub open spec fn must_rotate(w: WalWriter) -> bool {
    w.offset >= w.segment_size_bytes && w.offset > 0
}

/// The position that the next record gets.
pub open spec fn next_position(w: WalWriter) -> u64 {
    if must_rotate(w) {
        lsn::packed((w.segment_id + 1) as u32, 0)
    } else {
        lsn::packed(w.segment_id, w.offset)
    }
}

/// The cursor at the end of the last of the segments, whose file has
/// `last_len` bytes.
pub open spec fn opened(ids: Seq<u32>, last_len: u32, segment_size_bytes: u32, fsync: FsyncPolicy) -> WalWriter {
    WalWriter {
        segment_id: if ids.len() > 0 { ids.last() } else { 0 },
        offset: last_len,
        segment_size_bytes,
        fsync,
    }
}

impl WalWriter {
    /// A cursor at the end of the last of the existing segments (ascending),
    /// whose file has `last_len` bytes; at the start of segment 0 if there is none.
    pub fn open(ids: &Vec<u32>, last_len: u32, segment_size_bytes: u32, fsync: FsyncPolicy) -> (r: Self)
        ensures
            r == opened(ids@, last_len, segment_size_bytes, fsync),
    {
        let segment_id: u32 = if ids.len() > 0 { ids[ids.len() - 1] } else { 0 };
        WalWriter { segment_id, offset: last_len, segment_size_bytes, fsync }
    }

    /// Assigns the next record its position, moving to a new segment when the
    /// current one is full.
    pub fn begin_record(&mut self) -> (slot: AppendSlot)
        requires
            must_rotate(*old(self)) ==> old(self).segment_id < u32::MAX,
        ensures
            slot.lsn.0 == next_position(*old(self)),
            slot.rotated == must_rotate(*old(self)),
            final(self).segment_size_bytes == old(self).segment_size_bytes,
            final(self).fsync == old(self).fsync,
            lsn::packed(final(self).segment_id, final(self).offset) == slot.lsn.0,
            slot.rotated ==> final(self).segment_id == old(self).segment_id + 1 && final(self).offset == 0,
            !slot.rotated ==> *final(self) == *old(self),
            forall|len: nat| has_room(*old(self), len) ==>
                #[trigger] moved_past(*old(self), len) == (WalWriter { offset: (final(self).offset + len) as u32, ..*final(self) }),
    {
        let rotated = self.offset >= self.segment_size_bytes && self.offset > 0;
        if rotated {
            self.rotate();
        }
        AppendSlot { lsn: Lsn::new(self.segment_id, self.offset), rotated }
    }

    fn rotate(&mut self)
        requires
            old(self).segment_id < u32::MAX,
        ensures
            *final(self) == (WalWriter { segment_id: (old(self).segment_id + 1) as u32, offset: 0, ..*old(self) }),
    {
        self.segment_id = self.segment_id + 1;
        self.offset = 0;
    }

    /// Moves past a record whose line has `line_len` bytes, the newline not
    /// counted.
    pub fn end_record(&mut self, line_len: u32)
        requires
            old(self).offset + line_len + 1 <= u32::MAX,
        ensures
            *final(self) == (WalWriter { offset: (old(self).offset + line_len + 1) as u32, ..*old(self) }),
    {
        self.offset = self.offset + line_len + 1;
    }

    /// Moves past a replicated record, which keeps the position its leader
    /// gave it. The result says whether it lies in another segment than the
    /// cursor did.
    pub fn place_replicated(&mut self, at: Lsn, line_len: u32) -> (slot: AppendSlot)
        requires
            at.0 % 0x1_0000_0000 + line_len + 1 <= u32::MAX,
        ensures
            slot.lsn == at,
            slot.rotated == (at.0 / 0x1_0000_0000 != old(self).segment_id),
            *final(self) == (WalWriter {
                segment_id: (at.0 / 0x1_0000_0000) as u32,
                offset: (at.0 % 0x1_0000_0000 + line_len + 1) as u32,
                ..*old(self)
            }),
    {
        let rotated = at.segment_id() != self.segment_id;
        self.segment_id = at.segment_id();
        self.offset = at.byte_offset() + line_len + 1;
        AppendSlot { lsn: at, rotated }
    }

    /// What to do after a batch, `elapsed` nanoseconds after the last sync.
    pub fn after_batch(&self, elapsed: u128) -> (r: SyncAction)
        ensures
            r == (match self.fsync {
                FsyncPolicy::Always => SyncAction::FlushAndSync,
                FsyncPolicy::Interval(d) => if elapsed >= d { SyncAction::FlushAndSync } else { SyncAction::Nothing },
                FsyncPolicy::Never => SyncAction::Flush,
            }),
    {
        match self.fsync {
            FsyncPolicy::Always => SyncAction::FlushAndSync,
            FsyncPolicy::Interval(d) => if elapsed >= d { SyncAction::FlushAndSync } else { SyncAction::Nothing },
            FsyncPolicy::Never => SyncAction::Flush,
        }
    }

    /// The cursor's position.
    pub fn current_lsn(&self) -> (r: Lsn)
        ensures
            r.0 == lsn::packed(self.segment_id, self.offset),
    {
        Lsn::new(self.segment_id, self.offset)
    }
}

/// Positions only grow: each record lies after every earlier one, across
/// rotations too.
pub proof fn positions_strictly_increase(w: WalWriter, line_len: u32)
    requires
        must_rotate(w) ==> w.segment_id < u32::MAX - 1,
        !must_rotate(w) ==> w.segment_id < u32::MAX && w.offset + line_len + 1 <= u32::MAX,
        must_rotate(w) ==> line_len + 1 <= u32::MAX,
    ensures
        ({
            let placed = if must_rotate(w) {
                WalWriter { segment_id: (w.segment_id + 1) as u32, offset: (line_len + 1) as u32, ..w }
            } else {
                WalWriter { offset: (w.offset + line_len + 1) as u32, ..w }
            };
            next_position(placed) > next_position(w)
        }),
{
}

/// A cursor opened over what another left behind goes on where that one
/// stopped: no position is given out again, whatever the segment size is now.
pub proof fn reopening_never_rewinds(w: WalWriter, ids: Seq<u32>, segment_size_bytes: u32, fsync: FsyncPolicy)
    requires
        ids.len() > 0,
        ids.last() == w.segment_id,
        w.segment_id < u32::MAX,
    ensures
        next_position(opened(ids, w.offset, segment_size_bytes, fsync)) >= lsn::packed(w.segment_id, w.offset),
        next_position(opened(ids, w.offset, w.segment_size_bytes, fsync)) == next_position(w),
{
}

/// A record read from a line, with the bytes that its checksum covers: the
/// record written out with a placeholder in the checksum's place.
pub struct ReadRecord {
    pub record: WalRecord,
    pub unsealed: Vec<u8>,
}

/// One line of a segment: how many bytes it takes, and what was read from it;
/// nothing where it is no record.
pub struct WalLine {
    pub byte_len: u32,
    pub read: Option<ReadRecord>,
}

/// The lines of one segment.
pub struct SegmentLines {
    pub segment_id: u32,
    pub lines: Vec<WalLine>,
}

/// What a line is worth: its length, and its record if that can be trusted.
pub struct LineView {
    pub len: nat,
    pub record: Option<RecordView>,
}

/// Whether the bytes under a record's checksum have that checksum.
pub open spec fn sealed(r: ReadRecord) -> bool {
    encoding::checksum_text(encoding::crc32c_of(r.unsealed@)) == r.record.checksum@
}

impl View for WalLine {
    type V = LineView;

    open spec fn view(&self) -> LineView {
        LineView {
            len: self.byte_len as nat,
            record: match self.read {
                Some(r) => if sealed(r) { Some(r.record@) } else { None },
                None => None,
            },
        }
    }
}

/// Whether a record that was read carries the checksum of its bytes.
pub fn verify_checksum(r: &ReadRecord) -> (ok: bool)
    ensures
        ok == sealed(*r),
{
    let sum = checksum_of(r.unsealed.as_slice());
    same_text(sum.as_str(), r.record.checksum.as_str())
}

/// The lines of a segment.
pub open spec fn line_views(s: Seq<WalLine>) -> Seq<LineView> {
    Seq::new(s.len(), |i: int| s[i]@)
}

/// A segment's id and lines.
pub open spec fn segment_views(s: Seq<SegmentLines>) -> Seq<(u32, Seq<LineView>)> {
    Seq::new(s.len(), |i: int| (s[i].segment_id, line_views(s[i].lines@)))
}

/// How far a replay has come: the committed records, those of a transaction
/// that is not complete yet, the segment it is in, how many of its bytes have
/// been read, and where the last complete transaction in it ended. Once it has
/// stopped, nothing counts any more.
pub struct Replay {
    pub committed: Seq<RecordView>,
    pub pending: Seq<RecordView>,
    pub segment: u32,
    pub offset: nat,
    pub valid: nat,
    pub stopped: bool,
}

/// Whether a record comes after the given position; all do after none.
pub open spec fn is_newer(r: RecordView, after: Option<u64>) -> bool {
    match after {
        None => true,
        Some(a) => r.lsn > a,
    }
}

/// The records that come after the given position, in order.
pub open spec fn newer(s: Seq<RecordView>, after: Option<u64>) -> Seq<RecordView>
    decreases s.len(),
{
    if s.len() == 0 {
        s
    } else if is_newer(s.last(), after) {
        newer(s.drop_last(), after).push(s.last())
    } else {
        newer(s.drop_last(), after)
    }
}

/// The records buffered once `r` has arrived. Records of one transaction are
/// contiguous, so one of another transaction means that the buffered ones will
/// never be complete.
pub open spec fn buffered(pending: Seq<RecordView>, r: RecordView) -> Seq<RecordView> {
    if pending.len() > 0 && pending.last().txn != r.txn {
        seq![r]
    } else {
        pending.push(r)
    }
}

/// The replay after one more line.
pub open spec fn replay_line(s: Replay, line: LineView, after: Option<u64>) -> Replay {
    if s.stopped {
        s
    } else {
        match line.record {
            None => Replay { stopped: true, ..s },
            Some(r) => {
                let pending = buffered(s.pending, r);
                let offset = s.offset + line.len;
                if r.txn_seq.0 >= r.txn_seq.1 {
                    Replay { committed: s.committed + newer(pending, after), pending: Seq::empty(), offset, valid: offset, ..s }
                } else {
                    Replay { pending, offset, ..s }
                }
            },
        }
    }
}

/// The replay after the first `n` lines.
pub open spec fn replay_lines(s: Replay, lines: Seq<LineView>, n: nat, after: Option<u64>) -> Replay
    decreases n,
{
    if n == 0 {
        s
    } else {
        replay_line(replay_lines(s, lines, (n - 1) as nat, after), lines[n - 1], after)
    }
}

/// The replay at the start of another segment.
pub open spec fn enter_segment(s: Replay, id: u32) -> Replay {
    if s.stopped {
        s
    } else {
        Replay { segment: id, offset: 0, valid: 0, ..s }
    }
}

/// The replay after the first `n` segments.
pub open spec fn replay_segments(segments: Seq<(u32, Seq<LineView>)>, n: nat, after: Option<u64>) -> Replay
    decreases n,
{
    if n == 0 {
        Replay { committed: Seq::empty(), pending: Seq::empty(), segment: 0, offset: 0, valid: 0, stopped: false }
    } else {
        let (id, lines) = segments[n - 1];
        replay_lines(enter_segment(replay_segments(segments, (n - 1) as nat, after), id), lines, lines.len(), after)
    }
}

/// The bytes that a segment's lines take.
pub open spec fn lines_len(lines: Seq<LineView>, n: nat) -> nat
    decreases n,
{
    if n == 0 { 0 } else { lines_len(lines, (n - 1) as nat) + lines[n - 1].len }
}

/// What a replay found.
pub struct WalReplayResult {
    pub records: Vec<WalRecord>,
    /// The id of the last segment read.
    pub last_segment_id: u32,
    /// The length that segment must be cut to before anything is appended:
    /// where its last complete transaction ended.
    pub last_segment_valid_len: u32,
}

proof fn lemma_offset_bound(s: Replay, lines: Seq<LineView>, n: nat, after: Option<u64>)
    requires
        n <= lines.len(),
    ensures
        replay_lines(s, lines, n, after).offset <= s.offset + lines_len(lines, n),
        !replay_lines(s, lines, n, after).stopped ==> replay_lines(s, lines, n, after).offset == s.offset + lines_len(lines, n),
    decreases n,
{
    if n > 0 {
        lemma_offset_bound(s, lines, (n - 1) as nat, after);
    }
}

proof fn lemma_lines_len_mono(lines: Seq<LineView>, a: nat, b: nat)
    requires
        a <= b,
    ensures
        lines_len(lines, a) <= lines_len(lines, b),
    decreases b - a,
{
    if a < b {
        lemma_lines_len_mono(lines, a, (b - 1) as nat);
    }
}

proof fn lemma_stopped_lines(s: Replay, lines: Seq<LineView>, k: nat, n: nat, after: Option<u64>)
    requires
        k <= n,
        replay_lines(s, lines, k, after).stopped,
    ensures
        replay_lines(s, lines, n, after) == replay_lines(s, lines, k, after),
    decreases n - k,
{
    if k < n {
        lemma_stopped_lines(s, lines, k, (n - 1) as nat, after);
    }
}

proof fn lemma_stopped_segments(segments: Seq<(u32, Seq<LineView>)>, k: nat, n: nat, after: Option<u64>)
    requires
        k <= n,
        replay_segments(segments, k, after).stopped,
    ensures
        replay_segments(segments, n, after) == replay_segments(segments, k, after),
    decreases n - k,
{
    if k < n {
        lemma_stopped_segments(segments, k, (n - 1) as nat, after);
        let (id, lines) = segments[n - 1];
        let s = replay_segments(segments, k, after);
        assert(enter_segment(s, id) == s);
        assert(replay_lines(s, lines, 0, after) == s);
        lemma_stopped_lines(s, lines, 0, lines.len(), after);
    }
}

fn push_newer(out: &mut Vec<WalRecord>, pending: &Vec<WalRecord>, after: Option<Lsn>)
    ensures
        record_views(final(out)@) == record_views(old(out)@) + newer(record_views(pending@), lsn_bits(after)),
{
    let ghost p = record_views(pending@);
    let mut i: usize = 0;
    assert(p.take(0) =~= Seq::<RecordView>::empty());
    assert(record_views(out@) =~= record_views(old(out)@) + newer(p.take(0), lsn_bits(after)));
    while i < pending.len()
        invariant
            i <= pending@.len(),
            p == record_views(pending@),
            record_views(out@) == record_views(old(out)@) + newer(p.take(i as int), lsn_bits(after)),
        decreases pending@.len() - i,
    {
        let ghost t = p.take(i + 1);
        let ghost was = out@;
        assert(t.drop_last() =~= p.take(i as int));
        assert(t.last() == pending@[i as int]@);
        let keep = match after {
            None => true,
            Some(a) => pending[i].lsn.is_after(a),
        };
        if keep {
            out.push(pending[i].clone());
            assert(record_views(out@) =~= record_views(was).push(t.last()));
            assert(record_views(out@) =~= record_views(old(out)@) + newer(t, lsn_bits(after)));
        }
        i += 1;
    }
    assert(p.take(i as int) =~= p);
}

/// The packed word of an optional position.
pub open spec fn lsn_bits(l: Option<Lsn>) -> Option<u64> {
    match l {
        Some(a) => Some(a.0),
        None => None,
    }
}

/// Replays the segments in order. Transactions are buffered until their last
/// record arrives; an incomplete one is discarded whole. Replay stops at the
/// first line that is no trustworthy record. `after` limits which records are
/// returned, not which lines are checked.
pub fn replay_all(segments: &Vec<SegmentLines>, after: Option<Lsn>) -> (r: WalReplayResult)
    requires
        forall|i: int| 0 <= i < segments@.len() ==> lines_len(
            (#[trigger] segment_views(segments@)[i]).1,
            segment_views(segments@)[i].1.len(),
        ) <= u32::MAX,
    ensures
        ({
            let end = replay_segments(segment_views(segments@), segments@.len(), lsn_bits(after));
            &&& record_views(r.records@) == end.committed
            &&& r.last_segment_id == end.segment
            &&& r.last_segment_valid_len == end.valid
        }),
{
    let ghost views = segment_views(segments@);
    let ghost bits = lsn_bits(after);
    let mut records: Vec<WalRecord> = Vec::new();
    let mut pending: Vec<WalRecord> = Vec::new();
    let mut last_segment_id: u32 = 0;
    let mut valid_len: u32 = 0;
    let mut si: usize = 0;
    assert(record_views(records@) =~= Seq::<RecordView>::empty());
    while si < segments.len()
        invariant
            si <= segments@.len(),
            views == segment_views(segments@),
            bits == lsn_bits(after),
            forall|i: int| 0 <= i < segments@.len() ==> lines_len((#[trigger] views[i]).1, views[i].1.len()) <= u32::MAX,
            !replay_segments(views, si as nat, bits).stopped,
            record_views(records@) == replay_segments(views, si as nat, bits).committed,
            record_views(pending@) == replay_segments(views, si as nat, bits).pending,
            last_segment_id == replay_segments(views, si as nat, bits).segment,
            valid_len == replay_segments(views, si as nat, bits).valid,
        decreases segments@.len() - si,
    {
        let ghost (id, lines) = views[si as int];
        let ghost start = enter_segment(replay_segments(views, si as nat, bits), id);
        last_segment_id = segments[si].segment_id;
        valid_len = 0;
        let mut offset: u32 = 0;
        let mut li: usize = 0;
        assert(lines == line_views(segments@[si as int].lines@));
        assert(views[si as int].1 == lines);
        while li < segments[si].lines.len()
            invariant
                si < segments@.len(),
                li <= segments@[si as int].lines@.len(),
                views == segment_views(segments@),
                bits == lsn_bits(after),
                id == segments@[si as int].segment_id,
                lines == line_views(segments@[si as int].lines@),
                lines_len(lines, lines.len()) <= u32::MAX,
                start == enter_segment(replay_segments(views, si as nat, bits), id),
                views[si as int] == (id, lines),
                start.offset == 0,
                start.segment == last_segment_id,
                !replay_lines(start, lines, li as nat, bits).stopped,
                record_views(records@) == replay_lines(start, lines, li as nat, bits).committed,
                record_views(pending@) == replay_lines(start, lines, li as nat, bits).pending,
                last_segment_id == replay_lines(start, lines, li as nat, bits).segment,
                offset == replay_lines(start, lines, li as nat, bits).offset,
                valid_len == replay_lines(start, lines, li as nat, bits).valid,
            decreases segments@[si as int].lines@.len() - li,
        {
            let line = &segments[si].lines[li];
            assert(lines[li as int] == line@);
            let usable = match &line.read {
                Some(read) => verify_checksum(read),
                None => false,
            };
            if !usable {
                proof {
                    lemma_stopped_lines(start, lines, (li + 1) as nat, lines.len(), bits);
                    assert(replay_segments(views, (si + 1) as nat, bits) == replay_lines(start, lines, lines.len(), bits));
                    lemma_stopped_segments(views, (si + 1) as nat, segments@.len(), bits);
                }
                return WalReplayResult { records, last_segment_id, last_segment_valid_len: valid_len };
            }
            proof {
                lemma_offset_bound(start, lines, (li + 1) as nat, bits);
                lemma_lines_len_mono(lines, (li + 1) as nat, lines.len());
            }
            match &line.read {
                Some(read) => {
                    let ghost was = record_views(pending@);
                    offset = offset + line.byte_len;
                    if pending.len() > 0 && pending[pending.len() - 1].txn != read.record.txn {
                        pending = Vec::new();
                    }
                    let ghost kept = pending@;
                    pending.push(read.record.clone());
                    proof {
                        assert(record_views(pending@) =~= record_views(kept).push(read.record@));
                        if was.len() > 0 {
                            assert(was.last().txn == was[was.len() - 1].txn);
                        }
                        assert(record_views(pending@) =~= buffered(was, read.record@));
                    }
                    if read.record.txn_seq.0 >= read.record.txn_seq.1 {
                        push_newer(&mut records, &pending, after);
                        pending = Vec::new();
                        valid_len = offset;
                        assert(record_views(pending@) =~= Seq::<RecordView>::empty());
                    }
                },
                None => {},
            }
            li += 1;
        }
        si += 1;
    }
    WalReplayResult { records, last_segment_id, last_segment_valid_len: valid_len }
}

/// Whether the lines hold, in order, the first of the `of` records of one
/// transaction, all of them trustworthy.
pub open spec fn txn_prefix(lines: Seq<LineView>, of: nat) -> bool {
    &&& lines.len() <= of <= u32::MAX
    &&& forall|i: int| 0 <= i < lines.len() ==> (#[trigger] lines[i]).record is Some
    &&& forall|i: int| 0 <= i < lines.len() ==> (#[trigger] lines[i]).record->0.txn == lines[0].record->0.txn
        && lines[i].record->0.txn_seq == ((i + 1) as u32, of as u32)
}

/// Whether the lines hold one whole transaction.
pub open spec fn whole_txn(lines: Seq<LineView>) -> bool {
    lines.len() > 0 && txn_prefix(lines, lines.len())
}

/// The records that trustworthy lines hold.
pub open spec fn held_records(lines: Seq<LineView>) -> Seq<RecordView> {
    Seq::new(lines.len(), |i: int| lines[i].record->0)
}

/// The lines of several transactions, one after the other.
pub open spec fn txn_lines(txns: Seq<Seq<LineView>>) -> Seq<LineView>
    decreases txns.len(),
{
    if txns.len() == 0 {
        Seq::empty()
    } else {
        txn_lines(txns.drop_last()) + txns.last()
    }
}

proof fn lemma_replay_concat(s: Replay, a: Seq<LineView>, b: Seq<LineView>, n: nat, after: Option<u64>)
    requires
        n <= b.len(),
    ensures
        replay_lines(s, a + b, a.len() + n, after) == replay_lines(replay_lines(s, a, a.len(), after), b, n, after),
    decreases n,
{
    if n == 0 {
        lemma_replay_prefix(s, a, a + b, a.len(), after);
    } else {
        lemma_replay_concat(s, a, b, (n - 1) as nat, after);
        assert((a + b)[a.len() + n - 1] == b[n - 1]);
    }
}

proof fn lemma_replay_prefix(s: Replay, a: Seq<LineView>, b: Seq<LineView>, n: nat, after: Option<u64>)
    requires
        n <= a.len() <= b.len(),
        forall|i: int| 0 <= i < n ==> a[i] == b[i],
    ensures
        replay_lines(s, b, n, after) == replay_lines(s, a, n, after),
    decreases n,
{
    if n > 0 {
        lemma_replay_prefix(s, a, b, (n - 1) as nat, after);
        assert(a[n - 1] == b[n - 1]);
    }
}

proof fn lemma_prefix_pending(s: Replay, lines: Seq<LineView>, of: nat, n: nat, after: Option<u64>)
    requires
        !s.stopped,
        s.pending.len() == 0 || (lines.len() > 0 && s.pending.last().txn != lines[0].record->0.txn),
        txn_prefix(lines, of),
        n <= lines.len(),
        n < of,
    ensures
        ({
            let e = replay_lines(s, lines, n, after);
            &&& !e.stopped
            &&& e.committed == s.committed
            &&& e.valid == s.valid
            &&& e.segment == s.segment
            &&& e.offset == s.offset + lines_len(lines, n)
            &&& n > 0 ==> e.pending == held_records(lines.take(n as int))
            &&& n == 0 ==> e.pending == s.pending
        }),
    decreases n,
{
    if n > 0 {
        lemma_prefix_pending(s, lines, of, (n - 1) as nat, after);
        let e = replay_lines(s, lines, (n - 1) as nat, after);
        let r = lines[n - 1].record->0;
        assert(lines[n - 1].record is Some);
        assert(r.txn_seq == (n as u32, of as u32));
        if n > 1 {
            assert(e.pending.last() == lines[n - 2].record->0);
            assert(lines[n - 2].record->0.txn == lines[0].record->0.txn);
        }
        assert(buffered(e.pending, r) =~= held_records(lines.take(n as int)));
    }
}

/// A transaction whose records all arrive is committed whole, and the log is
/// then valid up to its end.
pub proof fn whole_transaction_is_committed(s: Replay, lines: Seq<LineView>, after: Option<u64>)
    requires
        !s.stopped,
        s.pending.len() == 0 || s.pending.last().txn != lines[0].record->0.txn,
        whole_txn(lines),
    ensures
        ({
            let e = replay_lines(s, lines, lines.len(), after);
            &&& !e.stopped
            &&& e.committed == s.committed + newer(held_records(lines), after)
            &&& e.pending.len() == 0
            &&& e.segment == s.segment
            &&& e.offset == s.offset + lines_len(lines, lines.len())
            &&& e.valid == e.offset
        }),
{
    let n = lines.len();
    lemma_prefix_pending(s, lines, n, (n - 1) as nat, after);
    let e = replay_lines(s, lines, (n - 1) as nat, after);
    let r = lines[n - 1].record->0;
    assert(lines[n - 1].record is Some);
    assert(r.txn_seq == (n as u32, n as u32));
    if n > 1 {
        assert(e.pending.last() == lines[n - 2].record->0);
        assert(lines[n - 2].record->0.txn == lines[0].record->0.txn);
    }
    assert(buffered(e.pending, r) =~= held_records(lines));
}

/// A transaction whose last record never arrives is discarded whole: nothing
/// of it is committed and the log is not valid beyond what came before it.
pub proof fn incomplete_transaction_is_discarded(s: Replay, lines: Seq<LineView>, of: nat, after: Option<u64>)
    requires
        !s.stopped,
        s.pending.len() == 0 || (lines.len() > 0 && s.pending.last().txn != lines[0].record->0.txn),
        txn_prefix(lines, of),
        lines.len() < of,
    ensures
        replay_lines(s, lines, lines.len(), after).committed == s.committed,
        replay_lines(s, lines, lines.len(), after).valid == s.valid,
{
    lemma_prefix_pending(s, lines, of, lines.len(), after);
}

/// A line that cannot be trusted ends the replay: what comes after it counts
/// for nothing.
pub proof fn untrusted_line_ends_replay(s: Replay, bad: LineView, rest: Seq<LineView>, after: Option<u64>)
    requires
        bad.record is None,
    ensures
        replay_lines(s, seq![bad] + rest, rest.len() + 1, after).committed == s.committed,
        replay_lines(s, seq![bad] + rest, rest.len() + 1, after).valid == s.valid,
{
    let all = seq![bad] + rest;
    assert(all[0] == bad);
    assert(replay_lines(s, all, 0, after) == s);
    assert(replay_lines(s, all, 1, after) == replay_line(s, bad, after));
    lemma_stopped_lines(s, all, 1, rest.len() + 1, after);
}

/// Replaying whole transactions and then a torn tail gives exactly the whole
/// transactions, and cuts the log where they end. The tail is an incomplete
/// transaction, followed by nothing or by an untrustworthy line and anything.
pub proof fn torn_log_yields_whole_transactions(
    s: Replay,
    txns: Seq<Seq<LineView>>,
    torn: Seq<LineView>,
    of: nat,
    junk: Seq<LineView>,
    after: Option<u64>,
)
    requires
        !s.stopped,
        s.pending.len() == 0,
        s.committed.len() == 0,
        s.offset == 0,
        s.valid == 0,
        forall|i: int| 0 <= i < txns.len() ==> whole_txn(#[trigger] txns[i]),
        txn_prefix(torn, of),
        torn.len() < of,
        junk.len() > 0 ==> junk[0].record is None,
    ensures
        ({
            let whole = txn_lines(txns);
            let all = whole + torn + junk;
            let e = replay_lines(s, all, all.len(), after);
            &&& e.committed == newer(held_records(whole), after)
            &&& e.valid == lines_len(whole, whole.len())
        }),
{
    let whole = txn_lines(txns);
    lemma_whole_txns(s, txns, after);
    assert(s.committed + newer(held_records(whole), after) =~= newer(held_records(whole), after));
    let a = replay_lines(s, whole, whole.len(), after);
    lemma_replay_concat(s, whole, torn, torn.len(), after);
    let b = replay_lines(s, whole + torn, (whole + torn).len(), after);
    incomplete_transaction_is_discarded(a, torn, of, after);
    lemma_replay_concat(s, whole + torn, junk, junk.len(), after);
    if junk.len() > 0 {
        assert(junk =~= seq![junk[0]] + junk.skip(1));
        untrusted_line_ends_replay(b, junk[0], junk.skip(1), after);
    }
}

pub proof fn lemma_newer_concat(a: Seq<RecordView>, b: Seq<RecordView>, after: Option<u64>)
    ensures
        newer(a + b, after) == newer(a, after) + newer(b, after),
    decreases b.len(),
{
    if b.len() == 0 {
        assert(a + b =~= a);
        assert(newer(a, after) + newer(b, after) =~= newer(a, after));
    } else {
        assert((a + b).drop_last() =~= a + b.drop_last());
        lemma_newer_concat(a, b.drop_last(), after);
        assert(newer(a + b, after) =~= newer(a, after) + newer(b, after));
    }
}

proof fn lemma_lines_len_concat(a: Seq<LineView>, b: Seq<LineView>, n: nat)
    requires
        n <= b.len(),
    ensures
        lines_len(a + b, a.len() + n) == lines_len(a, a.len()) + lines_len(b, n),
    decreases n,
{
    if n == 0 {
        lemma_lines_len_prefix(a, a + b, a.len());
    } else {
        lemma_lines_len_concat(a, b, (n - 1) as nat);
        assert((a + b)[a.len() + n - 1] == b[n - 1]);
    }
}

proof fn lemma_lines_len_prefix(a: Seq<LineView>, b: Seq<LineView>, n: nat)
    requires
        n <= a.len() <= b.len(),
        forall|i: int| 0 <= i < n ==> a[i] == b[i],
    ensures
        lines_len(a, n) == lines_len(b, n),
    decreases n,
{
    if n > 0 {
        lemma_lines_len_prefix(a, b, (n - 1) as nat);
        assert(a[n - 1] == b[n - 1]);
    }
}

proof fn lemma_whole_txns(s: Replay, txns: Seq<Seq<LineView>>, after: Option<u64>)
    requires
        !s.stopped,
        s.pending.len() == 0,
        forall|i: int| 0 <= i < txns.len() ==> whole_txn(#[trigger] txns[i]),
    ensures
        ({
            let whole = txn_lines(txns);
            let e = replay_lines(s, whole, whole.len(), after);
            &&& !e.stopped
            &&& e.pending.len() == 0
            &&& e.committed == s.committed + newer(held_records(whole), after)
            &&& e.offset == s.offset + lines_len(whole, whole.len())
            &&& s.valid == s.offset ==> e.valid == e.offset
        }),
    decreases txns.len(),
{
    let whole = txn_lines(txns);
    if txns.len() == 0 {
        assert(held_records(whole) =~= Seq::<RecordView>::empty());
        assert(s.committed + Seq::<RecordView>::empty() =~= s.committed);
    } else {
        let front = txn_lines(txns.drop_last());
        let last = txns.last();
        assert forall|i: int| 0 <= i < txns.drop_last().len() implies whole_txn(#[trigger] txns.drop_last()[i]) by {
            assert(txns.drop_last()[i] == txns[i]);
        }
        assert(whole_txn(txns[txns.len() - 1]));
        lemma_whole_txns(s, txns.drop_last(), after);
        let m = replay_lines(s, front, front.len(), after);
        lemma_replay_concat(s, front, last, last.len(), after);
        whole_transaction_is_committed(m, last, after);
        assert(held_records(whole) =~= held_records(front) + held_records(last));
        lemma_newer_concat(held_records(front), held_records(last), after);
        lemma_lines_len_concat(front, last, last.len());
    }
}

/// Whether the cursor can place a line: a segment is left for it, and its end
/// has a position.
pub open spec fn has_room(w: WalWriter, len: nat) -> bool {
    if must_rotate(w) { w.segment_id < u32::MAX && len <= u32::MAX } else { w.offset + len <= u32::MAX }
}

/// The cursor once it has moved past a line.
pub open spec fn moved_past(w: WalWriter, len: nat) -> WalWriter {
    if must_rotate(w) {
        WalWriter { segment_id: (w.segment_id + 1) as u32, offset: len as u32, ..w }
    } else {
        WalWriter { offset: (w.offset + len) as u32, ..w }
    }
}

/// The log with one more line, in the segment in which the cursor places it.
pub open spec fn with_line(log: Seq<(u32, Seq<LineView>)>, w: WalWriter, line: LineView) -> Seq<(u32, Seq<LineView>)> {
    if must_rotate(w) {
        log.push(((w.segment_id + 1) as u32, seq![line]))
    } else {
        log.update(log.len() - 1, (log.last().0, log.last().1.push(line)))
    }
}

/// The log and the cursor after the first `n` of these lines.
pub open spec fn appended(log: Seq<(u32, Seq<LineView>)>, w: WalWriter, lines: Seq<LineView>, n: nat) -> (Seq<(u32, Seq<LineView>)>, WalWriter)
    decreases n,
{
    if n == 0 {
        (log, w)
    } else {
        let (l, v) = appended(log, w, lines, (n - 1) as nat);
        (with_line(l, v, lines[n - 1]), moved_past(v, lines[n - 1].len))
    }
}

/// Whether the cursor stands where the log ends, and the log is whole.
pub open spec fn stands_at_end(log: Seq<(u32, Seq<LineView>)>, w: WalWriter) -> bool {
    let e = replay_segments(log, log.len(), None);
    &&& log.len() > 0
    &&& log.last().0 == w.segment_id
    &&& !e.stopped
    &&& e.pending.len() == 0
    &&& e.offset == w.offset
    &&& e.valid == w.offset
}

proof fn lemma_segments_prefix(a: Seq<(u32, Seq<LineView>)>, b: Seq<(u32, Seq<LineView>)>, n: nat, after: Option<u64>)
    requires
        n <= a.len(),
        n <= b.len(),
        forall|i: int| 0 <= i < n ==> a[i] == b[i],
    ensures
        replay_segments(a, n, after) == replay_segments(b, n, after),
    decreases n,
{
    if n > 0 {
        lemma_segments_prefix(a, b, (n - 1) as nat, after);
        assert(a[n - 1] == b[n - 1]);
    }
}

proof fn lemma_with_line(log: Seq<(u32, Seq<LineView>)>, w: WalWriter, line: LineView, after: Option<u64>)
    requires
        log.len() > 0,
    ensures
        ({
            let e = replay_segments(log, log.len(), after);
            let at = if must_rotate(w) { enter_segment(e, (w.segment_id + 1) as u32) } else { e };
            replay_segments(with_line(log, w, line), with_line(log, w, line).len(), after) == replay_line(at, line, after)
        }),
{
    let longer = with_line(log, w, line);
    if must_rotate(w) {
        lemma_segments_prefix(log, longer, log.len(), after);
        let at = enter_segment(replay_segments(log, log.len(), after), (w.segment_id + 1) as u32);
        assert(seq![line][0] == line);
        assert(replay_lines(at, seq![line], 0, after) == at);
        assert(replay_lines(at, seq![line], 1, after) == replay_line(at, line, after));
        assert(longer[longer.len() - 1] == ((w.segment_id + 1) as u32, seq![line]));
    } else {
        let n = (log.len() - 1) as nat;
        let (id, lines) = log[n as int];
        lemma_segments_prefix(log, longer, n, after);
        let at = enter_segment(replay_segments(log, n, after), id);
        lemma_replay_prefix(at, lines, lines.push(line), lines.len(), after);
        assert(longer[n as int] == (id, lines.push(line)));
        assert(lines.push(line)[lines.len() as int] == line);
        assert(replay_lines(at, lines.push(line), lines.len() + 1, after) == replay_line(replay_lines(at, lines, lines.len(), after), line, after));
    }
}

proof fn lemma_appended(log: Seq<(u32, Seq<LineView>)>, w: WalWriter, lines: Seq<LineView>, n: nat, after: Option<u64>)
    requires
        stands_at_end(log, w),
        n <= lines.len(),
        forall|i: int| 0 <= i < lines.len() ==> (#[trigger] lines[i]).record is Some,
        forall|i: int| 0 <= i < lines.len() ==> has_room(appended(log, w, lines, i as nat).1, (#[trigger] lines[i]).len),
    ensures
        ({
            let (l, v) = appended(log, w, lines, n);
            let e = replay_segments(l, l.len(), after);
            let t = replay_lines(replay_segments(log, log.len(), after), lines, n, after);
            &&& l.len() > 0
            &&& l.last().0 == v.segment_id
            &&& e.committed == t.committed
            &&& e.pending == t.pending
            &&& !e.stopped
            &&& !t.stopped
            &&& e.offset == v.offset
            &&& e.pending.len() == 0 ==> e.valid == v.offset
        }),
    decreases n,
{
    if n == 0 {
        cut_does_not_depend_on_start(log, log.len(), after);
    } else {
        let m = (n - 1) as nat;
        lemma_appended(log, w, lines, m, after);
        let (l, v) = appended(log, w, lines, m);
        let line = lines[m as int];
        assert(line.record is Some);
        assert(has_room(v, line.len));
        lemma_with_line(l, v, line, after);
    }
}

/// What is appended replays: whole transactions that the cursor places at the
/// end of a whole log, in new segments where the old one is full, come back
/// after what the log gave before, and the cursor again stands where the log
/// ends.
pub proof fn what_is_appended_replays(log: Seq<(u32, Seq<LineView>)>, w: WalWriter, txns: Seq<Seq<LineView>>, after: Option<u64>)
    requires
        stands_at_end(log, w),
        forall|i: int| 0 <= i < txns.len() ==> whole_txn(#[trigger] txns[i]),
        forall|i: int| 0 <= i < txn_lines(txns).len() ==>
            has_room(appended(log, w, txn_lines(txns), i as nat).1, (#[trigger] txn_lines(txns)[i]).len),
    ensures
        ({
            let lines = txn_lines(txns);
            let (l, v) = appended(log, w, lines, lines.len());
            &&& stands_at_end(l, v)
            &&& replay_segments(l, l.len(), after).committed
                == replay_segments(log, log.len(), after).committed + newer(held_records(lines), after)
        }),
{
    let lines = txn_lines(txns);
    lemma_txn_lines_trusted(txns);
    lemma_appended(log, w, lines, lines.len(), after);
    lemma_appended(log, w, lines, lines.len(), None);
    cut_does_not_depend_on_start(log, log.len(), after);
    lemma_whole_txns(replay_segments(log, log.len(), after), txns, after);
    lemma_whole_txns(replay_segments(log, log.len(), None), txns, None);
}

/// The log with one more line of a leader's, in the segment that the record's
/// position names.
pub open spec fn with_leader_line(log: Seq<(u32, Seq<LineView>)>, line: LineView) -> Seq<(u32, Seq<LineView>)> {
    let id = (line.record->0.lsn / 0x1_0000_0000) as u32;
    if log.len() == 0 || log.last().0 != id {
        log.push((id, seq![line]))
    } else {
        log.update(log.len() - 1, (id, log.last().1.push(line)))
    }
}

/// The log after the first `n` of a leader's lines.
pub open spec fn followed(log: Seq<(u32, Seq<LineView>)>, lines: Seq<LineView>, n: nat) -> Seq<(u32, Seq<LineView>)>
    decreases n,
{
    if n == 0 { log } else { with_leader_line(followed(log, lines, (n - 1) as nat), lines[n - 1]) }
}

proof fn lemma_followed(log: Seq<(u32, Seq<LineView>)>, lines: Seq<LineView>, n: nat, after: Option<u64>)
    requires
        !replay_segments(log, log.len(), after).stopped,
        n <= lines.len(),
        forall|i: int| 0 <= i < lines.len() ==> (#[trigger] lines[i]).record is Some,
    ensures
        ({
            let l = followed(log, lines, n);
            let e = replay_segments(l, l.len(), after);
            let t = replay_lines(replay_segments(log, log.len(), after), lines, n, after);
            &&& e.committed == t.committed
            &&& e.pending == t.pending
            &&& !e.stopped
            &&& !t.stopped
        }),
    decreases n,
{
    if n > 0 {
        let m = (n - 1) as nat;
        lemma_followed(log, lines, m, after);
        let l = followed(log, lines, m);
        let line = lines[m as int];
        assert(line.record is Some);
        let id = (line.record->0.lsn / 0x1_0000_0000) as u32;
        let longer = with_leader_line(l, line);
        let e = replay_segments(l, l.len(), after);
        if l.len() == 0 || l.last().0 != id {
            lemma_segments_prefix(l, longer, l.len(), after);
            let at = enter_segment(e, id);
            assert(seq![line][0] == line);
            assert(replay_lines(at, seq![line], 0, after) == at);
            assert(replay_lines(at, seq![line], 1, after) == replay_line(at, line, after));
            assert(longer[longer.len() - 1] == (id, seq![line]));
        } else {
            let k = (l.len() - 1) as nat;
            let own = l[k as int].1;
            lemma_segments_prefix(l, longer, k, after);
            let at = enter_segment(replay_segments(l, k, after), id);
            lemma_replay_prefix(at, own, own.push(line), own.len(), after);
            assert(longer[k as int] == (id, own.push(line)));
            assert(own.push(line)[own.len() as int] == line);
            assert(replay_lines(at, own.push(line), own.len() + 1, after) == replay_line(replay_lines(at, own, own.len(), after), line, after));
        }
    }
}

/// What is replicated replays: whole transactions of a leader's, each line in
/// the segment that its position names, come back after what the follower's
/// log gave before.
pub proof fn what_is_replicated_replays(log: Seq<(u32, Seq<LineView>)>, txns: Seq<Seq<LineView>>, after: Option<u64>)
    requires
        !replay_segments(log, log.len(), None).stopped,
        replay_segments(log, log.len(), None).pending.len() == 0,
        forall|i: int| 0 <= i < txns.len() ==> whole_txn(#[trigger] txns[i]),
    ensures
        ({
            let lines = txn_lines(txns);
            let l = followed(log, lines, lines.len());
            let e = replay_segments(l, l.len(), after);
            &&& !e.stopped
            &&& e.pending.len() == 0
            &&& e.committed == replay_segments(log, log.len(), after).committed + newer(held_records(lines), after)
        }),
{
    let lines = txn_lines(txns);
    lemma_txn_lines_trusted(txns);
    cut_does_not_depend_on_start(log, log.len(), after);
    lemma_followed(log, lines, lines.len(), after);
    lemma_whole_txns(replay_segments(log, log.len(), after), txns, after);
}

proof fn lemma_txn_lines_trusted(txns: Seq<Seq<LineView>>)
    requires
        forall|i: int| 0 <= i < txns.len() ==> whole_txn(#[trigger] txns[i]),
    ensures
        forall|i: int| 0 <= i < txn_lines(txns).len() ==> (#[trigger] txn_lines(txns)[i]).record is Some,
    decreases txns.len(),
{
    if txns.len() > 0 {
        let front = txns.drop_last();
        assert forall|i: int| 0 <= i < front.len() implies whole_txn(#[trigger] front[i]) by {
            assert(front[i] == txns[i]);
        }
        lemma_txn_lines_trusted(front);
        assert(whole_txn(txns[txns.len() - 1]));
        assert forall|i: int| 0 <= i < txn_lines(txns).len() implies (#[trigger] txn_lines(txns)[i]).record is Some by {
            if i < txn_lines(front).len() {
                assert(txn_lines(txns)[i] == txn_lines(front)[i]);
            } else {
                assert(txn_lines(txns)[i] == txns.last()[i - txn_lines(front).len()]);
            }
        }
    }
}

/// Which records are asked for does not change where the log is cut: every
/// line is checked whatever the starting position.
pub proof fn cut_does_not_depend_on_start(segments: Seq<(u32, Seq<LineView>)>, n: nat, after: Option<u64>)
    ensures
        ({
            let a = replay_segments(segments, n, after);
            let b = replay_segments(segments, n, None);
            &&& a.segment == b.segment
            &&& a.valid == b.valid
            &&& a.offset == b.offset
            &&& a.pending == b.pending
            &&& a.stopped == b.stopped
            &&& a.committed == newer(b.committed, after)
        }),
    decreases n,
{
    if n > 0 {
        cut_does_not_depend_on_start(segments, (n - 1) as nat, after);
        let (id, lines) = segments[n - 1];
        let a = enter_segment(replay_segments(segments, (n - 1) as nat, after), id);
        let b = enter_segment(replay_segments(segments, (n - 1) as nat, None), id);
        lemma_same_cut(a, b, lines, lines.len(), after);
    }
}

proof fn lemma_newer_none(s: Seq<RecordView>)
    ensures
        newer(s, None) == s,
    decreases s.len(),
{
    if s.len() > 0 {
        lemma_newer_none(s.drop_last());
        assert(newer(s, None) =~= s);
    }
}

proof fn lemma_same_cut(a: Replay, b: Replay, lines: Seq<LineView>, n: nat, after: Option<u64>)
    requires
        a.segment == b.segment,
        a.valid == b.valid,
        a.offset == b.offset,
        a.pending == b.pending,
        a.stopped == b.stopped,
        a.committed == newer(b.committed, after),
    ensures
        ({
            let x = replay_lines(a, lines, n, after);
            let y = replay_lines(b, lines, n, None);
            &&& x.segment == y.segment
            &&& x.valid == y.valid
            &&& x.offset == y.offset
            &&& x.pending == y.pending
            &&& x.stopped == y.stopped
            &&& x.committed == newer(y.committed, after)
        }),
    decreases n,
{
    if n > 0 {
        lemma_same_cut(a, b, lines, (n - 1) as nat, after);
        let y = replay_lines(b, lines, (n - 1) as nat, None);
        if lines[n - 1].record is Some {
            let p = buffered(y.pending, lines[n - 1].record->0);
            lemma_newer_concat(y.committed, p, after);
            lemma_newer_none(p);
        }
    }
}

} // verus!
