//! Collections over a log that is kept in memory: a log is its segments, a
//! segment its lines, and a line's checksum covers the record's debug text.

use mara::api::{Lookup, RegistryEntry, SchemaChange, Storage};
use mara::clock::readings;
use mara::collection::{Collection, PutInput};
use mara::columns::FieldType;
use mara::document::{ChunkInput, PutDocumentInput};
use mara::encoding::{checksum_of, decode_vector, encode_vector};
use mara::error::StorageError;
use mara::fields::{PayloadRow, PayloadValue};
use mara::ids::{DocId, PrincipalId, RowId, SessionId, TxnId};
use mara::lsn::Lsn;
use mara::model::{ChunkSpec, DistanceMetric, ModelFingerprint, Principal, RequestCtx, Role, Source};
use mara::payload::PayloadSchema;
use mara::replication::{check_replicated, ReceivedLine};
use mara::snapshot::{
    checkpoint_path, frame_checkpoint, list_generations, load_order, next_generation, open_checkpoint, retain_generations,
    CollectionSnapshot,
};
use mara::txn_index::TxnSummary;
use mara::wal::{
    list_segment_ids, replay_all, segment_id_from_name, segment_path, verify_checksum, FsyncPolicy, ReadRecord, SegmentLines,
    SyncAction, WalActor, WalLine, WalOp, WalPayload, WalRecord, WalReplayResult, WalWriter,
};

const SEGMENT_SIZE: u32 = 128 * 1024 * 1024;

enum Line {
    Whole(WalRecord),
    Torn(u32),
}

fn unsealed(record: &WalRecord) -> Vec<u8> {
    let mut bare = record.clone();
    bare.checksum = String::new();
    format!("{bare:?}").into_bytes()
}

fn line_len(record: &WalRecord) -> u32 {
    (unsealed(record).len() + record.checksum.len()) as u32
}

impl Line {
    fn byte_len(&self) -> u32 {
        match self {
            Line::Whole(record) => line_len(record) + 1,
            Line::Torn(len) => *len,
        }
    }
}

struct Log {
    segments: Vec<(u32, Vec<Line>)>,
}

impl Log {
    fn new() -> Log {
        Log { segments: Vec::new() }
    }

    fn ids(&self) -> Vec<u32> {
        let names: Vec<String> = self.segments.iter().map(|(id, _)| segment_path(*id)).collect();
        list_segment_ids(&names)
    }

    fn len_of(&self, id: u32) -> u32 {
        self.segments.iter().filter(|(s, _)| *s == id).flat_map(|(_, lines)| lines).map(|l| l.byte_len()).sum()
    }

    fn writer(&self, segment_size: u32) -> WalWriter {
        let ids = self.ids();
        let last_len = ids.last().map(|id| self.len_of(*id)).unwrap_or(0);
        WalWriter::open(&ids, last_len, segment_size, FsyncPolicy::Always)
    }

    fn push(&mut self, segment_id: u32, line: Line) {
        if !self.segments.iter().any(|(id, _)| *id == segment_id) {
            self.segments.push((segment_id, Vec::new()));
        }
        self.segments.iter_mut().find(|(id, _)| *id == segment_id).unwrap().1.push(line);
    }

    fn append_batch(&mut self, writer: &mut WalWriter, records: &mut Vec<WalRecord>) {
        for record in records.iter_mut() {
            let slot = writer.begin_record();
            record.lsn = slot.lsn;
            record.checksum = checksum_of(&unsealed(record));
            writer.end_record(line_len(record));
            self.push(slot.lsn.segment_id(), Line::Whole(record.clone()));
        }
    }

    fn append_replicated(&mut self, writer: &mut WalWriter, records: &Vec<WalRecord>) {
        for record in records {
            let slot = writer.place_replicated(record.lsn, line_len(record));
            self.push(slot.lsn.segment_id(), Line::Whole(record.clone()));
        }
    }

    fn lines(&self) -> Vec<SegmentLines> {
        self.segments
            .iter()
            .map(|(id, lines)| SegmentLines {
                segment_id: *id,
                lines: lines
                    .iter()
                    .map(|line| WalLine {
                        byte_len: line.byte_len(),
                        read: match line {
                            Line::Whole(record) => Some(ReadRecord { record: record.clone(), unsealed: unsealed(record) }),
                            Line::Torn(_) => None,
                        },
                    })
                    .collect(),
            })
            .collect()
    }

    fn replay(&self, after: Option<Lsn>) -> WalReplayResult {
        replay_all(&self.lines(), after)
    }

    fn truncate(&mut self, segment_id: u32, len: u32) {
        for (id, lines) in self.segments.iter_mut() {
            if *id == segment_id {
                while lines.iter().map(|l| l.byte_len()).sum::<u32>() > len {
                    lines.pop();
                }
            }
        }
    }
}

struct Disk {
    log: Log,
    files: Vec<(String, Vec<u8>)>,
    snapshots: Vec<Option<CollectionSnapshot>>,
}

impl Disk {
    fn new() -> Disk {
        Disk { log: Log::new(), files: Vec::new(), snapshots: vec![None] }
    }

    fn names(&self) -> Vec<String> {
        self.files.iter().map(|(name, _)| name.clone()).collect()
    }

    fn newest_sound(&self) -> usize {
        for generation in load_order(&list_generations(&self.names())) {
            let name = checkpoint_path(generation);
            let bytes = &self.files.iter().find(|(n, _)| *n == name).unwrap().1;
            if let Some(payload) = open_checkpoint(bytes) {
                return payload[0] as usize;
            }
        }
        0
    }

    fn open(&mut self) -> Collection {
        let at = self.newest_sound();
        let snapshot = &self.snapshots[at];
        let replay = self.log.replay(snapshot.as_ref().map(|s| s.last_applied_lsn()));
        self.log.truncate(replay.last_segment_id, replay.last_segment_valid_len);
        let writer = self.log.writer(SEGMENT_SIZE);
        Collection::open("docs", 3, DistanceMetric::Cosine, PayloadSchema::empty(), false, snapshot, &replay.records, writer).unwrap()
    }

    fn checkpoint(&mut self, c: &Collection) {
        let generations = list_generations(&self.names());
        let generation = next_generation(&generations);
        let payload: Vec<u8> = vec![self.snapshots.len() as u8];
        self.snapshots.push(c.checkpoint());
        self.files.push((checkpoint_path(generation), frame_checkpoint(&payload)));
        for old in retain_generations(&list_generations(&self.names()), 3) {
            let name = checkpoint_path(old);
            self.files.retain(|(n, _)| *n != name);
        }
    }

    fn finish(&mut self, c: &mut Collection, txn: TxnId, mut records: Vec<WalRecord>) {
        let mut writer = c.wal.unwrap();
        self.log.append_batch(&mut writer, &mut records);
        c.wal = Some(writer);
        c.finish(txn, &records, Ok(())).unwrap();
    }

    fn put_batch(&mut self, c: &mut Collection, ctx: &RequestCtx, items: Vec<PutInput>) -> Result<Vec<RowId>, StorageError> {
        let txn = TxnId::new();
        let plan = c.plan_put_batch(ctx, &items, txn, &readings(items.len()))?;
        self.finish(c, txn, plan.records);
        Ok(plan.row_ids)
    }

    fn put(&mut self, c: &mut Collection, ctx: &RequestCtx, key: &str, v: [f32; 3]) -> RowId {
        self.put_batch(c, ctx, vec![put_input(key, v)]).unwrap()[0]
    }

    fn delete(&mut self, c: &mut Collection, ctx: &RequestCtx, key: &str) {
        let txn = TxnId::new();
        let records = c.plan_delete(ctx, key, txn, readings(1)[0]).unwrap();
        self.finish(c, txn, records);
    }

    fn put_document(&mut self, c: &mut Collection, ctx: &RequestCtx, input: PutDocumentInput) -> DocId {
        let txn = TxnId::new();
        let plan = c.plan_put_document(ctx, &input, txn, &readings(input.chunks.len())).unwrap();
        self.finish(c, txn, plan.records);
        plan.doc_id
    }

    fn replace_document(&mut self, c: &mut Collection, ctx: &RequestCtx, doc_key: &str, chunks: Vec<ChunkInput>) -> DocId {
        let txn = TxnId::new();
        let n = c.document_rows(doc_key) + chunks.len();
        let plan = c
            .plan_replace_document(
                ctx,
                doc_key,
                &chunks,
                &PayloadRow::new(),
                &ChunkSpec::default(),
                &None,
                &model(),
                txn,
                &readings(n),
            )
            .unwrap();
        self.finish(c, txn, plan.records);
        plan.doc_id
    }

    fn delete_document(&mut self, c: &mut Collection, ctx: &RequestCtx, doc_key: &str) {
        let txn = TxnId::new();
        let records = c.plan_delete_document(ctx, doc_key, txn, &readings(c.document_rows(doc_key))).unwrap();
        self.finish(c, txn, records);
    }

    fn undo(&mut self, c: &mut Collection, ctx: &RequestCtx, target: TxnId, force: bool) -> Result<TxnSummary, StorageError> {
        let logged = self.log.replay(None).records;
        let txn = TxnId::new();
        let plan = c.plan_undo(ctx, target, force, &logged, txn, &readings(logged.len()))?;
        self.finish(c, txn, plan.records);
        Ok(plan.summary)
    }

    fn apply_replicated(&mut self, c: &mut Collection, lines: &Vec<ReceivedLine>) -> Result<(), StorageError> {
        let records = check_replicated(lines)?;
        let mut writer = c.wal.unwrap();
        self.log.append_replicated(&mut writer, &records);
        c.wal = Some(writer);
        c.apply_replicated_lines(&records, Ok(()))
    }
}

fn received(records: &Vec<WalRecord>) -> Vec<ReceivedLine> {
    records.iter().map(|r| Ok(ReadRecord { record: r.clone(), unsealed: unsealed(r) })).collect()
}

fn ctx_as(name: &str) -> RequestCtx {
    RequestCtx::new(
        SessionId(format!("session-{name}")),
        Principal { id: PrincipalId(format!("p_{name}")), name: name.to_string(), role: Role::Writer },
        Source::Embedded,
    )
}

fn ctx() -> RequestCtx {
    ctx_as("t")
}

fn model() -> ModelFingerprint {
    ModelFingerprint { model_id: "m".into(), revision: None, dim: 3 }
}

fn vector(xs: &[f32]) -> Vec<u32> {
    xs.iter().map(|x| x.to_bits()).collect()
}

fn put_input(key: &str, v: [f32; 3]) -> PutInput {
    PutInput { key: key.into(), vector: vector(&v), fields: PayloadRow::new(), extra: None }
}

fn chunk(text: &str, v: [f32; 3]) -> ChunkInput {
    ChunkInput { text: text.into(), vector: vector(&v) }
}

fn document(doc_key: &str, chunks: Vec<ChunkInput>, source: Option<String>) -> PutDocumentInput {
    PutDocumentInput {
        doc_key: doc_key.into(),
        chunks,
        doc_payload: PayloadRow::new(),
        chunk_spec: ChunkSpec::default(),
        source,
        embedding_model: model(),
    }
}

fn base_record(txn: TxnId, seq: (u32, u32)) -> WalRecord {
    WalRecord {
        v: 1,
        lsn: Lsn::zero(),
        ts: readings(1)[0],
        txn,
        actor: WalActor { id: PrincipalId("p_test".into()), name: "tester".into() },
        session: SessionId("s".into()),
        coll: "docs".into(),
        op: WalOp::Insert,
        row_id: Some(RowId(1)),
        key: Some("a".into()),
        doc_id: None,
        doc_key: None,
        chunk_ord: None,
        payload: Some(WalPayload {
            vector_b64: Some(encode_vector(&vector(&[1.0, 2.0, 3.0]))),
            text: None,
            fields: None,
            extra: None,
        }),
        undo: None,
        caused_by: None,
        txn_seq: seq,
        params: None,
        checksum: String::new(),
    }
}

fn singles(n: usize) -> Vec<WalRecord> {
    (0..n).map(|_| base_record(TxnId::new(), (1, 1))).collect()
}

// The log.

#[test]
fn vector_encoding_round_trips_exactly() {
    let v = vector(&[1.0f32, -2.5, 0.0, f32::MIN_POSITIVE, 12345.678]);
    let encoded = encode_vector(&v);
    let decoded = decode_vector(&encoded).unwrap();
    assert_eq!(v, decoded);
}

#[test]
fn vectors_are_base64_of_little_endian_floats() {
    assert_eq!(encode_vector(&vector(&[1.0])), "AACAPw==");
    assert_eq!(encode_vector(&Vec::new()), "");
    assert!(decode_vector("not base64!").is_err());
    assert!(decode_vector("AAA=").is_err());
}

#[test]
fn checksums_are_eight_hex_digits_of_crc32c() {
    assert_eq!(checksum_of(b"123456789"), "e3069283");
    assert_eq!(checksum_of(b""), "00000000");
}

#[test]
fn append_then_replay_round_trips_a_single_record_txn() {
    let mut log = Log::new();
    let mut writer = log.writer(SEGMENT_SIZE);
    let txn = TxnId::new();
    let mut records = vec![base_record(txn, (1, 1))];
    log.append_batch(&mut writer, &mut records);

    let result = log.replay(None);
    assert_eq!(result.records.len(), 1);
    assert_eq!(result.records[0].txn, txn);
    assert_eq!(result.records[0].lsn, records[0].lsn);
    assert_eq!(result.records[0].payload.as_ref().unwrap().vector().unwrap(), Some(vector(&[1.0, 2.0, 3.0])));
}

#[test]
fn multi_record_txn_is_only_visible_once_complete() {
    let mut log = Log::new();
    let mut writer = log.writer(SEGMENT_SIZE);
    let txn = TxnId::new();
    let mut records: Vec<WalRecord> = (1..=5).map(|i| base_record(txn, (i, 5))).collect();
    log.append_batch(&mut writer, &mut records);

    let result = log.replay(None);
    assert_eq!(result.records.len(), 5, "all 5 records of the complete txn must replay");
    assert!(result.records.iter().all(|r| r.txn == txn));
}

#[test]
fn lsns_are_monotonically_increasing_within_a_segment() {
    let mut log = Log::new();
    let mut writer = log.writer(SEGMENT_SIZE);
    let mut records = singles(10);
    log.append_batch(&mut writer, &mut records);
    for w in records.windows(2) {
        assert!(w[0].lsn < w[1].lsn);
    }
}

#[test]
fn segment_rotates_once_the_size_threshold_is_crossed() {
    let mut log = Log::new();
    let mut writer = log.writer(200);
    let mut records = singles(20);
    log.append_batch(&mut writer, &mut records);

    assert!(log.ids().len() > 1, "expected more than one segment after crossing the size threshold");
    let result = log.replay(None);
    assert_eq!(result.records.len(), 20, "every record must still replay across segment boundaries");
}

#[test]
fn resuming_a_writer_after_reopen_continues_lsns_forward() {
    let mut log = Log::new();
    let first_lsn = {
        let mut writer = log.writer(SEGMENT_SIZE);
        let mut records = singles(1);
        log.append_batch(&mut writer, &mut records);
        records[0].lsn
    };
    let mut writer2 = log.writer(SEGMENT_SIZE);
    let mut records2 = singles(1);
    log.append_batch(&mut writer2, &mut records2);
    assert!(records2[0].lsn > first_lsn, "a reopened writer must never reuse or rewind an LSN");
}

#[test]
fn corrupt_last_line_is_detected_and_earlier_lines_still_replay() {
    let mut log = Log::new();
    let mut writer = log.writer(SEGMENT_SIZE);
    let mut records = singles(3);
    log.append_batch(&mut writer, &mut records);

    let torn = b"{\"v\":1,\"lsn\":\"garbage-torn-line";
    log.push(0, Line::Torn(torn.len() as u32));

    let result = log.replay(None);
    assert_eq!(result.records.len(), 3, "the 3 clean records before the torn line must still replay");
    assert_eq!(result.last_segment_id, 0);
    let full_len = log.len_of(0);
    assert!(result.last_segment_valid_len < full_len, "valid_len must stop before the torn tail");

    log.truncate(result.last_segment_id, result.last_segment_valid_len);
    assert_eq!(log.len_of(0), result.last_segment_valid_len);

    let mut writer2 = log.writer(SEGMENT_SIZE);
    let mut more = singles(1);
    log.append_batch(&mut writer2, &mut more);
    let result2 = log.replay(None);
    assert_eq!(result2.records.len(), 4);
}

#[test]
fn incomplete_trailing_transaction_is_discarded_whole() {
    let mut log = Log::new();
    let mut writer = log.writer(SEGMENT_SIZE);

    let mut complete = singles(1);
    log.append_batch(&mut writer, &mut complete);

    let torn_txn = TxnId::new();
    let mut torn: Vec<WalRecord> = (1..=3).map(|i| base_record(torn_txn, (i, 5))).collect();
    log.append_batch(&mut writer, &mut torn);

    let result = log.replay(None);
    assert_eq!(result.records.len(), 1, "only the complete txn may replay");
    assert_eq!(result.records[0].txn, complete[0].txn);
    assert!(result.records.iter().all(|r| r.txn != torn_txn), "no record of the torn txn may leak through");
    assert!(result.last_segment_valid_len < log.len_of(0));

    log.truncate(result.last_segment_id, result.last_segment_valid_len);
    let writer2 = log.writer(SEGMENT_SIZE);
    assert_eq!(writer2.current_lsn().byte_offset(), result.last_segment_valid_len);
}

#[test]
fn after_lsn_filters_out_already_applied_records_but_still_validates_the_whole_file() {
    let mut log = Log::new();
    let mut writer = log.writer(SEGMENT_SIZE);
    let mut records = singles(4);
    log.append_batch(&mut writer, &mut records);

    let cutoff = records[1].lsn;
    let result = log.replay(Some(cutoff));
    assert_eq!(result.records.len(), 2, "only records strictly after the cutoff LSN should be returned");
    assert!(result.records.iter().all(|r| r.lsn > cutoff));
    assert_eq!(result.last_segment_valid_len, log.len_of(0));
}

#[test]
fn checksum_mismatch_from_a_tampered_line_is_treated_as_a_torn_tail() {
    let mut log = Log::new();
    let mut writer = log.writer(SEGMENT_SIZE);
    let mut records = singles(2);
    log.append_batch(&mut writer, &mut records);

    assert_eq!(log.segments[0].1.len(), 2);
    if let Line::Whole(record) = &mut log.segments[0].1[1] {
        record.key = Some("b".into());
    }

    let result = log.replay(None);
    assert_eq!(result.records.len(), 1, "the tampered record must fail checksum verification and be dropped");
}

#[test]
fn a_transaction_may_cross_a_segment_boundary() {
    let mut log = Log::new();
    let mut writer = log.writer(200);
    let txn = TxnId::new();
    let mut records: Vec<WalRecord> = (1..=6).map(|i| base_record(txn, (i, 6))).collect();
    log.append_batch(&mut writer, &mut records);
    assert!(log.ids().len() > 1);
    assert_eq!(log.replay(None).records.len(), 6);
}

#[test]
fn segment_names_are_padded_and_read_back() {
    assert_eq!(segment_path(0), "segment-0000000000.wal");
    assert_eq!(segment_path(42), "segment-0000000042.wal");
    assert_eq!(segment_id_from_name("segment-0000000042.wal"), Some(42));
    assert_eq!(segment_id_from_name("segment-x.wal"), None);
    assert_eq!(segment_id_from_name("snapshot-0000000042.mdb"), None);
    let names: Vec<String> = vec!["segment-0000000007.wal".into(), "notes.txt".into(), "segment-0000000003.wal".into()];
    assert_eq!(list_segment_ids(&names), vec![3, 7]);
}

#[test]
fn fsync_policies_say_what_follows_a_batch() {
    let with = |fsync: FsyncPolicy| WalWriter::open(&Vec::new(), 0, SEGMENT_SIZE, fsync);
    assert_eq!(with(FsyncPolicy::Always).after_batch(0), SyncAction::FlushAndSync);
    assert_eq!(with(FsyncPolicy::Never).after_batch(u128::MAX), SyncAction::Flush);
    assert_eq!(with(FsyncPolicy::Interval(10)).after_batch(9), SyncAction::Nothing);
    assert_eq!(with(FsyncPolicy::Interval(10)).after_batch(10), SyncAction::FlushAndSync);
}

#[test]
fn a_record_is_sealed_by_the_checksum_of_its_bytes() {
    let record = base_record(TxnId::new(), (1, 1));
    let bytes = unsealed(&record);
    let mut sealed = ReadRecord { record, unsealed: bytes };
    assert!(!verify_checksum(&sealed));
    sealed.record.checksum = checksum_of(&sealed.unsealed);
    assert!(verify_checksum(&sealed));
    sealed.unsealed[0] ^= 1;
    assert!(!verify_checksum(&sealed));
}

#[test]
fn a_failed_append_changes_nothing() {
    let mut disk = Disk::new();
    let mut c = disk.open();
    let txn = TxnId::new();
    let items = vec![put_input("a", [1.0, 0.0, 0.0])];
    let plan = c.plan_put_batch(&ctx(), &items, txn, &readings(1)).unwrap();
    let err = c.finish(txn, &plan.records, Err("disk full".into())).unwrap_err();
    assert_eq!(err, StorageError::Wal("disk full".into()));
    assert_eq!(c.active_count(), 0);
    assert!(c.history(10).is_empty());
    assert!(c.outbox.is_empty());
}

// Undo.

#[test]
fn undo_of_an_insert_removes_the_row() {
    let mut disk = Disk::new();
    let mut c = disk.open();
    let ctx = ctx();
    disk.put(&mut c, &ctx, "a", [1.0, 0.0, 0.0]);

    let target = c.history(10)[0].txn_id;
    assert!(c.get_by_key("a").is_some());

    let summary = disk.undo(&mut c, &ctx, target, false).unwrap();
    assert_eq!(summary.rows_reversed, 1);
    assert!(c.get_by_key("a").is_none(), "undoing an insert must remove the row");
    assert_eq!(c.active_count(), 0);
}

#[test]
fn undo_of_a_delete_resurrects_the_row_with_the_same_row_id() {
    let mut disk = Disk::new();
    let mut c = disk.open();
    let ctx = ctx();
    let id = disk.put(&mut c, &ctx, "a", [1.0, 2.0, 3.0]);
    disk.delete(&mut c, &ctx, "a");
    assert!(c.get_by_key("a").is_none());

    let delete_txn = c.history(10)[0].txn_id;
    disk.undo(&mut c, &ctx, delete_txn, false).unwrap();

    let row = c.get_by_key("a").expect("undoing a delete must resurrect the row");
    assert_eq!(row.id, id, "resurrection must reuse the exact original RowId");
    assert_eq!(row.vector, Some(vector(&[1.0, 2.0, 3.0])));
}

#[test]
fn undo_of_an_update_restores_the_prior_value() {
    let mut disk = Disk::new();
    let mut c = disk.open();
    let ctx = ctx();
    disk.put(&mut c, &ctx, "a", [1.0, 0.0, 0.0]);
    disk.put(&mut c, &ctx, "a", [0.0, 1.0, 0.0]);
    assert_eq!(c.get_by_key("a").unwrap().vector, Some(vector(&[0.0, 1.0, 0.0])));

    let update_txn = c.history(10)[0].txn_id;
    disk.undo(&mut c, &ctx, update_txn, false).unwrap();
    assert_eq!(c.get_by_key("a").unwrap().vector, Some(vector(&[1.0, 0.0, 0.0])));
}

#[test]
fn undo_of_undo_restores_the_undone_state() {
    let mut disk = Disk::new();
    let mut c = disk.open();
    let ctx = ctx();
    disk.put(&mut c, &ctx, "a", [1.0, 0.0, 0.0]);
    let insert_txn = c.history(10)[0].txn_id;

    disk.undo(&mut c, &ctx, insert_txn, false).unwrap();
    assert!(c.get_by_key("a").is_none());
    let undo_txn = c.history(10)[0].txn_id;

    disk.undo(&mut c, &ctx, undo_txn, false).unwrap();
    assert!(c.get_by_key("a").is_some(), "undo-of-undo must need no special case and just work");
}

#[test]
fn undo_is_rejected_once_already_undone() {
    let mut disk = Disk::new();
    let mut c = disk.open();
    let ctx = ctx();
    disk.put(&mut c, &ctx, "a", [1.0, 0.0, 0.0]);
    let target = c.history(10)[0].txn_id;
    disk.undo(&mut c, &ctx, target, false).unwrap();

    let err = disk.undo(&mut c, &ctx, target, false).err().unwrap();
    assert!(matches!(err, StorageError::InvalidArgument(_)));
}

#[test]
fn undo_needs_a_known_transaction_and_a_log() {
    let mut disk = Disk::new();
    let mut c = disk.open();
    let unknown = TxnId(7);
    assert!(matches!(disk.undo(&mut c, &ctx(), unknown, false).err().unwrap(), StorageError::InvalidArgument(_)));

    let mut memory = Collection::new("docs", 3, DistanceMetric::Cosine);
    memory.put(&ctx(), "a", vector(&[1.0, 0.0, 0.0]), PayloadRow::new(), None).unwrap();
    let plan = memory.plan_undo(&ctx(), unknown, false, &Vec::new(), TxnId::new(), &Vec::new());
    assert!(matches!(plan.err().unwrap(), StorageError::InvalidArgument(_)));
}

#[test]
fn undo_document_removes_every_chunk() {
    let mut disk = Disk::new();
    let mut c = disk.open();
    let ctx = ctx();
    let chunks = vec![chunk("c0", [1.0, 0.0, 0.0]), chunk("c1", [0.0, 1.0, 0.0]), chunk("c2", [0.0, 0.0, 1.0])];
    disk.put_document(&mut c, &ctx, document("handbook.md", chunks, None));
    assert_eq!(c.active_count(), 3);

    let target = c.history(10)[0].txn_id;
    let summary = disk.undo(&mut c, &ctx, target, false).unwrap();
    assert_eq!(summary.rows_reversed, 3);
    assert_eq!(c.active_count(), 0);
    assert!(c.get_document("handbook.md").is_none());
}

#[test]
fn undo_of_replace_document_restores_the_prior_version_and_content() {
    let mut disk = Disk::new();
    let mut c = disk.open();
    let ctx = ctx();
    let doc_id = disk.put_document(&mut c, &ctx, document("doc.md", vec![chunk("v1", [1.0, 0.0, 0.0])], None));
    disk.replace_document(&mut c, &ctx, "doc.md", vec![chunk("v2a", [0.0, 1.0, 0.0]), chunk("v2b", [0.0, 0.0, 1.0])]);
    assert_eq!(c.get_document("doc.md").unwrap().version, 2);
    assert_eq!(c.active_count(), 2);

    let replace_txn = c.history(10)[0].txn_id;
    disk.undo(&mut c, &ctx, replace_txn, false).unwrap();

    let entry = c.get_document("doc.md").expect("undo of replace must leave the document present, not deleted");
    assert_eq!(entry.doc_id, doc_id);
    assert_eq!(entry.version, 1, "version must revert to its pre-replace value");
    let chunks = c.list_chunks(doc_id).unwrap();
    assert_eq!(chunks.len(), 1);
    assert_eq!(chunks[0].text.as_deref(), Some("v1"));
}

#[test]
fn undo_of_delete_document_restores_metadata_and_all_chunks() {
    let mut disk = Disk::new();
    let mut c = disk.open();
    let ctx = ctx();
    let chunks = vec![chunk("a", [1.0, 0.0, 0.0]), chunk("b", [0.0, 1.0, 0.0])];
    let doc_id = disk.put_document(&mut c, &ctx, document("doc.md", chunks, Some("origin.md".into())));
    disk.delete_document(&mut c, &ctx, "doc.md");
    assert!(c.get_document("doc.md").is_none());

    let delete_txn = c.history(10)[0].txn_id;
    disk.undo(&mut c, &ctx, delete_txn, false).unwrap();

    let entry = c.get_document("doc.md").expect("undo of delete_document must restore the document");
    assert_eq!(entry.doc_id, doc_id);
    assert_eq!(entry.version, 1);
    assert_eq!(entry.source.as_deref(), Some("origin.md"));
    let chunks = c.list_chunks(doc_id).unwrap();
    assert_eq!(chunks.len(), 2);
}

#[test]
fn concurrent_writers_undo_only_touches_its_own_transaction() {
    let mut disk = Disk::new();
    let mut c = disk.open();
    let alice = ctx_as("alice");
    let bob = ctx_as("bob");

    disk.put(&mut c, &alice, "a", [1.0, 0.0, 0.0]);
    disk.put(&mut c, &bob, "b", [0.0, 1.0, 0.0]);

    let alice_txn = c.history(10).iter().find(|e| e.principal.0 == "p_alice").unwrap().txn_id;
    disk.undo(&mut c, &alice, alice_txn, false).unwrap();

    assert!(c.get_by_key("a").is_none(), "alice's own row must be gone");
    assert!(c.get_by_key("b").is_some(), "bob's independent write must be completely untouched");
}

#[test]
fn undo_refuses_on_write_write_conflict_without_force() {
    let mut disk = Disk::new();
    let mut c = disk.open();
    let ctx = ctx();
    disk.put(&mut c, &ctx, "a", [1.0, 0.0, 0.0]);
    let insert_txn = c.history(10)[0].txn_id;
    disk.put(&mut c, &ctx, "a", [0.0, 1.0, 0.0]);

    let err = disk.undo(&mut c, &ctx, insert_txn, false).err().unwrap();
    match err {
        StorageError::UndoConflict { txn, conflicts } => {
            assert_eq!(txn, insert_txn);
            assert_eq!(conflicts.len(), 1);
            assert_eq!(conflicts[0].row_count, 1);
        }
        other => panic!("expected UndoConflict, got {other:?}"),
    }
    assert_eq!(c.get_by_key("a").unwrap().vector, Some(vector(&[0.0, 1.0, 0.0])));
}

#[test]
fn undo_with_force_overrides_a_conflict() {
    let mut disk = Disk::new();
    let mut c = disk.open();
    let ctx = ctx();
    disk.put(&mut c, &ctx, "a", [1.0, 0.0, 0.0]);
    let insert_txn = c.history(10)[0].txn_id;
    disk.put(&mut c, &ctx, "a", [0.0, 1.0, 0.0]);

    disk.undo(&mut c, &ctx, insert_txn, true).unwrap();
    assert!(c.get_by_key("a").is_none());
}

#[test]
fn history_is_most_recent_first_and_shows_undone_by() {
    let mut disk = Disk::new();
    let mut c = disk.open();
    let ctx = ctx();
    disk.put(&mut c, &ctx, "a", [1.0, 0.0, 0.0]);
    disk.put(&mut c, &ctx, "b", [0.0, 1.0, 0.0]);
    let b_txn = c.history(10)[0].txn_id;
    disk.undo(&mut c, &ctx, b_txn, false).unwrap();

    let history = c.history(10);
    assert_eq!(history.len(), 3, "insert a, insert b, undo of b");
    assert_ne!(history[0].txn_id, b_txn, "most recent entry must be the new undo txn, not the target");
    let b_entry = history.iter().find(|e| e.txn_id == b_txn).unwrap();
    assert_eq!(b_entry.undone_by, Some(history[0].txn_id));
    assert_eq!(c.history(1).len(), 1);
}

#[test]
fn undo_survives_a_restart_before_and_after() {
    let mut disk = Disk::new();
    let target = {
        let mut c = disk.open();
        disk.put(&mut c, &ctx(), "a", [1.0, 0.0, 0.0]);
        c.history(10)[0].txn_id
    };

    let mut c2 = disk.open();
    assert!(c2.get_by_key("a").is_some());
    disk.undo(&mut c2, &ctx(), target, false).unwrap();
    assert!(c2.get_by_key("a").is_none());

    let c3 = disk.open();
    assert!(c3.get_by_key("a").is_none());
    let history = c3.history(10);
    let entry = history.iter().find(|e| e.txn_id == target);
    assert!(entry.unwrap().undone_by.is_some(), "undone_by must survive a restart, reconstructed from the WAL");
}

// Recovery.

fn append_torn_document_txn(disk: &mut Disk, doc_key: &str, op: WalOp, total_chunks: u32, chunks_actually_written: u32) {
    let mut writer = disk.log.writer(SEGMENT_SIZE);
    let txn = TxnId::new();
    let mut records: Vec<WalRecord> = (0..chunks_actually_written)
        .map(|ord| WalRecord {
            op,
            row_id: Some(RowId(1000 + ord as u64)),
            key: Some(format!("{doc_key}#{ord}")),
            doc_id: Some(DocId(999)),
            doc_key: Some(doc_key.to_string()),
            chunk_ord: Some(ord),
            payload: Some(WalPayload {
                vector_b64: Some(encode_vector(&vector(&[0.1, 0.2, 0.3]))),
                text: Some(format!("torn chunk {ord}")),
                fields: Some(PayloadRow::new()),
                extra: None,
            }),
            ..base_record(txn, (ord + 1, total_chunks))
        })
        .collect();
    disk.log.append_batch(&mut writer, &mut records);
}

#[test]
fn clean_reopen_reconstructs_rows_and_documents_exactly() {
    let mut disk = Disk::new();
    let (id_a, doc_id) = {
        let mut c = disk.open();
        let id_a = disk.put(&mut c, &ctx(), "a", [1.0, 2.0, 3.0]);
        let chunks = vec![chunk("chunk 0", [0.1, 0.2, 0.3]), chunk("chunk 1", [0.4, 0.5, 0.6])];
        let doc_id = disk.put_document(&mut c, &ctx(), document("handbook.md", chunks, None));
        (id_a, doc_id)
    };

    let c2 = disk.open();
    assert_eq!(c2.active_count(), 3, "1 plain row + 2 chunks");

    let row_a = c2.get_by_key("a").unwrap();
    assert_eq!(row_a.id, id_a);
    assert_eq!(row_a.vector, Some(vector(&[1.0, 2.0, 3.0])));

    let entry = c2.get_document("handbook.md").unwrap();
    assert_eq!(entry.doc_id, doc_id);
    assert_eq!(entry.version, 1);
    assert_eq!(entry.chunk_count, 2);

    let chunks = c2.list_chunks(doc_id).unwrap();
    assert_eq!(chunks.len(), 2);
    assert_eq!(chunks[0].text.as_deref(), Some("chunk 0"));
    assert_eq!(chunks[1].text.as_deref(), Some("chunk 1"));
    assert_eq!(chunks[0].chunk_ord, Some(0));
    assert_eq!(chunks[1].chunk_ord, Some(1));
}

#[test]
fn crash_mid_document_transaction_discards_it_whole_but_keeps_prior_state() {
    let mut disk = Disk::new();
    {
        let mut c = disk.open();
        disk.put(&mut c, &ctx(), "a", [1.0, 0.0, 0.0]);
        disk.put_document(&mut c, &ctx(), document("first.md", vec![chunk("t0", [0.1, 0.0, 0.0])], None));
    }
    append_torn_document_txn(&mut disk, "second.md", WalOp::Insert, 5, 3);

    let mut c2 = disk.open();
    assert_eq!(
        c2.active_count(),
        2,
        "1 plain row + 1 chunk from the complete document; the torn document must not appear at all, not even partially"
    );
    assert!(c2.get_document("second.md").is_none(), "a torn document transaction must not create a partial doc entry");
    assert!(c2.get_by_key("second.md#0").is_none(), "not even the first chunk of a torn multi-record txn may survive");
    assert!(c2.get_by_key("a").is_some(), "state committed before the tear must be untouched");
    assert!(c2.get_document("first.md").is_some());

    let new_id = disk.put(&mut c2, &ctx(), "second.md#0", [0.5, 0.5, 0.5]);
    assert_eq!(c2.active_count(), 3);
    let c3 = disk.open();
    assert_eq!(c3.get_by_key("second.md#0").unwrap().id, new_id);
}

#[test]
fn crash_mid_line_is_recovered_identically_to_crash_mid_transaction() {
    let mut disk = Disk::new();
    {
        let mut c = disk.open();
        disk.put(&mut c, &ctx(), "a", [1.0, 0.0, 0.0]);
        disk.put(&mut c, &ctx(), "b", [0.0, 1.0, 0.0]);
    }
    let torn = b"{\"v\":1,\"lsn\":\"garbage-torn";
    disk.log.push(0, Line::Torn(torn.len() as u32));

    let mut c2 = disk.open();
    assert_eq!(c2.active_count(), 2, "both clean records must survive; the torn tail must be dropped silently and safely");
    assert!(c2.get_by_key("a").is_some());
    assert!(c2.get_by_key("b").is_some());

    disk.put(&mut c2, &ctx(), "c", [0.0, 0.0, 1.0]);
    assert_eq!(c2.active_count(), 3);
    assert_eq!(disk.open().active_count(), 3);
}

#[test]
fn replace_document_survives_a_crash_between_the_delete_half_and_the_insert_half() {
    let mut disk = Disk::new();
    {
        let mut c = disk.open();
        disk.put_document(&mut c, &ctx(), document("doc.md", vec![chunk("v1", [1.0, 0.0, 0.0])], None));
    }
    append_torn_document_txn(&mut disk, "doc.md", WalOp::Delete, 2, 1);

    let c2 = disk.open();
    let entry = c2.get_document("doc.md").expect("a torn replace must leave the document exactly as it was");
    assert_eq!(entry.version, 1);
    let chunks = c2.list_chunks(entry.doc_id).unwrap();
    assert_eq!(chunks.len(), 1);
    assert_eq!(chunks[0].text.as_deref(), Some("v1"));
}

// Replication.

#[test]
fn wal_lines_after_none_covers_every_record_on_a_fresh_leader() {
    let mut disk = Disk::new();
    let mut leader = disk.open();
    for k in ["a", "b", "c"] {
        disk.put(&mut leader, &ctx(), k, [1.0, 0.0, 0.0]);
    }

    let (lines, cursor) = leader.wal_lines_after(&disk.log.lines(), None);
    assert_eq!(lines.len(), 3);
    assert_eq!(cursor, leader.last_applied_lsn());
}

#[test]
fn follower_applying_leader_lines_reconstructs_identical_state() {
    let mut disk = Disk::new();
    let mut leader = disk.open();
    disk.put(&mut leader, &ctx(), "a", [1.0, 0.0, 0.0]);
    disk.put(&mut leader, &ctx(), "b", [0.0, 1.0, 0.0]);
    disk.delete(&mut leader, &ctx(), "a");
    disk.put(&mut leader, &ctx(), "c", [0.0, 0.0, 1.0]);

    let mut follower_disk = Disk::new();
    let mut follower = follower_disk.open();
    let (lines, _) = leader.wal_lines_after(&disk.log.lines(), None);
    follower_disk.apply_replicated(&mut follower, &received(&lines)).unwrap();

    assert!(follower.get_by_key("a").is_none(), "the delete must have replayed on the follower too");
    assert_eq!(follower.get_by_key("b").unwrap().vector, Some(vector(&[0.0, 1.0, 0.0])));
    assert_eq!(follower.get_by_key("c").unwrap().vector, Some(vector(&[0.0, 0.0, 1.0])));
    assert_eq!(follower.active_count(), leader.active_count());
    assert_eq!(follower.last_applied_lsn(), leader.last_applied_lsn());
}

#[test]
fn follower_catches_up_incrementally_across_multiple_streaming_batches() {
    let mut disk = Disk::new();
    let mut leader = disk.open();
    let mut follower_disk = Disk::new();
    let mut follower = follower_disk.open();

    disk.put(&mut leader, &ctx(), "a", [1.0, 0.0, 0.0]);
    let (batch1, _) = leader.wal_lines_after(&disk.log.lines(), follower.last_applied_lsn());
    follower_disk.apply_replicated(&mut follower, &received(&batch1)).unwrap();

    disk.put(&mut leader, &ctx(), "b", [0.0, 1.0, 0.0]);
    let (batch2, _) = leader.wal_lines_after(&disk.log.lines(), follower.last_applied_lsn());
    assert_eq!(batch2.len(), 1, "the second batch must only contain the new record, not a and b both");
    follower_disk.apply_replicated(&mut follower, &received(&batch2)).unwrap();

    assert!(follower.get_by_key("a").is_some());
    assert!(follower.get_by_key("b").is_some());
    assert_eq!(follower.last_applied_lsn(), leader.last_applied_lsn());
}

#[test]
fn wal_lines_after_returns_the_unchanged_cursor_when_there_is_nothing_new() {
    let mut disk = Disk::new();
    let mut leader = disk.open();
    disk.put(&mut leader, &ctx(), "a", [1.0, 0.0, 0.0]);
    let (_, cursor) = leader.wal_lines_after(&disk.log.lines(), None);

    let (lines, cursor2) = leader.wal_lines_after(&disk.log.lines(), cursor);
    assert!(lines.is_empty());
    assert_eq!(cursor2, cursor, "polling again with no new writes must return the same cursor, not None or something advanced");
}

#[test]
fn apply_replicated_lines_rejects_a_tampered_checksum_and_applies_nothing() {
    let mut disk = Disk::new();
    let mut leader = disk.open();
    disk.put(&mut leader, &ctx(), "a", [1.0, 0.0, 0.0]);
    let (mut lines, _) = leader.wal_lines_after(&disk.log.lines(), None);
    lines[0].key = Some("tampered".into());

    let mut follower_disk = Disk::new();
    let mut follower = follower_disk.open();
    let err = follower_disk.apply_replicated(&mut follower, &received(&lines)).unwrap_err();
    assert!(matches!(&err, StorageError::Wal(m) if m.contains("checksum")), "expected a checksum error, got {err:?}");
    assert_eq!(follower.active_count(), 0, "a rejected batch must leave the follower untouched");
    assert_eq!(follower.last_applied_lsn(), None);
}

#[test]
fn a_malformed_replicated_line_is_refused() {
    let mut follower_disk = Disk::new();
    let mut follower = follower_disk.open();
    let lines: Vec<ReceivedLine> = vec![Err("expected value at line 1 column 1".into())];
    let err = follower_disk.apply_replicated(&mut follower, &lines).unwrap_err();
    assert_eq!(err, StorageError::Wal("malformed replicated WAL line: expected value at line 1 column 1".into()));
}

#[test]
fn apply_replicated_lines_notifies_subscribers_grouped_by_transaction() {
    let mut disk = Disk::new();
    let mut leader = disk.open();
    disk.put(&mut leader, &ctx(), "a", [1.0, 0.0, 0.0]);
    disk.put(&mut leader, &ctx(), "b", [0.0, 1.0, 0.0]);
    disk.put_batch(&mut leader, &ctx(), vec![put_input("c", [0.0, 0.0, 1.0]), put_input("d", [1.0, 1.0, 0.0])]).unwrap();

    let mut follower_disk = Disk::new();
    let mut follower = follower_disk.open();
    let (lines, _) = leader.wal_lines_after(&disk.log.lines(), None);
    follower_disk.apply_replicated(&mut follower, &received(&lines)).unwrap();

    assert_eq!(
        follower.outbox.len(),
        3,
        "3 leader-side transactions must produce 3 separate ChangeBatch notifications, not 1 merged one"
    );
    let event_counts: Vec<usize> = follower.outbox.iter().map(|b| b.events.len()).collect();
    assert_eq!(event_counts, vec![1, 1, 2]);
}

#[test]
fn a_replicating_follower_survives_a_reopen_and_keeps_accepting_new_batches() {
    let mut disk = Disk::new();
    let mut leader = disk.open();
    disk.put(&mut leader, &ctx(), "a", [1.0, 0.0, 0.0]);

    let mut follower_disk = Disk::new();
    {
        let mut follower = follower_disk.open();
        let (lines, _) = leader.wal_lines_after(&disk.log.lines(), None);
        follower_disk.apply_replicated(&mut follower, &received(&lines)).unwrap();
    }
    let mut follower = follower_disk.open();
    assert!(follower.get_by_key("a").is_some(), "the replicated row must survive the reopen");
    assert_eq!(follower.last_applied_lsn(), leader.last_applied_lsn());

    disk.put(&mut leader, &ctx(), "b", [0.0, 1.0, 0.0]);
    let (more, _) = leader.wal_lines_after(&disk.log.lines(), follower.last_applied_lsn());
    follower_disk.apply_replicated(&mut follower, &received(&more)).unwrap();
    assert!(follower.get_by_key("b").is_some());
}

// Checkpoints.

#[test]
fn checkpoint_then_reopen_reconstructs_state_from_the_snapshot_alone() {
    let mut disk = Disk::new();
    let ctx = ctx();
    let doc_id = {
        let mut c = disk.open();
        disk.put(&mut c, &ctx, "a", [1.0, 2.0, 3.0]);
        let doc_id = disk.put_document(&mut c, &ctx, document("handbook.md", vec![chunk("c0", [0.1, 0.2, 0.3])], None));
        disk.checkpoint(&c);
        doc_id
    };

    disk.log = Log::new();

    let c2 = disk.open();
    assert_eq!(c2.active_count(), 2);
    assert_eq!(c2.get_by_key("a").unwrap().vector, Some(vector(&[1.0, 2.0, 3.0])));
    let entry = c2.get_document("handbook.md").unwrap();
    assert_eq!(entry.doc_id, doc_id);
    assert_eq!(c2.list_chunks(doc_id).unwrap().len(), 1);
}

#[test]
fn writes_after_a_checkpoint_still_replay_correctly_from_the_wal_tail() {
    let mut disk = Disk::new();
    let ctx = ctx();
    {
        let mut c = disk.open();
        disk.put(&mut c, &ctx, "a", [1.0, 0.0, 0.0]);
        disk.checkpoint(&c);
        disk.put(&mut c, &ctx, "b", [0.0, 1.0, 0.0]);
    }

    let c2 = disk.open();
    assert_eq!(c2.active_count(), 2);
    assert!(c2.get_by_key("a").is_some());
    assert!(c2.get_by_key("b").is_some(), "post-checkpoint write must survive via WAL-tail replay");
}

#[test]
fn a_corrupt_newest_snapshot_falls_back_to_an_older_valid_generation() {
    let mut disk = Disk::new();
    let ctx = ctx();
    {
        let mut c = disk.open();
        disk.put(&mut c, &ctx, "a", [1.0, 0.0, 0.0]);
        disk.checkpoint(&c);
        disk.put(&mut c, &ctx, "b", [0.0, 1.0, 0.0]);
        disk.checkpoint(&c);
    }

    disk.files.sort();
    disk.files.last_mut().unwrap().1 = b"not a valid snapshot at all".to_vec();
    assert_eq!(disk.newest_sound(), 1);

    let c2 = disk.open();
    assert!(c2.get_by_key("a").is_some());
    assert!(
        c2.get_by_key("b").is_some(),
        "the WAL tail after the older valid snapshot must still supply what the corrupt newest one would have"
    );
}

#[test]
fn only_three_snapshot_generations_are_retained() {
    let mut disk = Disk::new();
    let ctx = ctx();
    let mut c = disk.open();
    for i in 0..5 {
        disk.put(&mut c, &ctx, &format!("k{i}"), [i as f32, 0.0, 0.0]);
        disk.checkpoint(&c);
    }
    let count = disk.files.iter().filter(|(name, _)| name.starts_with("snapshot-") && name.ends_with(".mdb")).count();
    assert_eq!(count, 3, "only the 3 most recent checkpoint generations should survive");
    assert_eq!(list_generations(&disk.names()), vec![2, 3, 4]);
}

#[test]
fn undo_history_survives_a_checkpoint_and_still_detects_conflicts() {
    let mut disk = Disk::new();
    let ctx = ctx();
    let insert_txn = {
        let mut c = disk.open();
        disk.put(&mut c, &ctx, "a", [1.0, 0.0, 0.0]);
        let txn = c.history(10)[0].txn_id;
        disk.checkpoint(&c);
        txn
    };

    let mut c2 = disk.open();
    assert!(c2.history(10).iter().any(|e| e.txn_id == insert_txn));

    disk.undo(&mut c2, &ctx, insert_txn, false).unwrap();
    assert!(c2.get_by_key("a").is_none());

    let err = disk.undo(&mut c2, &ctx, insert_txn, false).err().unwrap();
    assert!(matches!(err, StorageError::InvalidArgument(_)));
}

#[test]
fn checkpoint_frames_read_back_and_damage_shows() {
    let payload: Vec<u8> = b"123456789".to_vec();
    let framed = frame_checkpoint(&payload);
    assert_eq!(framed[..4], [0x83, 0x92, 0x06, 0xe3]);
    assert_eq!(open_checkpoint(&framed), Some(payload));
    for i in 0..framed.len() {
        let mut damaged = framed.clone();
        damaged[i] ^= 1;
        assert_eq!(open_checkpoint(&damaged), None);
    }
    assert_eq!(open_checkpoint(&vec![1, 2, 3]), None);
}

// The registry.

#[test]
fn a_fresh_storage_instance_rediscovers_a_collection_created_by_a_prior_one() {
    let mut log = Log::new();
    let open = |entry: &RegistryEntry, log: &Log| {
        let mut builder = PayloadSchema::builder();
        for (name, ty) in &entry.schema {
            builder = builder.field(name, *ty);
        }
        let replay = log.replay(None);
        let writer = log.writer(SEGMENT_SIZE);
        Collection::open(&entry.name, entry.dim, entry.metric, builder.build(), true, &None, &replay.records, writer).unwrap()
    };

    let entries = {
        let mut s1 = Storage::open(&Vec::new());
        s1.check_create("docs").unwrap();
        let entry = RegistryEntry {
            name: "docs".into(),
            dim: 3,
            metric: DistanceMetric::Cosine,
            schema: vec![("title".into(), FieldType::Keyword)],
        };
        let mut c = open(&entry, &log);
        let mut fields = PayloadRow::new();
        fields.insert("title".into(), PayloadValue::Keyword("hello".into()));
        let txn = TxnId::new();
        let items = vec![PutInput { key: "a".into(), vector: vector(&[1.0, 2.0, 3.0]), fields, extra: None }];
        let mut records = c.plan_put_batch(&ctx(), &items, txn, &readings(1)).unwrap().records;
        let mut writer = c.wal.unwrap();
        log.append_batch(&mut writer, &mut records);
        c.wal = Some(writer);
        c.finish(txn, &records, Ok(())).unwrap();
        s1.install(c);
        s1.register(entry);
        s1.registry_entries()
    };

    let mut s2 = Storage::open(&entries);
    assert_eq!(s2.list_collections(), vec!["docs".to_string()], "list_collections must include registry-only entries");
    match s2.lookup("docs") {
        Lookup::Registered(entry) => s2.install(open(&entry, &log)),
        Lookup::Open(_) => panic!("the collection is not open yet"),
        Lookup::Missing => panic!("the collection must be rediscovered"),
    }
    let row = s2.get_by_key("docs", "a").unwrap().expect("the row must survive across Storage instances");
    assert_eq!(row.vector, Some(vector(&[1.0, 2.0, 3.0])));

    let mut bad_fields = PayloadRow::new();
    bad_fields.insert("ghost".into(), PayloadValue::Bool(true));
    let items = vec![PutInput { key: "b".into(), vector: vector(&[0.0, 0.0, 0.0]), fields: bad_fields, extra: None }];
    let c = s2.collection("docs").ok().unwrap();
    assert!(c.plan_put_batch(&ctx(), &items, TxnId::new(), &readings(1)).is_err());

    assert_eq!(s2.check_create("docs").unwrap_err(), StorageError::CollectionAlreadyExists("docs".into()));
}

#[test]
fn a_checkpoint_says_whether_it_can_be_opened() {
    let mut disk = Disk::new();
    let mut c = disk.open();
    disk.put(&mut c, &ctx(), "a", [1.0, 0.0, 0.0]);
    let mut snapshot = c.checkpoint().unwrap();
    assert!(snapshot.is_sound());
    assert!(snapshot.fits(&c.inner.payload));
    snapshot.next_row_id = 0;
    assert!(!snapshot.is_sound());
    let memory = Collection::new("docs", 3, DistanceMetric::Cosine);
    assert!(memory.checkpoint().is_none());
}

#[test]
fn undoing_a_batch_with_a_key_twice_restores_what_was_there() {
    let mut disk = Disk::new();
    let mut c = disk.open();
    let ctx = ctx();
    disk.put(&mut c, &ctx, "old", [9.0, 0.0, 0.0]);
    let items = vec![
        put_input("old", [1.0, 0.0, 0.0]),
        put_input("new", [2.0, 0.0, 0.0]),
        put_input("old", [3.0, 0.0, 0.0]),
        put_input("new", [4.0, 0.0, 0.0]),
    ];
    let ids = disk.put_batch(&mut c, &ctx, items).unwrap();
    assert_eq!(ids, vec![RowId(0), RowId(1), RowId(0), RowId(1)]);
    let batch = c.history(10)[0].txn_id;

    disk.undo(&mut c, &ctx, batch, false).unwrap();
    assert_eq!(c.get_by_key("old").unwrap().vector, Some(vector(&[9.0, 0.0, 0.0])));
    assert!(c.get_by_key("new").is_none());
    assert_eq!(c.active_count(), 1);

    let undo = c.history(10)[0].txn_id;
    disk.undo(&mut c, &ctx, undo, false).unwrap();
    assert_eq!(c.get_by_key("old").unwrap().vector, Some(vector(&[3.0, 0.0, 0.0])));
    assert_eq!(c.get_by_key("new").unwrap().vector, Some(vector(&[4.0, 0.0, 0.0])));
    assert_eq!(disk.open().active_count(), 2);
}

#[test]
fn an_undone_undo_of_a_document_deletion_deletes_it_again() {
    let mut disk = Disk::new();
    let mut c = disk.open();
    let ctx = ctx();
    let chunks = vec![chunk("one", [1.0, 0.0, 0.0]), chunk("two", [0.0, 1.0, 0.0])];
    disk.put_document(&mut c, &ctx, document("d", chunks, Some("file".into())));
    let before = c.get_document("d").unwrap();
    disk.delete_document(&mut c, &ctx, "d");
    assert!(c.get_document("d").is_none());
    let deletion = c.history(10)[0].txn_id;

    disk.undo(&mut c, &ctx, deletion, false).unwrap();
    let back = c.get_document("d").unwrap();
    assert_eq!(back.doc_id, before.doc_id);
    assert_eq!(back.version, before.version);
    assert_eq!(back.chunk_count, before.chunk_count);
    assert_eq!(c.list_chunks(back.doc_id).unwrap().len(), 2);

    let undo = c.history(10)[0].txn_id;
    disk.undo(&mut c, &ctx, undo, false).unwrap();
    assert!(c.get_document("d").is_none());
    assert_eq!(c.active_count(), 0);
}

#[test]
fn an_altered_schema_is_found_again_with_its_rows() {
    let mut log = Log::new();
    let open = |entry: &RegistryEntry, log: &Log| {
        let mut builder = PayloadSchema::builder();
        for (name, ty) in &entry.schema {
            builder = builder.field(name, *ty);
        }
        let replay = log.replay(None);
        let writer = log.writer(SEGMENT_SIZE);
        Collection::open(&entry.name, entry.dim, entry.metric, builder.build(), true, &None, &replay.records, writer).unwrap()
    };
    let sized = |n: i64| {
        let mut fields = PayloadRow::new();
        fields.insert("size".into(), PayloadValue::I64(n));
        fields
    };
    let entry = RegistryEntry { name: "docs".into(), dim: 3, metric: DistanceMetric::Cosine, schema: Vec::new() };

    let mut s1 = Storage::open(&Vec::new());
    s1.install(open(&entry, &log));
    s1.register(entry);
    s1.alter_schema(&ctx(), "docs", SchemaChange::AddField { name: "size".into(), field_type: FieldType::I64 }).unwrap();
    let entries = s1.registry_entries();
    assert_eq!(entries[0].schema, vec![("size".to_string(), FieldType::I64)]);

    let c = s1.collection("docs").ok().unwrap();
    let items = vec![PutInput { key: "a".into(), vector: vector(&[1.0, 2.0, 3.0]), fields: sized(7), extra: None }];
    let mut records = c.plan_put_batch(&ctx(), &items, TxnId::new(), &readings(1)).unwrap().records;
    let mut writer = c.wal.unwrap();
    log.append_batch(&mut writer, &mut records);

    let mut s2 = Storage::open(&entries);
    s2.install(open(&entries[0], &log));
    let row = s2.get_by_key("docs", "a").unwrap().unwrap();
    assert_eq!(row.vector, Some(vector(&[1.0, 2.0, 3.0])));
    assert_eq!(row.fields, sized(7));

    s2.alter_schema(&ctx(), "docs", SchemaChange::DropField { name: "size".into() }).unwrap();
    let entries = s2.registry_entries();
    assert!(entries[0].schema.is_empty());
    let mut s3 = Storage::open(&entries);
    s3.install(open(&entries[0], &log));
    assert_eq!(s3.get_by_key("docs", "a").unwrap().unwrap().vector, Some(vector(&[1.0, 2.0, 3.0])));
    let c = s3.collection("docs").ok().unwrap();
    assert!(c.plan_put_batch(&ctx(), &items, TxnId::new(), &readings(1)).is_err(), "new rows are still held to the schema");
}

#[test]
fn a_follower_that_has_caught_up_polls_nothing() {
    let mut leader_disk = Disk::new();
    let mut leader = leader_disk.open();
    let mut follower_disk = Disk::new();
    let mut follower = follower_disk.open();
    for key in ["a", "b"] {
        leader_disk.put(&mut leader, &ctx(), key, [1.0, 0.0, 0.0]);
        let (records, cursor) = leader.wal_lines_after(&leader_disk.log.lines(), follower.last_applied_lsn());
        follower_disk.apply_replicated(&mut follower, &received(&records)).unwrap();
        assert_eq!(follower.last_applied_lsn(), cursor);
        assert_eq!(follower.last_applied_lsn(), leader.last_applied_lsn());
        let (more, same) = leader.wal_lines_after(&leader_disk.log.lines(), cursor);
        assert!(more.is_empty());
        assert_eq!(same, cursor);
    }
}

#[test]
fn what_is_appended_to_a_log_replays_after_what_it_held() {
    let mut log = Log::new();
    let mut writer = log.writer(200);
    let mut first = singles(3);
    log.append_batch(&mut writer, &mut first);
    let txn = TxnId::new();
    let mut second: Vec<WalRecord> = (1..=4).map(|i| base_record(txn, (i, 4))).collect();
    log.append_batch(&mut writer, &mut second);

    let replay = log.replay(None);
    let expected: Vec<Lsn> = first.iter().chain(second.iter()).map(|r| r.lsn).collect();
    assert_eq!(replay.records.iter().map(|r| r.lsn).collect::<Vec<_>>(), expected);
    assert_eq!((replay.last_segment_id, replay.last_segment_valid_len), (writer.segment_id, writer.offset));
    let tail = log.replay(Some(first[2].lsn));
    assert_eq!(tail.records.iter().map(|r| r.lsn).collect::<Vec<_>>(), second.iter().map(|r| r.lsn).collect::<Vec<_>>());
}

#[test]
fn a_failed_append_of_a_document_uses_up_no_ids() {
    let mut disk = Disk::new();
    let mut c = disk.open();
    let input = document("d", vec![chunk("one", [1.0, 0.0, 0.0]), chunk("two", [0.0, 1.0, 0.0])], None);
    let txn = TxnId::new();
    let plan = c.plan_put_document(&ctx(), &input, txn, &readings(2)).unwrap();
    let err = c.finish(txn, &plan.records, Err("disk full".into())).unwrap_err();
    assert_eq!(err, StorageError::Wal("disk full".into()));
    assert_eq!((c.inner.next_row_id, c.inner.next_doc_id), (0, 0));
    assert!(c.get_document("d").is_none());

    assert_eq!(disk.put_document(&mut c, &ctx(), input), DocId(0));
    assert_eq!((c.inner.next_row_id, c.inner.next_doc_id), (2, 1));
    let rest = vec![chunk("three", [0.0, 0.0, 1.0])];
    let model = model();
    let plan = c
        .plan_replace_document(&ctx(), "d", &rest, &PayloadRow::new(), &ChunkSpec::default(), &None, &model, txn, &readings(3))
        .unwrap();
    c.finish(txn, &plan.records, Err("disk full".into())).unwrap_err();
    assert_eq!((c.inner.next_row_id, c.inner.next_doc_id), (2, 1));
    assert_eq!(c.get_document("d").unwrap().version, 1);
}

#[test]
fn an_undone_deletion_brings_a_document_back_whose_row_was_put_again() {
    let mut disk = Disk::new();
    let mut c = disk.open();
    let ctx = ctx();
    let doc_id = disk.put_document(&mut c, &ctx, document("d", vec![chunk("one", [1.0, 0.0, 0.0])], Some("file".into())));
    let mut fields = PayloadRow::new();
    fields.insert("tag".into(), PayloadValue::Keyword("new".into()));
    let items = vec![PutInput { key: "d#0".into(), vector: vector(&[2.0, 0.0, 0.0]), fields: fields.clone(), extra: None }];
    disk.put_batch(&mut c, &ctx, items).unwrap();
    let before = c.get_document("d").unwrap();
    disk.delete_document(&mut c, &ctx, "d");
    let deletion = c.history(10)[0].txn_id;
    disk.undo(&mut c, &ctx, deletion, false).unwrap();

    let back = c.get_document("d").unwrap();
    assert_eq!((back.doc_id, back.version, back.source.as_deref()), (doc_id, before.version, Some("file")));
    assert_eq!(back.rows, before.rows);
    let rows = c.list_chunks(doc_id).unwrap();
    assert_eq!(rows[0].vector, Some(vector(&[2.0, 0.0, 0.0])));
    assert_eq!(rows[0].fields, fields);
    assert_eq!(back.doc_payload, fields);
}

#[test]
fn positions_ascend_through_a_whole_log() {
    let mut log = Log::new();
    let mut writer = log.writer(200);
    for _ in 0..4 {
        log.append_batch(&mut writer, &mut singles(3));
        writer = log.writer(200);
    }
    let lsns: Vec<Lsn> = log.replay(None).records.iter().map(|r| r.lsn).collect();
    assert_eq!(lsns.len(), 12);
    assert!(lsns.windows(2).all(|w| w[0] < w[1]));
    assert!(*lsns.last().unwrap() < writer.current_lsn());

    let mut follower = Log::new();
    let mut cursor = follower.writer(200);
    let records = log.replay(None).records;
    follower.append_replicated(&mut cursor, &records[..5].to_vec());
    follower.append_replicated(&mut cursor, &records[5..].to_vec());
    let copied: Vec<Lsn> = follower.replay(None).records.iter().map(|r| r.lsn).collect();
    assert_eq!(copied, lsns);
}

#[test]
fn a_checkpoint_after_every_kind_of_write_opens_as_its_log_does() {
    let write = |disk: &mut Disk, c: &mut Collection| {
        let ctx = ctx();
        disk.put(c, &ctx, "a", [1.0, 0.0, 0.0]);
        disk.put(c, &ctx, "b", [2.0, 0.0, 0.0]);
        disk.delete(c, &ctx, "a");
        disk.put_document(c, &ctx, document("d", vec![chunk("one", [3.0, 0.0, 0.0])], None));
        disk.replace_document(c, &ctx, "d", vec![chunk("two", [4.0, 0.0, 0.0]), chunk("three", [5.0, 0.0, 0.0])]);
        disk.put_document(c, &ctx, document("e", vec![chunk("four", [6.0, 0.0, 0.0])], None));
        disk.delete_document(c, &ctx, "e");
        let deletion = c.history(10)[0].txn_id;
        disk.undo(c, &ctx, deletion, false).unwrap();
    };
    let mut disk = Disk::new();
    let mut c = disk.open();
    write(&mut disk, &mut c);
    let replayed = disk.open();
    disk.checkpoint(&c);
    let restored = disk.open();
    for c in [&replayed, &restored] {
        assert_eq!(c.active_count(), 4);
        assert_eq!(c.history(20).len(), 8);
        assert_eq!(c.get_document("d").unwrap().version, 2);
        assert_eq!(c.get_document("e").unwrap().chunk_count, 1);
        assert!(c.get_by_key("a").is_none());
        assert_eq!(c.get_by_key("d#1").unwrap().vector, Some(vector(&[5.0, 0.0, 0.0])));
    }
    assert_eq!(replayed.last_applied_lsn(), restored.last_applied_lsn());
}
