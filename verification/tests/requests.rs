use mara::codec::ProtoError;
use mara::error::StorageError;
use mara::fields::PayloadRow;
use mara::filter::Filter;
use mara::hit::IndexError;
use mara::ids::{DocId, PrincipalId, RowId, SessionId, TxnId};
use mara::lsh::LshError;
use mara::model::{ChunkSpec, ChunkStrategy, DistanceMetric, Principal, RequestCtx, Role, Source};
use mara::params::SearchParams;
use mara::payload::FilterError;
use mara::pq::PqError;
use mara::request::{PutItem, Request, SearchMode, WireFieldType, WireIndexKind, WireSearchParams};
use mara::store::MaraStore;

fn store() -> MaraStore {
    MaraStore::new("docs".into())
}

#[test]
fn a_store_asks_for_its_own_collection() {
    let s = store();
    assert_eq!(s.collection(), "docs");
    assert_eq!(s.get("a"), Request::GetByKey { coll: "docs".into(), key: "a".into() });
    assert_eq!(s.delete("a"), Request::Delete { coll: "docs".into(), key: "a".into() });
    assert_eq!(
        s.put("a", vec![1, 2], PayloadRow::new(), None),
        Request::Put {
            coll: "docs".into(),
            key: "a".into(),
            text: None,
            vector: Some(vec![1, 2]),
            fields: PayloadRow::new(),
            extra: None,
        }
    );
    assert_eq!(
        s.create_collection(3, DistanceMetric::L2, vec![("tag".into(), WireFieldType::Keyword)]),
        Request::CreateCollection {
            name: "docs".into(),
            dim: 3,
            metric: DistanceMetric::L2,
            schema: vec![("tag".into(), WireFieldType::Keyword)],
        }
    );
    assert_eq!(s.reindex(WireIndexKind::Lsh), Request::Reindex { coll: "docs".into(), index_kind: WireIndexKind::Lsh });
    let item = || PutItem { key: "a".into(), text: Some("t".into()), vector: None, fields: PayloadRow::new(), extra: None };
    assert_eq!(s.put_batch(vec![item()]), Request::PutBatch { coll: "docs".into(), items: vec![item()] });
}

#[test]
fn documents_are_chunked_by_default() {
    let asked = store().add_document("a.md", "text", None, PayloadRow::new(), Some("src".into()));
    let want = ChunkSpec {
        strategy: ChunkStrategy::Markdown { respect_headings: true },
        max_tokens: 512,
        overlap_tokens: 64,
        trim: true,
    };
    assert_eq!(
        asked,
        Request::PutDocument {
            coll: "docs".into(),
            doc_key: "a.md".into(),
            text: "text".into(),
            chunk_spec: want,
            fields: PayloadRow::new(),
            source: Some("src".into()),
        }
    );
}

#[test]
fn a_text_query_is_a_hybrid_search() {
    assert_eq!(
        store().query("hello", 5),
        Request::Search {
            coll: "docs".into(),
            query_text: Some("hello".into()),
            query_vector: None,
            mode: SearchMode::Hybrid { method: None, overfetch_k: None },
            k: 5,
            filter: None,
            params: WireSearchParams::default(),
        }
    );
    let filter = || Some(Filter::Exists { field: "tag".into() });
    let params = WireSearchParams { nprobe: Some(2), ..WireSearchParams::default() };
    assert_eq!(
        store().search(None, Some(vec![7]), SearchMode::VectorOnly, 3, filter(), params),
        Request::Search {
            coll: "docs".into(),
            query_text: None,
            query_vector: Some(vec![7]),
            mode: SearchMode::VectorOnly,
            k: 3,
            filter: filter(),
            params,
        }
    );
}

#[test]
fn every_request_has_an_audit_label() {
    let s = store();
    assert_eq!(s.get("a").action_name(), "get_by_key");
    assert_eq!(s.query("q", 1).action_name(), "search");
    assert_eq!(s.put_batch(Vec::new()).action_name(), "put_batch");
    assert_eq!(s.add_document("a", "t", None, PayloadRow::new(), None).action_name(), "put_document");
    let hello = Request::Hello { client_name: "c".into(), session_id: SessionId("s".into()), auth_token: None };
    assert_eq!(hello.action_name(), "hello");
    assert_eq!(Request::ReplicaHello { known_lsns: Vec::new() }.action_name(), "replica_hello");
}

#[test]
fn knobs_left_out_take_their_defaults() {
    assert_eq!(format!("{:?}", WireSearchParams::default().resolve()), format!("{:?}", SearchParams::default()));
    let given = WireSearchParams { nprobe: Some(2), rerank_k: Some(0), max_chunks_per_doc: Some(9), ..WireSearchParams::default() };
    let resolved = given.resolve();
    assert_eq!((resolved.nprobe, resolved.rerank_k, resolved.max_chunks_per_doc), (2, Some(0), Some(9)));
    assert_eq!(resolved.beam_width, SearchParams::default().beam_width);
}

#[test]
fn request_ids_are_fresh_random_uuids() {
    let ctx = || {
        RequestCtx::new(
            SessionId("s".into()),
            Principal { id: PrincipalId("p".into()), name: "t".into(), role: Role::Reader },
            Source::Embedded,
        )
    };
    let (a, b) = (ctx().request_id, ctx().request_id);
    assert_ne!(a, b);
    assert_eq!(uuid::Uuid::from_u128(a.0).get_version_num(), 4);
}

#[test]
fn ids_have_texts() {
    assert_eq!(TxnId(0x0123_4567_89ab_cdef_0123_4567_89ab_cdef).to_text(), "01234567-89ab-cdef-0123-456789abcdef");
    assert_eq!(RowId(42).to_text(), "42");
    assert_eq!(DocId(7).to_text(), "7");
    assert_eq!(RowId::from_bitmap_index(RowId(5).to_bitmap_index()), RowId(5));
}

#[test]
fn errors_say_what_is_wrong() {
    let says = |e: StorageError| e.to_text();
    assert_eq!(says(StorageError::CollectionNotFound("a\"b".into())), "collection \"a\\\"b\" not found");
    assert_eq!(says(StorageError::CollectionAlreadyExists("docs".into())), "collection \"docs\" already exists");
    assert_eq!(says(StorageError::KeyNotFound("k".into())), "key \"k\" not found");
    assert_eq!(says(StorageError::RowNotFound(RowId(3))), "row RowId(3) not found");
    assert_eq!(says(StorageError::DocumentNotFound("d".into())), "document \"d\" not found");
    assert_eq!(
        says(StorageError::DimensionMismatch { coll: "docs".into(), expected: 3, got: 2 }),
        "vector has dimension 2, collection \"docs\" expects 3"
    );
    assert_eq!(says(StorageError::InvalidArgument("no".into())), "no");
    assert_eq!(says(StorageError::Wal("disk full".into())), "WAL error: disk full");
    assert_eq!(
        says(StorageError::UndoConflict { txn: TxnId(1), conflicts: Vec::new() }),
        "cannot undo txn 00000000-0000-0000-0000-000000000001: 0 of its rows were touched by a later transaction"
    );
    assert_eq!(
        says(StorageError::Filter(FilterError::UnknownField("f".into()))),
        "unknown payload field \"f\" — not declared in the collection's schema"
    );
    assert_eq!(
        FilterError::TypeMismatch { field: "f".into(), expected: "i64", actual: "bool" }.to_text(),
        "field \"f\" is type bool, this filter needs i64"
    );
    assert_eq!(FilterError::FieldAlreadyExists("f".into()).to_text(), "field \"f\" already exists in the schema");
    assert_eq!(
        FilterError::TextMatchUnsupported.to_text(),
        "TextMatch filtering requires the BM25 index, not available yet"
    );
}

#[test]
fn index_and_protocol_errors_say_what_is_wrong() {
    assert_eq!(
        IndexError::Pq(PqError::MDoesNotDivideDim { m: 3, dim: 10, suggested: vec![2, 5, 10] }).to_text(),
        "pq_m (3) must evenly divide dim (10); try one of: [2, 5, 10]"
    );
    assert_eq!(
        IndexError::Pq(PqError::MDoesNotDivideDim { m: 3, dim: 1, suggested: vec![] }).to_text(),
        "pq_m (3) must evenly divide dim (1); try one of: []"
    );
    assert_eq!(PqError::KsubOutOfRange(300).to_text(), "ksub (300) must be in 1..=256 so a subcode fits one byte");
    assert_eq!(
        IndexError::Lsh(LshError::NumHyperplanesOutOfRange(33)).to_text(),
        "lsh_num_hyperplanes (33) must be in 1..=32 so one bucket signature fits a u32"
    );
    assert_eq!(IndexError::DimMismatch { expected: 3, got: 2 }.to_text(), "query vector has dimension 2, index expects 3");
    assert_eq!(IndexError::Storage(StorageError::Wal("x".into())).to_text(), "WAL error: x");
    assert_eq!(ProtoError::FrameTooShort { need: 22, have: 5 }.to_text(), "frame too short: need at least 22 bytes, have 5");
    assert_eq!(ProtoError::UnsupportedVersion(9, 1).to_text(), "unsupported protocol version 9, expected 1");
    assert_eq!(ProtoError::InvalidFrameKind(7).to_text(), "invalid frame kind byte 7");
    assert_eq!(
        ProtoError::BodyLengthMismatch { declared: 9, have: 3 }.to_text(),
        "declared body length 9 exceeds buffer (3 bytes available)"
    );
    assert_eq!(ProtoError::Encode("e".into()).to_text(), "bincode encode failed: e");
    assert_eq!(ProtoError::Decode("e".into()).to_text(), "bincode decode failed: e");
}
