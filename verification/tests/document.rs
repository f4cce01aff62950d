use mara::collection::Collection;
use mara::document::{ChunkInput, PutDocumentInput};
use mara::error::StorageError;
use mara::fields::{PayloadRow, PayloadValue};
use mara::ids::{DocId, PrincipalId, RowId, SessionId};
use mara::model::{ChunkSpec, DistanceMetric, ModelFingerprint, Principal, RequestCtx, Role, Source};
use mara::payload::{FilterError, PayloadSchema};

fn ctx() -> RequestCtx {
    RequestCtx::new(
        SessionId("s".into()),
        Principal { id: PrincipalId("p".into()), name: "t".into(), role: Role::Writer },
        Source::Embedded,
    )
}

fn model() -> ModelFingerprint {
    ModelFingerprint { model_id: "sentence-transformers/all-MiniLM-L6-v2".into(), revision: None, dim: 3 }
}

fn vector(xs: &[f32]) -> Vec<u32> {
    xs.iter().map(|x| x.to_bits()).collect()
}

fn chunks(n: usize) -> Vec<ChunkInput> {
    (0..n).map(|i| ChunkInput { text: format!("chunk {i}"), vector: vector(&[i as f32, 0.0, 0.0]) }).collect()
}

fn put_input(doc_key: &str, n: usize) -> PutDocumentInput {
    PutDocumentInput {
        doc_key: doc_key.to_string(),
        chunks: chunks(n),
        doc_payload: PayloadRow::new(),
        chunk_spec: ChunkSpec::default(),
        source: Some("handbook.md".into()),
        embedding_model: model(),
    }
}

#[test]
fn put_document_inserts_every_chunk_under_one_doc() {
    let mut c = Collection::new("docs", 3, DistanceMetric::Cosine);
    let doc_id = c.put_document(&ctx(), put_input("onboarding.md", 5)).unwrap();

    assert_eq!(c.active_count(), 5);
    let entry = c.get_document("onboarding.md").unwrap();
    assert_eq!(entry.doc_id, doc_id);
    assert_eq!(entry.version, 1);
    assert_eq!(entry.chunk_count, 5);

    let chunks = c.list_chunks(doc_id).unwrap();
    assert_eq!(chunks.len(), 5);
    for (i, row) in chunks.iter().enumerate() {
        assert_eq!(row.chunk_ord, Some(i as u32));
        assert_eq!(row.doc_id, Some(doc_id));
        assert_eq!(row.key, format!("onboarding.md#{i}"));
    }
}

#[test]
fn put_document_twice_with_same_key_is_rejected() {
    let mut c = Collection::new("docs", 3, DistanceMetric::Cosine);
    c.put_document(&ctx(), put_input("onboarding.md", 2)).unwrap();
    let err = c.put_document(&ctx(), put_input("onboarding.md", 2)).unwrap_err();
    assert!(matches!(err, StorageError::InvalidArgument(_)));
    assert_eq!(err, StorageError::InvalidArgument("document \"onboarding.md\" already exists; use replace_document".into()));
}

#[test]
fn empty_document_is_rejected() {
    let mut c = Collection::new("docs", 3, DistanceMetric::Cosine);
    let mut input = put_input("empty.md", 0);
    input.chunks = vec![];
    assert!(c.put_document(&ctx(), input).is_err());
}

#[test]
fn replace_document_swaps_every_chunk_and_bumps_version() {
    let mut c = Collection::new("docs", 3, DistanceMetric::Cosine);
    let doc_id = c.put_document(&ctx(), put_input("onboarding.md", 3)).unwrap();
    assert_eq!(c.active_count(), 3);

    let new_id = c
        .replace_document(&ctx(), "onboarding.md", chunks(5), PayloadRow::new(), ChunkSpec::default(), Some("handbook.md".into()), model())
        .unwrap();

    assert_eq!(new_id, doc_id, "replace must keep the same DocId");
    assert_eq!(c.active_count(), 5, "old chunks must be fully tombstoned, new ones fully live");
    let entry = c.get_document("onboarding.md").unwrap();
    assert_eq!(entry.version, 2);
    assert_eq!(entry.chunk_count, 5);

    let chunks_after = c.list_chunks(doc_id).unwrap();
    assert_eq!(chunks_after.len(), 5);
    assert!(chunks_after.iter().all(|r| r.doc_id == Some(doc_id)));
}

#[test]
fn replace_document_never_shows_a_torn_state_via_row_ids() {
    let mut c = Collection::new("docs", 3, DistanceMetric::Cosine);
    c.put_document(&ctx(), put_input("onboarding.md", 4)).unwrap();
    let old_chunks = c.get_document("onboarding.md").unwrap().rows;

    c.replace_document(&ctx(), "onboarding.md", chunks(4), PayloadRow::new(), ChunkSpec::default(), None, model()).unwrap();

    let new_entry = c.get_document("onboarding.md").unwrap();
    for idx in old_chunks.iter() {
        let old_row_id = RowId::from_bitmap_index(idx);
        assert!(!new_entry.rows.contains(idx), "a pre-replace RowId must not appear in the post-replace document");
        assert!(c.fetch_vectors(&vec![old_row_id])[0].is_some(), "the old row's data is retained, just no longer live or attached");
    }
}

#[test]
fn replace_of_unknown_document_errors() {
    let mut c = Collection::new("docs", 3, DistanceMetric::Cosine);
    let err = c
        .replace_document(&ctx(), "missing.md", chunks(1), PayloadRow::new(), ChunkSpec::default(), None, model())
        .unwrap_err();
    assert_eq!(err, StorageError::DocumentNotFound("missing.md".into()));
}

#[test]
fn delete_document_cascades_to_every_chunk() {
    let mut c = Collection::new("docs", 3, DistanceMetric::Cosine);
    c.put_document(&ctx(), put_input("onboarding.md", 4)).unwrap();
    assert_eq!(c.active_count(), 4);

    c.delete_document(&ctx(), "onboarding.md").unwrap();
    assert_eq!(c.active_count(), 0);
    assert!(c.get_document("onboarding.md").is_none());
    assert!(c.get_by_key("onboarding.md#0").is_none());
}

#[test]
fn delete_of_unknown_document_errors() {
    let mut c = Collection::new("docs", 3, DistanceMetric::Cosine);
    assert_eq!(c.delete_document(&ctx(), "missing.md").unwrap_err(), StorageError::DocumentNotFound("missing.md".into()));
}

#[test]
fn list_documents_is_ordered_by_doc_id() {
    let mut c = Collection::new("docs", 3, DistanceMetric::Cosine);
    c.put_document(&ctx(), put_input("b.md", 1)).unwrap();
    c.put_document(&ctx(), put_input("a.md", 1)).unwrap();
    let docs = c.list_documents();
    assert_eq!(docs.len(), 2);
    assert!(docs[0].doc_id < docs[1].doc_id);
    assert_eq!(docs[0].doc_key, "b.md");
}

#[test]
fn doc_payload_is_inherited_by_every_chunk() {
    let mut c = Collection::new("docs", 3, DistanceMetric::Cosine);
    let mut input = put_input("onboarding.md", 2);
    input.doc_payload.insert("title".to_string(), PayloadValue::Keyword("Onboarding".into()));
    let doc_id = c.put_document(&ctx(), input).unwrap();

    for row in c.list_chunks(doc_id).unwrap() {
        assert_eq!(row.fields.get("title"), Some(&PayloadValue::Keyword("Onboarding".into())));
        assert!(row.text.is_some(), "chunk text is stored in its own slot, not the payload fields");
    }
}

#[test]
fn replace_document_delivers_one_coherent_batch() {
    let mut c = Collection::new("docs", 3, DistanceMetric::Cosine);
    c.put_document(&ctx(), put_input("onboarding.md", 3)).unwrap();
    c.outbox.clear();

    c.replace_document(&ctx(), "onboarding.md", chunks(6), PayloadRow::new(), ChunkSpec::default(), None, model()).unwrap();

    assert_eq!(c.outbox.len(), 1, "replace_document must deliver exactly one ChangeBatch");
    assert_eq!(c.outbox[0].events.len(), 3 + 6, "3 deletes + 6 inserts in one batch");
}

#[test]
fn each_chunk_reads_back_under_its_own_key() {
    let mut c = Collection::new("docs", 3, DistanceMetric::Cosine);
    c.put(&ctx(), "plain", vector(&[7.0, 7.0, 7.0]), PayloadRow::new(), None).unwrap();
    let doc_id = c.put_document(&ctx(), put_input("a", 12)).unwrap();
    let row = c.get_by_key("a#11").unwrap();
    assert_eq!(row.chunk_ord, Some(11));
    assert_eq!(row.doc_id, Some(doc_id));
    assert_eq!(row.text.as_deref(), Some("chunk 11"));
    assert_eq!(row.vector, Some(vector(&[11.0, 0.0, 0.0])));
    assert_eq!(c.get_by_key("plain").unwrap().vector, Some(vector(&[7.0, 7.0, 7.0])));
}

#[test]
fn chunks_of_the_wrong_dimension_are_refused() {
    let mut c = Collection::new("docs", 3, DistanceMetric::Cosine);
    let mut input = put_input("a", 1);
    input.chunks[0].vector = vector(&[1.0]);
    assert_eq!(c.put_document(&ctx(), input).unwrap_err(), StorageError::DimensionMismatch { coll: "docs".into(), expected: 3, got: 1 });
}

#[test]
fn a_refused_document_uses_up_no_ids() {
    let mut c = Collection::with_schema("docs", 3, DistanceMetric::Cosine, PayloadSchema::empty(), true);
    let mut input = put_input("a.md", 2);
    input.doc_payload.insert("ghost".into(), PayloadValue::Bool(true));
    let err = c.put_document(&ctx(), input).unwrap_err();
    assert_eq!(err, StorageError::Filter(FilterError::UnknownField("ghost".into())));
    assert_eq!((c.inner.next_row_id, c.inner.next_doc_id), (0, 0));
    assert!(c.outbox.is_empty());

    let id = c.put_document(&ctx(), put_input("a.md", 2)).unwrap();
    assert_eq!(id, DocId(0));
    assert_eq!((c.inner.next_row_id, c.inner.next_doc_id), (2, 1));

    let mut fields = PayloadRow::new();
    fields.insert("ghost".into(), PayloadValue::Bool(true));
    let replaced = c.replace_document(&ctx(), "a.md", chunks(3), fields, ChunkSpec::default(), None, model());
    assert_eq!(replaced.unwrap_err(), StorageError::Filter(FilterError::UnknownField("ghost".into())));
    assert_eq!((c.inner.next_row_id, c.inner.next_doc_id), (2, 1));
    assert_eq!(c.get_document("a.md").unwrap().version, 1);

    c.replace_document(&ctx(), "a.md", chunks(3), PayloadRow::new(), ChunkSpec::default(), None, model()).unwrap();
    assert_eq!((c.inner.next_row_id, c.inner.next_doc_id), (5, 1));
    let rows: Vec<RowId> = c.list_chunks(id).unwrap().iter().map(|r| r.id).collect();
    assert_eq!(rows, vec![RowId(2), RowId(3), RowId(4)]);
}
