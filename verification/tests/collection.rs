use mara::change::ChangeEvent;
use mara::collection::{Collection, PutInput};
use mara::document::{ChunkInput, PutDocumentInput};
use mara::error::StorageError;
use mara::fields::{PayloadRow, PayloadValue};
use mara::ids::{PrincipalId, RowId, SessionId};
use mara::model::{ChunkSpec, DistanceMetric, ModelFingerprint, Principal, RequestCtx, Role, Source};

fn ctx() -> RequestCtx {
    RequestCtx::new(
        SessionId("test-session".into()),
        Principal { id: PrincipalId("p_test".into()), name: "tester".into(), role: Role::Writer },
        Source::Embedded,
    )
}

fn coll() -> Collection {
    Collection::new("docs", 3, DistanceMetric::Cosine)
}

fn vector(xs: &[f32]) -> Vec<u32> {
    xs.iter().map(|x| x.to_bits()).collect()
}

fn payload_row(field: &str, value: &str) -> PayloadRow {
    let mut m = PayloadRow::new();
    m.insert(field.to_string(), PayloadValue::Keyword(value.to_string()));
    m
}

#[test]
fn put_then_get_round_trips() {
    let mut c = coll();
    let row_id = c.put(&ctx(), "a", vector(&[1.0, 2.0, 3.0]), payload_row("tag", "x"), None).unwrap();
    let row = c.get_by_key("a").unwrap();
    assert_eq!(row.id, row_id);
    assert_eq!(row.vector, Some(vector(&[1.0, 2.0, 3.0])));
    assert_eq!(row.fields, payload_row("tag", "x"));
    assert_eq!(c.active_count(), 1);
}

#[test]
fn put_with_wrong_dim_is_rejected() {
    let mut c = coll();
    let err = c.put(&ctx(), "a", vector(&[1.0, 2.0]), PayloadRow::new(), None).unwrap_err();
    assert!(matches!(err, StorageError::DimensionMismatch { .. }));
    assert_eq!(err, StorageError::DimensionMismatch { coll: "docs".into(), expected: 3, got: 2 });
    assert_eq!(c.active_count(), 0);
}

#[test]
fn re_putting_an_existing_key_updates_the_same_row_id() {
    let mut c = coll();
    let first = c.put(&ctx(), "a", vector(&[1.0, 0.0, 0.0]), PayloadRow::new(), None).unwrap();
    let second = c.put(&ctx(), "a", vector(&[0.0, 1.0, 0.0]), PayloadRow::new(), None).unwrap();
    assert_eq!(first, second, "an upsert on an existing key must reuse its RowId");
    assert_eq!(c.active_count(), 1);
    let row = c.get_by_key("a").unwrap();
    assert_eq!(row.vector, Some(vector(&[0.0, 1.0, 0.0])));
}

#[test]
fn delete_then_reinsert_gets_a_fresh_never_reused_row_id() {
    let mut c = coll();
    let first = c.put(&ctx(), "a", vector(&[1.0, 0.0, 0.0]), PayloadRow::new(), None).unwrap();
    c.delete(&ctx(), "a").unwrap();
    assert!(c.get_by_key("a").is_none());
    assert_eq!(c.active_count(), 0);

    let second = c.put(&ctx(), "a", vector(&[0.0, 0.0, 1.0]), PayloadRow::new(), None).unwrap();
    assert_ne!(first, second, "RowId must never be reused after a delete");
    assert_eq!(c.active_count(), 1);
}

#[test]
fn delete_of_missing_key_is_an_error() {
    let mut c = coll();
    assert_eq!(c.delete(&ctx(), "missing").unwrap_err(), StorageError::KeyNotFound("missing".into()));
}

#[test]
fn scan_is_ordered_and_respects_the_cursor() {
    let mut c = coll();
    for k in ["a", "b", "c", "d"] {
        c.put(&ctx(), k, vector(&[0.0, 0.0, 0.0]), PayloadRow::new(), None).unwrap();
    }
    let page1 = c.scan(None, 2);
    assert_eq!(page1.len(), 2);
    assert!(page1[0].id < page1[1].id);

    let page2 = c.scan(Some(page1[1].id), 10);
    assert_eq!(page2.len(), 2);
    assert!(page2[0].id > page1[1].id);
}

#[test]
fn scan_skips_deleted_rows() {
    let mut c = coll();
    c.put(&ctx(), "a", vector(&[0.0, 0.0, 0.0]), PayloadRow::new(), None).unwrap();
    c.put(&ctx(), "b", vector(&[0.0, 0.0, 0.0]), PayloadRow::new(), None).unwrap();
    c.delete(&ctx(), "a").unwrap();
    let rows = c.scan(None, 10);
    assert_eq!(rows.len(), 1);
    assert_eq!(rows[0].key, "b");
}

#[test]
fn fetch_vectors_returns_none_for_missing_ids() {
    let mut c = coll();
    let id = c.put(&ctx(), "a", vector(&[1.0, 2.0, 3.0]), PayloadRow::new(), None).unwrap();
    let missing = RowId(999);
    let result = c.fetch_vectors(&vec![id, missing]);
    assert_eq!(result[0], Some(vector(&[1.0, 2.0, 3.0])));
    assert_eq!(result[1], None);
}

#[test]
fn rows_by_id_returns_full_rows_in_the_requested_order() {
    let mut c = coll();
    let id_a = c.put(&ctx(), "a", vector(&[1.0, 2.0, 3.0]), PayloadRow::new(), None).unwrap();
    let id_b = c.put(&ctx(), "b", vector(&[4.0, 5.0, 6.0]), PayloadRow::new(), None).unwrap();
    let rows = c.rows_by_id(&vec![id_b, id_a]);
    assert_eq!(rows[0].as_ref().unwrap().key, "b");
    assert_eq!(rows[1].as_ref().unwrap().key, "a");
}

#[test]
fn rows_by_id_hides_a_deleted_row_even_though_its_record_survives_for_undo() {
    let mut c = coll();
    let id = c.put(&ctx(), "a", vector(&[1.0, 2.0, 3.0]), PayloadRow::new(), None).unwrap();
    c.delete(&ctx(), "a").unwrap();
    let rows = c.rows_by_id(&vec![id]);
    assert_eq!(rows[0], None, "a candidate set built before the delete must not resurface stale data");
    assert_eq!(c.fetch_vectors(&vec![id])[0], Some(vector(&[1.0, 2.0, 3.0])));
}

#[test]
fn put_batch_notifies_subscribers_exactly_once_per_call() {
    let mut c = coll();
    let items: Vec<PutInput> = (0..50)
        .map(|i| PutInput { key: format!("k{i}"), vector: vector(&[i as f32, 0.0, 0.0]), fields: PayloadRow::new(), extra: None })
        .collect();
    c.put_batch(&ctx(), items).unwrap();

    assert_eq!(c.outbox.len(), 1, "one ChangeBatch per put_batch call");
    assert_eq!(c.outbox[0].events.len(), 50);
    assert_eq!(c.outbox[0].coll, "docs");
}

fn texts(c: &Collection) -> Vec<Option<String>> {
    let mut out = Vec::new();
    for batch in &c.outbox {
        for e in &batch.events {
            out.push(match e {
                ChangeEvent::Insert { text, .. } => text.clone(),
                ChangeEvent::Update { text, .. } => text.clone(),
                ChangeEvent::Delete { text, .. } => text.clone(),
            });
        }
    }
    out
}

#[test]
fn change_events_carry_the_rows_text_for_a_document_insert_and_delete() {
    let mut c = coll();
    c.put_document(
        &ctx(),
        PutDocumentInput {
            doc_key: "onboarding.md".into(),
            chunks: vec![ChunkInput { text: "hello world chunk text".into(), vector: vector(&[1.0, 0.0, 0.0]) }],
            doc_payload: PayloadRow::new(),
            chunk_spec: ChunkSpec::default(),
            source: None,
            embedding_model: ModelFingerprint { model_id: "test".into(), revision: None, dim: 3 },
        },
    )
    .unwrap();

    let seen = texts(&c);
    assert_eq!(seen.len(), 1);
    assert_eq!(seen[0].as_deref(), Some("hello world chunk text"));

    c.delete_document(&ctx(), "onboarding.md").unwrap();
    let seen = texts(&c);
    assert_eq!(seen.len(), 2, "the delete's ChangeEvent must also have arrived");
    assert_eq!(seen[1].as_deref(), Some("hello world chunk text"), "a delete's ChangeEvent must carry the text the row was indexed under");
}

#[test]
fn empty_put_batch_does_not_notify() {
    let mut c = coll();
    let ids = c.put_batch(&ctx(), vec![]).unwrap();
    assert!(ids.is_empty());
    assert_eq!(c.outbox.len(), 0);
}

#[test]
fn the_last_item_of_a_key_wins_and_other_keys_stay() {
    let mut c = coll();
    c.put(&ctx(), "other", vector(&[9.0, 9.0, 9.0]), PayloadRow::new(), Some("{\"n\":1}".into())).unwrap();
    let before = c.get_by_key("other").unwrap();
    let items = vec![
        PutInput { key: "a".into(), vector: vector(&[1.0, 0.0, 0.0]), fields: PayloadRow::new(), extra: None },
        PutInput { key: "a".into(), vector: vector(&[2.0, 0.0, 0.0]), fields: payload_row("tag", "last"), extra: None },
    ];
    let ids = c.put_batch(&ctx(), items).unwrap();
    let row = c.get_by_key("a").unwrap();
    assert_eq!(row.id, ids[1]);
    assert_eq!(row.vector, Some(vector(&[2.0, 0.0, 0.0])));
    assert_eq!(row.fields, payload_row("tag", "last"));
    assert_eq!(c.get_by_key("other").unwrap(), before);
    assert_eq!(before.extra.as_deref(), Some("{\"n\":1}"));
}

#[test]
fn a_refused_batch_changes_nothing() {
    let mut c = coll();
    let items = vec![
        PutInput { key: "a".into(), vector: vector(&[1.0, 0.0, 0.0]), fields: PayloadRow::new(), extra: None },
        PutInput { key: "b".into(), vector: vector(&[1.0]), fields: PayloadRow::new(), extra: None },
    ];
    assert_eq!(c.put_batch(&ctx(), items).unwrap_err(), StorageError::DimensionMismatch { coll: "docs".into(), expected: 3, got: 1 });
    assert!(c.get_by_key("a").is_none());
    assert_eq!(c.outbox.len(), 0);
}

#[test]
fn a_new_key_twice_in_one_batch_is_one_row() {
    let mut c = coll();
    let item = |key: &str, xs: &[f32]| PutInput { key: key.into(), vector: vector(xs), fields: PayloadRow::new(), extra: None };
    let items = vec![item("a", &[1.0, 0.0, 0.0]), item("b", &[5.0, 0.0, 0.0]), item("a", &[0.0, 1.0, 0.0]), item("c", &[6.0, 0.0, 0.0])];
    assert_eq!(c.new_keys(&items), 3);
    let ids = c.put_batch(&ctx(), items).unwrap();

    assert_eq!(ids, vec![RowId(0), RowId(1), RowId(0), RowId(2)]);
    assert_eq!(c.active_count(), 3);
    assert_eq!(c.get_by_key("a").unwrap().vector, Some(vector(&[0.0, 1.0, 0.0])));
    for id in 0..3 {
        let row = c.rows_by_id(&vec![RowId(id)]).pop().unwrap().unwrap();
        assert_eq!(c.get_by_key(&row.key).unwrap(), row);
    }
    assert_eq!(c.outbox.len(), 1);
    assert!(matches!(c.outbox[0].events[0], ChangeEvent::Insert { .. }));
    assert!(matches!(c.outbox[0].events[2], ChangeEvent::Update { .. }));
    assert_eq!(c.put(&ctx(), "d", vector(&[7.0, 0.0, 0.0]), PayloadRow::new(), None).unwrap(), RowId(3));
}
