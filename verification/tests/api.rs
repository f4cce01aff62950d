use mara::api::{Lookup, RegistryEntry, SchemaChange, Storage};
use mara::columns::FieldType;
use mara::error::StorageError;
use mara::fields::{PayloadRow, PayloadValue};
use mara::filter::{Filter, Scalar};
use mara::ids::{PrincipalId, SessionId};
use mara::model::{DistanceMetric, Principal, RequestCtx, Role, Source};
use mara::payload::{FilterError, PayloadSchema};

fn ctx() -> RequestCtx {
    RequestCtx::new(
        SessionId("s".into()),
        Principal { id: PrincipalId("p".into()), name: "t".into(), role: Role::Admin },
        Source::Embedded,
    )
}

fn vector(xs: &[f32]) -> Vec<u32> {
    xs.iter().map(|x| x.to_bits()).collect()
}

#[test]
fn create_collection_twice_is_an_error() {
    let mut s = Storage::new();
    s.create_collection(&ctx(), "docs", 3, DistanceMetric::Cosine, PayloadSchema::empty()).unwrap();
    assert_eq!(
        s.create_collection(&ctx(), "docs", 3, DistanceMetric::Cosine, PayloadSchema::empty()).unwrap_err(),
        StorageError::CollectionAlreadyExists("docs".into())
    );
}

#[test]
fn operating_on_an_unknown_collection_errors_cleanly() {
    let mut s = Storage::new();
    assert_eq!(
        s.put(&ctx(), "nope", "k", vector(&[1.0]), PayloadRow::new(), None).unwrap_err(),
        StorageError::CollectionNotFound("nope".into())
    );
}

#[test]
fn list_collections_is_sorted() {
    let mut s = Storage::new();
    s.create_collection(&ctx(), "zeta", 2, DistanceMetric::L2, PayloadSchema::empty()).unwrap();
    s.create_collection(&ctx(), "alpha", 2, DistanceMetric::L2, PayloadSchema::empty()).unwrap();
    assert_eq!(s.list_collections(), vec!["alpha".to_string(), "zeta".to_string()]);
}

#[test]
fn put_and_get_through_the_storage_api() {
    let mut s = Storage::new();
    s.create_collection(&ctx(), "docs", 3, DistanceMetric::Cosine, PayloadSchema::empty()).unwrap();
    let id = s.put(&ctx(), "docs", "a", vector(&[1.0, 2.0, 3.0]), PayloadRow::new(), None).unwrap();
    let row = s.get_by_key("docs", "a").unwrap().unwrap();
    assert_eq!(row.id, id);
    assert_eq!(s.active_count("docs").unwrap(), 1);
}

#[test]
fn schema_declared_at_creation_is_enforced_strictly() {
    let mut s = Storage::new();
    let schema = PayloadSchema::builder().field("title", FieldType::Keyword).build();
    s.create_collection(&ctx(), "docs", 3, DistanceMetric::Cosine, schema).unwrap();

    let mut fields = PayloadRow::new();
    fields.insert("ghost".into(), PayloadValue::Bool(true));
    let err = s.put(&ctx(), "docs", "a", vector(&[1.0, 2.0, 3.0]), fields, None).unwrap_err();
    assert!(matches!(err, StorageError::Filter(_)));
}

#[test]
fn compile_filter_and_payload_of_round_trip_through_storage_api() {
    let mut s = Storage::new();
    let schema = PayloadSchema::builder().field("title", FieldType::Keyword).build();
    s.create_collection(&ctx(), "docs", 3, DistanceMetric::Cosine, schema).unwrap();

    let mut fields = PayloadRow::new();
    fields.insert("title".into(), PayloadValue::Keyword("hello".into()));
    let id = s.put(&ctx(), "docs", "a", vector(&[1.0, 2.0, 3.0]), fields.clone(), None).unwrap();

    let filter = Filter::Eq { field: "title".into(), value: Scalar::Str("hello".into()) };
    let mask = s.compile_filter("docs", &filter).ok().unwrap();
    assert!(mask.contains(id));
    assert_eq!(mask.estimated_cardinality, 1);

    assert_eq!(s.payload_of("docs", id).unwrap(), Some(fields));
}

#[test]
fn alter_schema_add_then_drop_field_through_storage_api() {
    let mut s = Storage::new();
    s.create_collection(&ctx(), "docs", 3, DistanceMetric::Cosine, PayloadSchema::empty()).unwrap();
    s.alter_schema(&ctx(), "docs", SchemaChange::AddField { name: "size".into(), field_type: FieldType::I64 }).unwrap();

    let mut fields = PayloadRow::new();
    fields.insert("size".into(), PayloadValue::I64(7));
    s.put(&ctx(), "docs", "a", vector(&[1.0, 2.0, 3.0]), fields, None).unwrap();

    s.alter_schema(&ctx(), "docs", SchemaChange::DropField { name: "size".into() }).unwrap();
    let err = s.compile_filter("docs", &Filter::Exists { field: "size".into() }).err().unwrap();
    assert!(matches!(err, StorageError::Filter(_)));
}

#[test]
fn adding_a_field_twice_is_an_error() {
    let mut s = Storage::new();
    s.create_collection(&ctx(), "docs", 3, DistanceMetric::Cosine, PayloadSchema::empty()).unwrap();
    s.alter_schema(&ctx(), "docs", SchemaChange::AddField { name: "size".into(), field_type: FieldType::I64 }).unwrap();
    let err = s.alter_schema(&ctx(), "docs", SchemaChange::AddField { name: "size".into(), field_type: FieldType::I64 }).unwrap_err();
    assert_eq!(err, StorageError::Filter(FilterError::FieldAlreadyExists("size".into())));
}

#[test]
fn registered_collections_are_listed_and_taken_before_they_are_opened() {
    let entries = vec![RegistryEntry {
        name: "docs".into(),
        dim: 3,
        metric: DistanceMetric::Cosine,
        schema: vec![("title".to_string(), FieldType::Keyword)],
    }];
    let s = Storage::open(&entries);
    assert_eq!(s.list_collections(), vec!["docs".to_string()]);
    assert!(matches!(s.lookup("docs"), Lookup::Registered(_)));
    assert!(matches!(s.lookup("nope"), Lookup::Missing));
    assert_eq!(s.check_create("docs").unwrap_err(), StorageError::CollectionAlreadyExists("docs".into()));
    assert!(s.check_create("other").is_ok());
}

#[test]
fn a_filter_compiles_when_it_suits_the_declared_fields() {
    let mut s = Storage::new();
    let schema = PayloadSchema::builder().field("size", FieldType::I64).field("tag", FieldType::Keyword).build();
    s.create_collection(&ctx(), "docs", 3, DistanceMetric::Cosine, schema).unwrap();
    for (key, size) in [("a", 1), ("b", 5)] {
        let mut fields = PayloadRow::new();
        fields.insert("size".into(), PayloadValue::I64(size));
        s.put(&ctx(), "docs", key, vector(&[1.0, 2.0, 3.0]), fields, None).unwrap();
    }
    let size = |v: Scalar| Filter::Eq { field: "size".into(), value: v };
    let range = |field: &str| Filter::Range { field: field.into(), gte: Some(Scalar::I64(2)), lte: None, gt: None, lt: None };
    let found = |f: Filter| s.compile_filter("docs", &f).ok().map(|m| m.allowed.iter().collect::<Vec<u32>>());

    assert_eq!(found(Filter::And(vec![])), Some(vec![0, 1]));
    assert_eq!(found(Filter::Or(vec![])), Some(vec![]));
    assert_eq!(found(Filter::Not(Box::new(size(Scalar::I64(1))))), Some(vec![1]));
    assert_eq!(found(Filter::Or(vec![range("size"), Filter::Exists { field: "tag".into() }])), Some(vec![1]));
    assert_eq!(found(Filter::Not(Box::new(Filter::Exists { field: "tag".into() }))), Some(vec![0, 1]));
    assert_eq!(found(Filter::DocIn { doc_keys: vec!["none".into()] }), Some(vec![]));

    assert_eq!(found(size(Scalar::Str("1".into()))), None);
    assert_eq!(found(range("tag")), None);
    assert_eq!(found(Filter::Not(Box::new(Filter::Exists { field: "nope".into() }))), None);
    assert_eq!(found(Filter::And(vec![size(Scalar::I64(1)), Filter::TextMatch { field: "tag".into(), terms: vec!["x".into()] }])), None);
}
