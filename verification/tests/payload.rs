use mara::collection::Collection;
use mara::columns::FieldType;
use mara::fields::{PayloadRow, PayloadValue};
use mara::filter::{Filter, Scalar};
use mara::ids::{PrincipalId, RowId, SessionId};
use mara::model::{DistanceMetric, Principal, RequestCtx, Role, Source};
use mara::payload::{FilterError, PayloadSchema, PayloadStore};
use roaring::RoaringBitmap;

fn store() -> PayloadStore {
    PayloadStore::new(
        PayloadSchema::builder()
            .field("tags", FieldType::KeywordList)
            .field("title", FieldType::Keyword)
            .field("published_at", FieldType::DateTime)
            .field("score", FieldType::F64)
            .field("count", FieldType::I64)
            .field("internal", FieldType::Bool)
            .field("body", FieldType::Text)
            .build(),
        true,
    )
}

fn row(fields: &[(&str, PayloadValue)]) -> PayloadRow {
    let mut out = PayloadRow::new();
    for (k, v) in fields {
        out.insert(k.to_string(), v.clone());
    }
    out
}

#[test]
fn eq_on_keyword_finds_exact_matches_only() {
    let mut s = store();
    s.set_row(RowId(0), &row(&[("title", PayloadValue::Keyword("a".into()))])).unwrap();
    s.set_row(RowId(1), &row(&[("title", PayloadValue::Keyword("b".into()))])).unwrap();
    let universe: RoaringBitmap = [0, 1].into_iter().collect();

    let mask = s
        .compile(
            &Filter::Eq {
                field: "title".into(),
                value: Scalar::Str("a".into()),
            },
            &universe,
        )
        .unwrap();
    assert_eq!(mask, [0].into_iter().collect());
}

#[test]
fn keyword_list_membership_matches_any_element() {
    let mut s = store();
    s.set_row(
        RowId(0),
        &row(&[("tags", PayloadValue::KeywordList(vec!["rag".into(), "hr".into()]))]),
    )
    .unwrap();
    s.set_row(RowId(1), &row(&[("tags", PayloadValue::KeywordList(vec!["eng".into()]))]))
        .unwrap();
    let universe: RoaringBitmap = [0, 1].into_iter().collect();

    let mask = s
        .compile(
            &Filter::Eq {
                field: "tags".into(),
                value: Scalar::Str("rag".into()),
            },
            &universe,
        )
        .unwrap();
    assert_eq!(mask, [0].into_iter().collect());
}

#[test]
fn range_on_datetime_respects_bounds() {
    let mut s = store();
    for (i, ts) in [100i64, 200, 300].into_iter().enumerate() {
        s.set_row(RowId(i as u64), &row(&[("published_at", PayloadValue::DateTime(ts))]))
            .unwrap();
    }
    let universe: RoaringBitmap = [0, 1, 2].into_iter().collect();

    let mask = s
        .compile(
            &Filter::Range {
                field: "published_at".into(),
                gte: Some(Scalar::DateTime(150)),
                lte: None,
                gt: None,
                lt: Some(Scalar::DateTime(300)),
            },
            &universe,
        )
        .unwrap();
    assert_eq!(mask, [1].into_iter().collect(), "only 200 is within [150, 300)");
}

#[test]
fn f64_range_survives_negative_and_positive_values() {
    let mut s = store();
    for (i, v) in [-5.5f64, -0.1, 0.0, 3.2].into_iter().enumerate() {
        s.set_row(RowId(i as u64), &row(&[("score", PayloadValue::F64(v.to_bits()))])).unwrap();
    }
    let universe: RoaringBitmap = (0..4).collect();
    let mask = s
        .compile(
            &Filter::Range {
                field: "score".into(),
                gte: Some(Scalar::F64((-1.0f64).to_bits())),
                lte: Some(Scalar::F64((3.2f64).to_bits())),
                gt: None,
                lt: None,
            },
            &universe,
        )
        .unwrap();
    assert_eq!(mask, [1u32, 2, 3].into_iter().collect());
}

#[test]
fn bool_false_is_presence_minus_true_set() {
    let mut s = store();
    s.set_row(RowId(0), &row(&[("internal", PayloadValue::Bool(true))])).unwrap();
    s.set_row(RowId(1), &row(&[("internal", PayloadValue::Bool(false))])).unwrap();
    // Row 2 never sets `internal` at all — absent, not false.
    let universe: RoaringBitmap = [0, 1, 2].into_iter().collect();

    let false_mask = s
        .compile(
            &Filter::Eq {
                field: "internal".into(),
                value: Scalar::Bool(false),
            },
            &universe,
        )
        .unwrap();
    assert_eq!(false_mask, [1].into_iter().collect());

    let exists_mask = s.compile(&Filter::Exists { field: "internal".into() }, &universe).unwrap();
    assert_eq!(exists_mask, [0, 1].into_iter().collect());
}

#[test]
fn re_setting_a_row_clears_its_old_index_entry() {
    let mut s = store();
    s.set_row(RowId(0), &row(&[("title", PayloadValue::Keyword("old".into()))])).unwrap();
    s.set_row(RowId(0), &row(&[("title", PayloadValue::Keyword("new".into()))])).unwrap();
    let universe: RoaringBitmap = [0].into_iter().collect();

    let old_mask = s
        .compile(
            &Filter::Eq {
                field: "title".into(),
                value: Scalar::Str("old".into()),
            },
            &universe,
        )
        .unwrap();
    assert!(old_mask.is_empty(), "stale index entry must be gone after re-set");

    let new_mask = s
        .compile(
            &Filter::Eq {
                field: "title".into(),
                value: Scalar::Str("new".into()),
            },
            &universe,
        )
        .unwrap();
    assert_eq!(new_mask, [0].into_iter().collect());
}

#[test]
fn clear_row_removes_it_from_every_column() {
    let mut s = store();
    s.set_row(
        RowId(0),
        &row(&[
            ("title", PayloadValue::Keyword("a".into())),
            ("count", PayloadValue::I64(5)),
            ("internal", PayloadValue::Bool(true)),
        ]),
    )
    .unwrap();
    s.clear_row(RowId(0));

    let universe: RoaringBitmap = [0].into_iter().collect();
    assert!(s.compile(&Filter::Exists { field: "title".into() }, &universe).unwrap().is_empty());
    assert!(s.compile(&Filter::Exists { field: "count".into() }, &universe).unwrap().is_empty());
    assert!(s.compile(&Filter::Exists { field: "internal".into() }, &universe).unwrap().is_empty());
}

#[test]
fn clearing_a_row_again_changes_nothing() {
    let mut s = store();
    s.set_row(RowId(0), &row(&[("count", PayloadValue::I64(5))])).unwrap();
    s.set_row(RowId(1), &row(&[("count", PayloadValue::I64(6))])).unwrap();
    s.clear_row(RowId(0));
    s.clear_row(RowId(0));
    s.clear_row(RowId(9));

    let universe: RoaringBitmap = [0, 1, 9].into_iter().collect();
    let held = s.compile(&Filter::Exists { field: "count".into() }, &universe).unwrap();
    assert_eq!(held.iter().collect::<Vec<u32>>(), vec![1]);
}

#[test]
fn unknown_field_is_a_clear_error_not_an_empty_result() {
    let s = store();
    let universe = RoaringBitmap::new();
    let err = s
        .compile(
            &Filter::Eq {
                field: "nope".into(),
                value: Scalar::Bool(true),
            },
            &universe,
        )
        .unwrap_err();
    assert_eq!(err, FilterError::UnknownField("nope".into()));
}

#[test]
fn type_mismatch_is_rejected_at_write_time() {
    let mut s = store();
    let err = s
        .set_row(RowId(0), &row(&[("count", PayloadValue::Keyword("not-a-number".into()))]))
        .unwrap_err();
    assert!(matches!(err, FilterError::TypeMismatch { .. }));
}

#[test]
fn strict_schema_rejects_undeclared_fields() {
    let mut s = store();
    let err = s.set_row(RowId(0), &row(&[("ghost", PayloadValue::Bool(true))])).unwrap_err();
    assert_eq!(err, FilterError::UnknownField("ghost".into()));
}

#[test]
fn non_strict_schema_tolerates_undeclared_fields_by_ignoring_them() {
    let mut s = PayloadStore::new(PayloadSchema::builder().field("title", FieldType::Keyword).build(), false);
    s.set_row(RowId(0), &row(&[("title", PayloadValue::Keyword("a".into())), ("ghost", PayloadValue::Bool(true))]))
        .unwrap();
    let universe: RoaringBitmap = [0].into_iter().collect();
    assert_eq!(
        s.compile(
            &Filter::Eq {
                field: "title".into(),
                value: Scalar::Str("a".into())
            },
            &universe
        )
        .unwrap(),
        [0].into_iter().collect()
    );
}

#[test]
fn text_match_is_explicitly_unsupported_not_silently_wrong() {
    let s = store();
    let universe = RoaringBitmap::new();
    let err = s
        .compile(
            &Filter::TextMatch {
                field: "body".into(),
                terms: vec!["hello".into()],
            },
            &universe,
        )
        .unwrap_err();
    assert_eq!(err, FilterError::TextMatchUnsupported);
}

#[test]
fn and_or_not_compose_correctly() {
    let mut s = store();
    s.set_row(
        RowId(0),
        &row(&[("title", PayloadValue::Keyword("a".into())), ("count", PayloadValue::I64(1))]),
    )
    .unwrap();
    s.set_row(
        RowId(1),
        &row(&[("title", PayloadValue::Keyword("a".into())), ("count", PayloadValue::I64(2))]),
    )
    .unwrap();
    s.set_row(
        RowId(2),
        &row(&[("title", PayloadValue::Keyword("b".into())), ("count", PayloadValue::I64(1))]),
    )
    .unwrap();
    let universe: RoaringBitmap = [0, 1, 2].into_iter().collect();

    let and_mask = s
        .compile(
            &Filter::And(vec![
                Filter::Eq { field: "title".into(), value: Scalar::Str("a".into()) },
                Filter::Eq { field: "count".into(), value: Scalar::I64(1) },
            ]),
            &universe,
        )
        .unwrap();
    assert_eq!(and_mask, [0].into_iter().collect());

    let or_mask = s
        .compile(
            &Filter::Or(vec![
                Filter::Eq { field: "title".into(), value: Scalar::Str("b".into()) },
                Filter::Eq { field: "count".into(), value: Scalar::I64(2) },
            ]),
            &universe,
        )
        .unwrap();
    assert_eq!(or_mask, [1, 2].into_iter().collect());

    let not_mask = s
        .compile(
            &Filter::Not(Box::new(Filter::Eq {
                field: "title".into(),
                value: Scalar::Str("a".into()),
            })),
            &universe,
        )
        .unwrap();
    assert_eq!(not_mask, [2].into_iter().collect());
}

#[test]
fn add_field_then_drop_field_round_trips() {
    let mut s = PayloadStore::new(PayloadSchema::empty(), true);
    assert!(s.add_field("size".to_string(), FieldType::I64).is_ok());
    assert_eq!(s.add_field("size".to_string(), FieldType::I64).unwrap_err(), FilterError::FieldAlreadyExists("size".into()));

    s.set_row(RowId(0), &row(&[("size", PayloadValue::I64(42))])).unwrap();
    let universe: RoaringBitmap = [0].into_iter().collect();
    assert_eq!(
        s.compile(&Filter::Eq { field: "size".into(), value: Scalar::I64(42) }, &universe).unwrap(),
        [0].into_iter().collect()
    );

    s.drop_field("size").unwrap();
    assert_eq!(
        s.compile(&Filter::Eq { field: "size".into(), value: Scalar::I64(42) }, &universe)
            .unwrap_err(),
        FilterError::UnknownField("size".into())
    );
}

fn scan_schema() -> PayloadSchema {
    PayloadSchema::builder()
        .field("tag", FieldType::Keyword)
        .field("score", FieldType::I64)
        .field("active", FieldType::Bool)
        .build()
}

fn ctx() -> RequestCtx {
    RequestCtx::new(
        SessionId("scan".into()),
        Principal { id: PrincipalId("p_scan".into()), name: "scan".into(), role: Role::Writer },
        Source::Embedded,
    )
}

struct Draw(u64);

impl Draw {
    fn below(&mut self, n: u64) -> u64 {
        self.0 = self.0.wrapping_mul(6364136223846793005).wrapping_add(1442695040888963407);
        (self.0 >> 33) % n
    }

    fn tag(&mut self) -> String {
        ["a", "b", "c"][self.below(3) as usize].to_string()
    }

    fn number(&mut self) -> i64 {
        self.below(6) as i64 - 3
    }

    fn fields(&mut self) -> PayloadRow {
        let mut r = PayloadRow::new();
        if self.below(2) == 0 {
            r.insert("tag".into(), PayloadValue::Keyword(self.tag()));
        }
        if self.below(2) == 0 {
            r.insert("score".into(), PayloadValue::I64(self.number()));
        }
        if self.below(2) == 0 {
            r.insert("active".into(), PayloadValue::Bool(self.below(2) == 0));
        }
        r
    }

    fn leaf(&mut self) -> Filter {
        match self.below(6) {
            0 => Filter::Eq { field: "tag".into(), value: Scalar::Str(self.tag()) },
            1 => Filter::In { field: "tag".into(), values: (0..1 + self.below(2)).map(|_| Scalar::Str(self.tag())).collect() },
            2 => Filter::Eq { field: "score".into(), value: Scalar::I64(self.number()) },
            3 => {
                let (a, b) = (self.number(), self.number());
                let (lo, hi) = if a <= b { (a, b) } else { (b, a) };
                Filter::Range { field: "score".into(), gte: Some(Scalar::I64(lo)), lte: Some(Scalar::I64(hi)), gt: None, lt: None }
            }
            4 => Filter::Eq { field: "active".into(), value: Scalar::Bool(self.below(2) == 0) },
            _ => Filter::Exists { field: ["tag", "score", "active"][self.below(3) as usize].into() },
        }
    }

    fn filter(&mut self, depth: u32) -> Filter {
        if depth == 0 || self.below(3) == 0 {
            return self.leaf();
        }
        match self.below(3) {
            0 => Filter::And((0..1 + self.below(3)).map(|_| self.filter(depth - 1)).collect()),
            1 => Filter::Or((0..1 + self.below(3)).map(|_| self.filter(depth - 1)).collect()),
            _ => Filter::Not(Box::new(self.filter(depth - 1))),
        }
    }
}

fn scalar_matches(value: &PayloadValue, scalar: &Scalar) -> bool {
    match (value, scalar) {
        (PayloadValue::Keyword(s), Scalar::Str(t)) => s == t,
        (PayloadValue::I64(v), Scalar::I64(t)) => v == t,
        (PayloadValue::Bool(v), Scalar::Bool(t)) => v == t,
        _ => false,
    }
}

fn range_matches(value: &PayloadValue, gte: &Option<Scalar>, lte: &Option<Scalar>, gt: &Option<Scalar>, lt: &Option<Scalar>) -> bool {
    let v = match value {
        PayloadValue::I64(v) => *v,
        _ => return false,
    };
    if let Some(Scalar::I64(b)) = gte {
        if v < *b {
            return false;
        }
    }
    if let Some(Scalar::I64(b)) = lte {
        if v > *b {
            return false;
        }
    }
    if let Some(Scalar::I64(b)) = gt {
        if v <= *b {
            return false;
        }
    }
    if let Some(Scalar::I64(b)) = lt {
        if v >= *b {
            return false;
        }
    }
    true
}

fn eval_row(filter: &Filter, fields: &PayloadRow) -> bool {
    match filter {
        Filter::And(fs) => fs.iter().all(|f| eval_row(f, fields)),
        Filter::Or(fs) => fs.iter().any(|f| eval_row(f, fields)),
        Filter::Not(f) => !eval_row(f, fields),
        Filter::Eq { field, value } => fields.get(field).is_some_and(|v| scalar_matches(v, value)),
        Filter::In { field, values } => fields.get(field).is_some_and(|v| values.iter().any(|sv| scalar_matches(v, sv))),
        Filter::Range { field, gte, lte, gt, lt } => fields.get(field).is_some_and(|v| range_matches(v, gte, lte, gt, lt)),
        Filter::Exists { field } => fields.contains_key(field),
        Filter::DocIn { .. } | Filter::TextMatch { .. } => false,
    }
}

#[test]
fn compiled_filter_matches_naive_linear_scan() {
    let mut draw = Draw(7);
    for _ in 0..300 {
        let mut c = Collection::with_schema("scan", 1, DistanceMetric::Cosine, scan_schema(), true);
        let mut universe = Vec::new();
        for i in 0..draw.below(30) {
            let fields = draw.fields();
            let row_id = c.put(&ctx(), &format!("k{i}"), vec![0], fields.clone(), None).unwrap();
            universe.push((row_id, fields));
        }
        let filter = draw.filter(4);
        let compiled = c.compile_filter(&filter).ok().unwrap();
        let mut expected = RoaringBitmap::new();
        for (row_id, fields) in &universe {
            if eval_row(&filter, fields) {
                expected.insert(row_id.to_bitmap_index());
            }
        }
        assert_eq!(compiled.allowed, expected, "{filter:?}");
    }
}

#[test]
fn deletes_are_excluded_from_every_filter_result_including_the_trivially_true_one() {
    let mut draw = Draw(11);
    let mut c = Collection::with_schema("scan-del", 1, DistanceMetric::Cosine, scan_schema(), true);
    let mut ids = Vec::new();
    for i in 0..19 {
        ids.push(c.put(&ctx(), &format!("k{i}"), vec![0], draw.fields(), None).unwrap());
    }
    let tautology = Filter::Or(vec![
        Filter::Exists { field: "tag".into() },
        Filter::Not(Box::new(Filter::Exists { field: "tag".into() })),
    ]);
    for (i, id) in ids.iter().enumerate() {
        if i % 2 == 0 {
            assert!(c.compile_filter(&tautology).ok().unwrap().contains(*id));
            c.delete(&ctx(), &format!("k{i}")).unwrap();
            let mask = c.compile_filter(&tautology).ok().unwrap();
            assert!(!mask.contains(*id), "a deleted row must never satisfy any filter");
        }
    }
}

#[test]
fn a_scalar_of_another_type_is_a_type_mismatch() {
    let s = store();
    let err = s.compile(&Filter::Eq { field: "count".into(), value: Scalar::Str("x".into()) }, &RoaringBitmap::new()).unwrap_err();
    assert_eq!(err, FilterError::TypeMismatch { field: "count".into(), expected: "i64".into(), actual: "str".into() });
}

#[test]
fn exclusive_bounds_leave_the_bound_out() {
    let mut s = store();
    for (i, v) in [1i64, 2, 3].into_iter().enumerate() {
        s.set_row(RowId(i as u64), &row(&[("count", PayloadValue::I64(v))])).unwrap();
    }
    let universe: RoaringBitmap = (0..3).collect();
    let filter = Filter::Range { field: "count".into(), gte: None, lte: None, gt: Some(Scalar::I64(1)), lt: Some(Scalar::I64(3)) };
    assert_eq!(s.compile(&filter, &universe).unwrap(), [1u32].into_iter().collect());
}

fn counts(values: &[i64]) -> (PayloadStore, RoaringBitmap) {
    let mut s = store();
    for (i, v) in values.iter().enumerate() {
        s.set_row(RowId(i as u64), &row(&[("count", PayloadValue::I64(*v))])).unwrap();
    }
    (s, (0..values.len() as u32).collect())
}

fn count_range(gte: Option<i64>, lte: Option<i64>, gt: Option<i64>, lt: Option<i64>) -> Filter {
    Filter::Range {
        field: "count".into(),
        gte: gte.map(Scalar::I64),
        lte: lte.map(Scalar::I64),
        gt: gt.map(Scalar::I64),
        lt: lt.map(Scalar::I64),
    }
}

#[test]
fn every_bound_that_is_given_applies() {
    let (s, universe) = counts(&[1, 5, 9]);
    let found = |f: Filter| s.compile(&f, &universe).unwrap().iter().collect::<Vec<u32>>();
    assert_eq!(found(count_range(Some(1), None, Some(5), None)), vec![2]);
    assert_eq!(found(count_range(Some(5), None, Some(1), None)), vec![1, 2]);
    assert_eq!(found(count_range(Some(5), None, Some(5), None)), vec![2]);
    assert_eq!(found(count_range(None, Some(9), None, Some(5))), vec![0]);
    assert_eq!(found(count_range(None, Some(5), None, Some(9))), vec![0, 1]);
    assert_eq!(found(count_range(Some(1), Some(9), Some(1), Some(9))), vec![1]);
}

#[test]
fn a_reversed_range_selects_nothing() {
    let (s, universe) = counts(&[1, 5, 9]);
    assert!(s.compile(&count_range(Some(9), Some(1), None, None), &universe).unwrap().is_empty());
    assert!(s.compile(&count_range(None, None, Some(5), Some(5)), &universe).unwrap().is_empty());
}

#[test]
fn membership_in_nothing_still_needs_a_declared_field() {
    let s = PayloadStore::new(PayloadSchema::empty(), true);
    let filter = Filter::In { field: "nope".into(), values: vec![] };
    assert_eq!(s.compile(&filter, &RoaringBitmap::new()).unwrap_err(), FilterError::UnknownField("nope".into()));
    let (s, universe) = counts(&[1]);
    assert!(s.compile(&Filter::In { field: "count".into(), values: vec![] }, &universe).unwrap().is_empty());
}

#[test]
fn a_schema_keeps_its_declarations_in_order() {
    let schema = PayloadSchema::builder().field("b", FieldType::Bool).field("a", FieldType::I64).build();
    assert_eq!(schema.len(), 2);
    assert_eq!(schema.iter(), vec![("b".to_string(), FieldType::Bool), ("a".to_string(), FieldType::I64)]);
    assert_eq!(schema.field_type("a"), Some(FieldType::I64));
    assert_eq!(schema.field_type("c"), None);
    assert!(schema.contains("b"));
    assert!(!schema.contains("c"));
}
