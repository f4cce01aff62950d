//! What a filter selects, said of the rows' own values: how each comparison
//! reads a value, how filters combine, and when a filter is refused.

use crate::columns;
use crate::columns::FieldType;
use crate::consistency;
use crate::fields::ValueView;
use crate::filter::{Filter, Scalar};
use crate::payload;
use crate::payload::FilterErrorView;
use crate::select;
use crate::state::StateView;
use vstd::prelude::*;

verus! {

/// Whether the number with bits `a` is below the one with bits `b`: one with
/// a sign is below one without; of two without, the smaller pattern; of two
/// with, the larger.
pub open spec fn below(a: u64, b: u64) -> bool {
    ||| a >= 0x8000_0000_0000_0000 && b < 0x8000_0000_0000_0000
    ||| a < b && b < 0x8000_0000_0000_0000
    ||| b < a && b >= 0x8000_0000_0000_0000
}

proof fn lemma_below(a: u64, b: u64)
    ensures
        columns::f64_key(a) < columns::f64_key(b) <==> below(a, b),
        columns::f64_key(a) <= columns::f64_key(b) <==> below(a, b) || a == b,
{
    columns::f64_key_preserves_order(a, b);
}

/// A range filter compares a row's value with each bound that is given: with
/// `gte` the value is at least the bound, with `lte` at most, with `gt` above
/// and with `lt` below it. Integers, timestamps and floats alike; a bound of
/// another type than the value's says nothing. A row without the field is not
/// selected.
pub proof fn a_range_filter_compares_values(s: StateView, row: u32, field: String, gte: Option<Scalar>, lte: Option<Scalar>, gt: Option<Scalar>, lt: Option<Scalar>)
    requires
        consistency::in_step(s),
        s.live.contains(row),
        select::selected(s, (Filter::Range { field, gte, lte, gt, lt })) is Ok,
    ensures
        ({
            let found = select::selected(s, (Filter::Range { field, gte, lte, gt, lt }))->Ok_0.contains(row);
            let fields = s.rows[row as u64].fields;
            &&& !fields.contains_key(field@) ==> !found
            &&& fields.contains_key(field@) ==> match fields[field@] {
                ValueView::I64(v) => found <==> (gte matches Some(Scalar::I64(b)) ==> v >= b) && (lte matches Some(Scalar::I64(b)) ==> v <= b)
                    && (gt matches Some(Scalar::I64(b)) ==> v > b) && (lt matches Some(Scalar::I64(b)) ==> v < b),
                ValueView::DateTime(v) => found <==> (gte matches Some(Scalar::DateTime(b)) ==> v >= b) && (lte matches Some(Scalar::DateTime(b)) ==> v <= b)
                    && (gt matches Some(Scalar::DateTime(b)) ==> v > b) && (lt matches Some(Scalar::DateTime(b)) ==> v < b),
                ValueView::F64(v) => found <==> (gte matches Some(Scalar::F64(b)) ==> !below(v, b)) && (lte matches Some(Scalar::F64(b)) ==> !below(b, v))
                    && (gt matches Some(Scalar::F64(b)) ==> below(b, v)) && (lt matches Some(Scalar::F64(b)) ==> below(v, b)),
                _ => !found,
            }
        }),
{
    let f = Filter::Range { field, gte, lte, gt, lt };
    consistency::filters_match_a_linear_scan(s, f, row);
    let fields = s.rows[row as u64].fields;
    assert(select::row_satisfies(s, f, row, fields) == payload::satisfies(f, fields));
    if fields.contains_key(field@) {
        if let ValueView::F64(v) = fields[field@] {
            if let Some(Scalar::F64(b)) = gte {
                lemma_below(b, v);
                lemma_below(v, b);
            }
            if let Some(Scalar::F64(b)) = lte {
                lemma_below(b, v);
                lemma_below(v, b);
            }
            if let Some(Scalar::F64(b)) = gt {
                lemma_below(b, v);
                lemma_below(v, b);
            }
            if let Some(Scalar::F64(b)) = lt {
                lemma_below(b, v);
                lemma_below(v, b);
            }
        }
    }
}

/// An equality filter selects a row exactly when its value is the given one:
/// the same text, number, timestamp, truth value or float; of a list, when one
/// of its members is the given text. A row without the field is not selected.
pub proof fn an_equality_filter_compares_values(s: StateView, row: u32, field: String, value: Scalar)
    requires
        consistency::in_step(s),
        s.live.contains(row),
        select::selected(s, (Filter::Eq { field, value })) is Ok,
    ensures
        ({
            let found = select::selected(s, (Filter::Eq { field, value }))->Ok_0.contains(row);
            let fields = s.rows[row as u64].fields;
            &&& !fields.contains_key(field@) ==> !found
            &&& fields.contains_key(field@) ==> match (fields[field@], value) {
                (ValueView::Keyword(t), Scalar::Str(v)) => found <==> t == v@,
                (ValueView::KeywordList(l), Scalar::Str(v)) => found <==> exists|i: int| 0 <= i < l.len() && l[i] == v@,
                (ValueView::I64(x), Scalar::I64(v)) => found <==> x == v,
                (ValueView::DateTime(x), Scalar::DateTime(v)) => found <==> x == v,
                (ValueView::F64(x), Scalar::F64(v)) => found <==> x == v,
                (ValueView::Bool(x), Scalar::Bool(v)) => found <==> x == v,
                _ => !found,
            }
        }),
{
    let f = Filter::Eq { field, value };
    consistency::filters_match_a_linear_scan(s, f, row);
    let fields = s.rows[row as u64].fields;
    assert(select::row_satisfies(s, f, row, fields) == payload::satisfies(f, fields));
}

/// A membership filter selects what equality with one of its values selects,
/// and with no values nothing.
pub proof fn a_membership_filter_is_one_of_its_equalities(s: StateView, row: u32, field: String, values: Vec<Scalar>)
    requires
        consistency::in_step(s),
        s.live.contains(row),
        select::selected(s, (Filter::In { field, values })) is Ok,
    ensures
        forall|i: int| 0 <= i < values@.len() ==> select::selected(s, (Filter::Eq { field, value: #[trigger] values@[i] })) is Ok,
        select::selected(s, (Filter::In { field, values }))->Ok_0.contains(row) <==> exists|i: int| 0 <= i < values@.len()
            && select::selected(s, (Filter::Eq { field, value: #[trigger] values@[i] }))->Ok_0.contains(row),
{
    let f = Filter::In { field, values };
    consistency::filters_match_a_linear_scan(s, f, row);
    select::filters_compile_where_they_suit(s, f);
    let fields = s.rows[row as u64].fields;
    assert(select::row_satisfies(s, f, row, fields) == payload::satisfies(f, fields));
    assert forall|i: int| 0 <= i < values@.len() implies {
        let e = Filter::Eq { field, value: #[trigger] values@[i] };
        select::selected(s, e) is Ok && (select::selected(s, e)->Ok_0.contains(row) <==> fields.contains_key(field@)
            && columns::cell_equals(columns::cell_of(fields[field@]), values@[i]))
    } by {
        let e = Filter::Eq { field, value: values@[i] };
        select::filters_compile_where_they_suit(s, e);
        consistency::filters_match_a_linear_scan(s, e, row);
        assert(select::row_satisfies(s, e, row, fields) == payload::satisfies(e, fields));
    }
    if select::selected(s, f)->Ok_0.contains(row) {
        let i = choose|i: int| 0 <= i < values@.len() && columns::cell_equals(columns::cell_of(fields[field@]), #[trigger] values@[i]);
        assert(select::selected(s, (Filter::Eq { field, value: values@[i] }))->Ok_0.contains(row));
    }
    if exists|i: int| 0 <= i < values@.len() && select::selected(s, (Filter::Eq { field, value: #[trigger] values@[i] }))->Ok_0.contains(row) {
        let i = choose|i: int| 0 <= i < values@.len() && select::selected(s, (Filter::Eq { field, value: #[trigger] values@[i] }))->Ok_0.contains(row);
        assert(columns::cell_equals(columns::cell_of(fields[field@]), values@[i]));
    }
}

/// A presence filter selects the live rows that have the field.
pub proof fn a_presence_filter_finds_the_field(s: StateView, row: u32, field: String)
    requires
        consistency::in_step(s),
        s.live.contains(row),
        select::selected(s, (Filter::Exists { field })) is Ok,
    ensures
        select::selected(s, (Filter::Exists { field }))->Ok_0.contains(row) <==> s.rows[row as u64].fields.contains_key(field@),
{
    let f = Filter::Exists { field };
    consistency::filters_match_a_linear_scan(s, f, row);
    let fields = s.rows[row as u64].fields;
    assert(select::row_satisfies(s, f, row, fields) == payload::satisfies(f, fields));
}

/// A document filter selects the live rows that the named documents list, and
/// is never refused.
pub proof fn a_document_filter_finds_its_rows(s: StateView, doc_keys: Vec<String>)
    ensures
        select::selected(s, (Filter::DocIn { doc_keys })) is Ok,
        forall|row: u32| #[trigger] select::selected(s, (Filter::DocIn { doc_keys }))->Ok_0.contains(row) <==> s.live.contains(row)
            && exists|i: int| 0 <= i < doc_keys@.len() && s.doc_keys.contains_key((#[trigger] doc_keys@[i])@) && s.docs.contains_key(s.doc_keys[doc_keys@[i]@])
                && s.docs[s.doc_keys[doc_keys@[i]@]].rows.contains(row),
{
    let keys = crate::text::texts(doc_keys@);
    assert forall|row: u32| #[trigger] select::selected(s, (Filter::DocIn { doc_keys }))->Ok_0.contains(row) <==> s.live.contains(row)
        && exists|i: int| 0 <= i < doc_keys@.len() && s.doc_keys.contains_key((#[trigger] doc_keys@[i])@) && s.docs.contains_key(s.doc_keys[doc_keys@[i]@])
            && s.docs[s.doc_keys[doc_keys@[i]@]].rows.contains(row) by {
        if select::chunks_of(s, keys, doc_keys@.len()).contains(row) {
            let i = choose|i: int| 0 <= i < doc_keys@.len() && select::chunk_of(s, #[trigger] keys[i], row);
            assert(doc_keys@[i]@ == keys[i]);
        }
        if exists|i: int| 0 <= i < doc_keys@.len() && s.doc_keys.contains_key((#[trigger] doc_keys@[i])@) && s.docs.contains_key(s.doc_keys[doc_keys@[i]@])
            && s.docs[s.doc_keys[doc_keys@[i]@]].rows.contains(row) {
            let i = choose|i: int| 0 <= i < doc_keys@.len() && s.doc_keys.contains_key((#[trigger] doc_keys@[i])@) && s.docs.contains_key(s.doc_keys[doc_keys@[i]@])
                && s.docs[s.doc_keys[doc_keys@[i]@]].rows.contains(row);
            assert(select::chunk_of(s, keys[i], row));
        }
    }
}

proof fn lemma_and_all(s: StateView, fs: Seq<Filter>, n: nat)
    requires
        n <= fs.len(),
    ensures
        select::selected_and(s, fs, n) is Ok <==> forall|i: int| 0 <= i < n ==> select::selected(s, #[trigger] fs[i]) is Ok,
        select::selected_and(s, fs, n) is Ok ==> forall|row: u32| #[trigger] select::selected_and(s, fs, n)->Ok_0.contains(row) <==> s.live.contains(row)
            && forall|i: int| 0 <= i < n ==> select::selected(s, #[trigger] fs[i])->Ok_0.contains(row),
        select::selected_and(s, fs, n) is Err ==> exists|i: int| 0 <= i < n && select::selected(s, #[trigger] fs[i]) == select::selected_and(s, fs, n)
            && forall|j: int| 0 <= j < i ==> select::selected(s, #[trigger] fs[j]) is Ok,
    decreases n,
{
    if n > 0 {
        let m = (n - 1) as nat;
        lemma_and_all(s, fs, m);
        if select::selected_and(s, fs, m) is Err {
            let i = choose|i: int| 0 <= i < m && select::selected(s, #[trigger] fs[i]) == select::selected_and(s, fs, m)
                && forall|j: int| 0 <= j < i ==> select::selected(s, #[trigger] fs[j]) is Ok;
            assert(select::selected(s, fs[i]) is Err);
        } else {
            assert(select::selected(s, fs[m as int]) is Ok || select::selected(s, fs[m as int]) is Err);
            if select::selected_and(s, fs, n) is Err {
                assert(select::selected(s, fs[m as int]) == select::selected_and(s, fs, n));
            } else {
                assert forall|row: u32| #[trigger] select::selected_and(s, fs, n)->Ok_0.contains(row) <==> s.live.contains(row)
                    && forall|i: int| 0 <= i < n ==> select::selected(s, #[trigger] fs[i])->Ok_0.contains(row) by {
                    assert(select::selected_and(s, fs, m)->Ok_0.contains(row) <==> s.live.contains(row)
                        && forall|i: int| 0 <= i < m ==> select::selected(s, #[trigger] fs[i])->Ok_0.contains(row));
                    if forall|i: int| 0 <= i < n ==> select::selected(s, #[trigger] fs[i])->Ok_0.contains(row) {
                        assert(select::selected(s, fs[m as int])->Ok_0.contains(row));
                    }
                }
            }
        }
    }
}

proof fn lemma_or_any(s: StateView, fs: Seq<Filter>, n: nat)
    requires
        n <= fs.len(),
    ensures
        select::selected_or(s, fs, n) is Ok <==> forall|i: int| 0 <= i < n ==> select::selected(s, #[trigger] fs[i]) is Ok,
        select::selected_or(s, fs, n) is Ok ==> forall|row: u32| #[trigger] select::selected_or(s, fs, n)->Ok_0.contains(row) <==>
            exists|i: int| 0 <= i < n && select::selected(s, #[trigger] fs[i])->Ok_0.contains(row),
        select::selected_or(s, fs, n) is Err ==> exists|i: int| 0 <= i < n && select::selected(s, #[trigger] fs[i]) == select::selected_or(s, fs, n)
            && forall|j: int| 0 <= j < i ==> select::selected(s, #[trigger] fs[j]) is Ok,
    decreases n,
{
    if n > 0 {
        let m = (n - 1) as nat;
        lemma_or_any(s, fs, m);
        if select::selected_or(s, fs, m) is Err {
            let i = choose|i: int| 0 <= i < m && select::selected(s, #[trigger] fs[i]) == select::selected_or(s, fs, m)
                && forall|j: int| 0 <= j < i ==> select::selected(s, #[trigger] fs[j]) is Ok;
            assert(select::selected(s, fs[i]) is Err);
        } else {
            assert(select::selected(s, fs[m as int]) is Ok || select::selected(s, fs[m as int]) is Err);
            if select::selected_or(s, fs, n) is Err {
                assert(select::selected(s, fs[m as int]) == select::selected_or(s, fs, n));
            } else {
                assert forall|row: u32| #[trigger] select::selected_or(s, fs, n)->Ok_0.contains(row) <==>
                    exists|i: int| 0 <= i < n && select::selected(s, #[trigger] fs[i])->Ok_0.contains(row) by {
                    assert(select::selected_or(s, fs, m)->Ok_0.contains(row) <==>
                        exists|i: int| 0 <= i < m && select::selected(s, #[trigger] fs[i])->Ok_0.contains(row));
                    if select::selected(s, fs[m as int])->Ok_0.contains(row) {
                        assert(select::selected(s, fs[m as int])->Ok_0.contains(row));
                    }
                }
            }
        }
    }
}

/// A conjunction selects the live rows that all its parts select, all live
/// rows if it has no part, and is refused as its first part that is refused.
pub proof fn a_conjunction_selects_what_all_parts_do(s: StateView, fs: Vec<Filter>)
    ensures
        select::selected(s, Filter::And(fs)) is Ok <==> forall|i: int| 0 <= i < fs@.len() ==> select::selected(s, #[trigger] fs@[i]) is Ok,
        select::selected(s, Filter::And(fs)) is Ok ==> forall|row: u32| #[trigger] select::selected(s, Filter::And(fs))->Ok_0.contains(row) <==> s.live.contains(row)
            && forall|i: int| 0 <= i < fs@.len() ==> select::selected(s, #[trigger] fs@[i])->Ok_0.contains(row),
        select::selected(s, Filter::And(fs)) is Err ==> exists|i: int| 0 <= i < fs@.len() && select::selected(s, #[trigger] fs@[i]) == select::selected(s, Filter::And(fs))
            && forall|j: int| 0 <= j < i ==> select::selected(s, #[trigger] fs@[j]) is Ok,
{
    lemma_and_all(s, fs@, fs@.len());
}

/// A disjunction selects the live rows that one of its parts selects, none if
/// it has no part, and is refused as its first part that is refused.
pub proof fn a_disjunction_selects_what_one_part_does(s: StateView, fs: Vec<Filter>)
    ensures
        select::selected(s, Filter::Or(fs)) is Ok <==> forall|i: int| 0 <= i < fs@.len() ==> select::selected(s, #[trigger] fs@[i]) is Ok,
        select::selected(s, Filter::Or(fs)) is Ok ==> forall|row: u32| #[trigger] select::selected(s, Filter::Or(fs))->Ok_0.contains(row) <==> s.live.contains(row)
            && exists|i: int| 0 <= i < fs@.len() && select::selected(s, #[trigger] fs@[i])->Ok_0.contains(row),
        select::selected(s, Filter::Or(fs)) is Err ==> exists|i: int| 0 <= i < fs@.len() && select::selected(s, #[trigger] fs@[i]) == select::selected(s, Filter::Or(fs))
            && forall|j: int| 0 <= j < i ==> select::selected(s, #[trigger] fs@[j]) is Ok,
{
    lemma_or_any(s, fs@, fs@.len());
}

/// A negation selects the live rows that its part does not, and is refused as
/// its part is.
pub proof fn a_negation_selects_the_other_live_rows(s: StateView, f: Box<Filter>)
    ensures
        select::selected(s, Filter::Not(f)) is Ok <==> select::selected(s, *f) is Ok,
        select::selected(s, *f) is Ok ==> forall|row: u32| #[trigger] select::selected(s, Filter::Not(f))->Ok_0.contains(row) <==> s.live.contains(row)
            && !select::selected(s, *f)->Ok_0.contains(row),
        select::selected(s, *f) is Err ==> select::selected(s, Filter::Not(f)) == select::selected(s, *f),
{
}

/// Which comparisons a field's type takes. A filter on a field that is not
/// declared is refused as unknown. Equality is between a text and a keyword or
/// a list of them, and otherwise between two of one type; ranges are over
/// integers, floats and timestamps; presence is for every type. Text matches
/// are always refused.
pub proof fn filters_are_refused_by_type(s: StateView, field: String, value: Scalar, gte: Option<Scalar>, lte: Option<Scalar>, gt: Option<Scalar>, lt: Option<Scalar>, values: Vec<Scalar>, terms: Vec<String>)
    ensures
        ({
            let eq = select::selected(s, (Filter::Eq { field, value }));
            let range = select::selected(s, (Filter::Range { field, gte, lte, gt, lt }));
            let presence = select::selected(s, (Filter::Exists { field }));
            let among = select::selected(s, (Filter::In { field, values }));
            let unknown = Err::<Set<u32>, FilterErrorView>(FilterErrorView::UnknownField(field@));
            let there = s.payload.columns.contains_key(field@);
            let ty = s.payload.columns[field@].ty;
            &&& !there ==> eq == unknown && range == unknown && presence == unknown && among == unknown
            &&& there ==> presence is Ok
            &&& there ==> (eq is Ok <==> match ty {
                FieldType::Keyword => value is Str,
                FieldType::KeywordList => value is Str,
                FieldType::I64 => value is I64,
                FieldType::F64 => value is F64,
                FieldType::DateTime => value is DateTime,
                FieldType::Bool => value is Bool,
                FieldType::Text => false,
            })
            &&& there && eq is Err ==> eq->Err_0 is TypeMismatch && eq->Err_0->TypeMismatch_field == field@
            &&& there ==> (range is Ok <==> ty is I64 || ty is F64 || ty is DateTime)
            &&& there && range is Err ==> range->Err_0 is TypeMismatch && range->Err_0->TypeMismatch_field == field@
            &&& there ==> (among is Ok <==> forall|i: int| 0 <= i < values@.len() ==> select::selected(s, (Filter::Eq { field, value: #[trigger] values@[i] })) is Ok)
            &&& select::selected(s, (Filter::TextMatch { field, terms })) == Err::<Set<u32>, FilterErrorView>(FilterErrorView::TextMatchUnsupported)
        }),
{
    let f = Filter::In { field, values };
    select::filters_compile_where_they_suit(s, f);
    let there = s.payload.columns.contains_key(field@);
    assert forall|i: int| 0 <= i < values@.len() && there implies (select::selected(s, (Filter::Eq { field, value: #[trigger] values@[i] })) is Ok
        <==> columns::comparable(s.payload.columns[field@].ty, values@[i])) by {}
    if there && forall|i: int| 0 <= i < values@.len() ==> select::selected(s, (Filter::Eq { field, value: #[trigger] values@[i] })) is Ok {
        assert forall|i: int| 0 <= i < values@.len() implies columns::comparable(s.payload.columns[field@].ty, #[trigger] values@[i]) by {
            assert(select::selected(s, (Filter::Eq { field, value: values@[i] })) is Ok);
        }
    }
}

/// Whether two outcomes agree: the same refusal, or the same rows among the
/// live ones.
pub open spec fn agree(a: payload::MaskView, b: payload::MaskView, live: Set<u32>) -> bool {
    match a {
        Ok(x) => b matches Ok(y) && x == y.intersect(live),
        Err(e) => b matches Err(g) && e == g,
    }
}

proof fn lemma_parts_agree(s: StateView, fs: Seq<Filter>, n: nat)
    requires
        n <= fs.len(),
        forall|i: int| 0 <= i < fs.len() ==> agree(select::selected(s, #[trigger] fs[i]), payload::compiled(s.payload, fs[i], s.live), s.live),
    ensures
        agree(select::selected_and(s, fs, n), payload::compiled_and(s.payload, fs, n, s.live), s.live),
        agree(select::selected_or(s, fs, n), payload::compiled_or(s.payload, fs, n, s.live), s.live),
    decreases n,
{
    if n > 0 {
        lemma_parts_agree(s, fs, (n - 1) as nat);
        assert(agree(select::selected(s, fs[n - 1]), payload::compiled(s.payload, fs[n - 1], s.live), s.live));
        if let Ok(x) = select::selected(s, fs[n - 1]) {
            let y = payload::compiled(s.payload, fs[n - 1], s.live)->Ok_0;
            if let Ok(a) = select::selected_and(s, fs, (n - 1) as nat) {
                let b = payload::compiled_and(s.payload, fs, (n - 1) as nat, s.live)->Ok_0;
                assert(a.intersect(x) =~= b.intersect(y).intersect(s.live));
            }
            if let Ok(a) = select::selected_or(s, fs, (n - 1) as nat) {
                let b = payload::compiled_or(s.payload, fs, (n - 1) as nat, s.live)->Ok_0;
                assert(a.union(x) =~= b.union(y).intersect(s.live));
            }
        }
    } else {
        assert(s.live =~= s.live.intersect(s.live));
        assert(Set::<u32>::empty() =~= Set::<u32>::empty().intersect(s.live));
    }
}

/// A filter that names no documents comes to the same, whether it is compiled
/// over the live rows by the columns alone or by the whole collection.
pub proof fn compiling_and_selecting_agree(s: StateView, f: Filter)
    requires
        !payload::mentions_documents(f),
    ensures
        agree(select::selected(s, f), payload::compiled(s.payload, f, s.live), s.live),
    decreases f,
{
    match f {
        Filter::And(fs) => {
            assert forall|i: int| 0 <= i < fs@.len() implies agree(select::selected(s, #[trigger] fs@[i]), payload::compiled(s.payload, fs@[i], s.live), s.live) by {
                assert(decreases_to!(f => fs@[i]));
                assert(!payload::mentions_documents(fs@[i]));
                compiling_and_selecting_agree(s, fs@[i]);
            }
            lemma_parts_agree(s, fs@, fs@.len());
        },
        Filter::Or(fs) => {
            assert forall|i: int| 0 <= i < fs@.len() implies agree(select::selected(s, #[trigger] fs@[i]), payload::compiled(s.payload, fs@[i], s.live), s.live) by {
                assert(decreases_to!(f => fs@[i]));
                assert(!payload::mentions_documents(fs@[i]));
                compiling_and_selecting_agree(s, fs@[i]);
            }
            lemma_parts_agree(s, fs@, fs@.len());
            if let Ok(a) = select::selected_or(s, fs@, fs@.len()) {
                let b = payload::compiled_or(s.payload, fs@, fs@.len(), s.live)->Ok_0;
                assert(a.intersect(s.live) =~= b.intersect(s.live));
            }
        },
        Filter::Not(g) => {
            compiling_and_selecting_agree(s, *g);
            if let Ok(a) = select::selected(s, *g) {
                let b = payload::compiled(s.payload, *g, s.live)->Ok_0;
                assert(s.live.difference(a) =~= s.live.difference(b).intersect(s.live));
            }
        },
        _ => {},
    }
}

/// A comparison that is refused for its type names the field's type and the
/// value's; a membership is refused as the first of its values that is.
pub proof fn a_refused_comparison_names_both_types(
    s: StateView,
    field: String,
    value: Scalar,
    values: Vec<Scalar>,
    i: int,
    gte: Option<Scalar>,
    lte: Option<Scalar>,
    gt: Option<Scalar>,
    lt: Option<Scalar>,
)
    requires
        s.payload.columns.contains_key(field@),
        0 <= i < values@.len(),
    ensures
        select::selected(s, (Filter::Eq { field, value })) matches Err(e) ==> e == (FilterErrorView::TypeMismatch {
            field: field@,
            expected: columns::field_type_name(s.payload.columns[field@].ty),
            actual: columns::scalar_name(value),
        }),
        select::selected(s, (Filter::Range { field, gte, lte, gt, lt })) matches Err(e) ==> e == (FilterErrorView::TypeMismatch {
            field: field@,
            expected: columns::field_type_name(s.payload.columns[field@].ty),
            actual: "range bound (i64/f64/datetime)"@,
        }),
        (forall|j: int| 0 <= j < i ==> select::selected(s, (Filter::Eq { field, value: #[trigger] values@[j] })) is Ok) && select::selected(
            s,
            (Filter::Eq { field, value: values@[i] }),
        ) is Err ==> select::selected(s, (Filter::In { field, values })) == select::selected(s, (Filter::Eq { field, value: values@[i] })),
{
    if (forall|j: int| 0 <= j < i ==> select::selected(s, (Filter::Eq { field, value: #[trigger] values@[j] })) is Ok) && select::selected(
        s,
        (Filter::Eq { field, value: values@[i] }),
    ) is Err {
        lemma_first_refusal(s, field, values@, i, values@.len());
    }
}

proof fn lemma_first_refusal(s: StateView, field: String, values: Seq<Scalar>, i: int, n: nat)
    requires
        0 <= i < values.len(),
        n <= values.len(),
        s.payload.columns.contains_key(field@),
        forall|j: int| 0 <= j < i ==> select::selected(s, (Filter::Eq { field, value: #[trigger] values[j] })) is Ok,
        select::selected(s, (Filter::Eq { field, value: values[i] })) is Err,
    ensures
        n <= i ==> payload::in_rows(s.payload, field@, values, n) is Ok,
        n > i ==> payload::in_rows(s.payload, field@, values, n) is Err && payload::in_rows(s.payload, field@, values, n)->Err_0 == select::selected(
            s,
            (Filter::Eq { field, value: values[i] }),
        )->Err_0,
    decreases n,
{
    if n > 0 {
        lemma_first_refusal(s, field, values, i, (n - 1) as nat);
        if n - 1 < i {
            assert(select::selected(s, (Filter::Eq { field, value: values[n - 1] })) is Ok);
        }
    }
}

} // verus!
