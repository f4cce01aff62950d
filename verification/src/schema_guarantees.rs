//! Which rows a schema accepts, and what a change of the schema does, said of
//! the declarations and the values themselves.

use crate::api;
use crate::api::SchemaChange;
use crate::columns;
use crate::columns::FieldType;
use crate::fields::{FieldsView, ValueView};
use crate::payload;
use crate::payload::{FilterErrorView, SchemaView, StoreView};
use crate::text;
use vstd::prelude::*;

verus! {

/// Whether a value is of a type.
pub open spec fn has_type(v: ValueView, ty: FieldType) -> bool {
    match ty {
        FieldType::Keyword => v is Keyword,
        FieldType::KeywordList => v is KeywordList,
        FieldType::I64 => v is I64,
        FieldType::F64 => v is F64,
        FieldType::DateTime => v is DateTime,
        FieldType::Bool => v is Bool,
        FieldType::Text => v is Text,
    }
}

/// Whether a declaration names a field.
pub open spec fn declares_field(s: SchemaView, name: Seq<char>) -> bool {
    exists|i: int| 0 <= i < s.len() && (#[trigger] s[i]).0 == name
}

/// Whether a row holds a declared field with a value of another type.
pub open spec fn ill_typed(s: SchemaView, fields: FieldsView, i: int) -> bool {
    fields.contains_key(s[i].0) && !has_type(fields[s[i].0], s[i].1)
}

proof fn lemma_has_type(v: ValueView, ty: FieldType)
    ensures
        columns::value_type(v) == ty <==> has_type(v, ty),
{
}

proof fn lemma_mismatch_at(s: SchemaView, fields: FieldsView, from: nat)
    requires
        from <= s.len(),
    ensures
        from <= payload::first_mismatch(s, fields, from) <= s.len(),
        forall|j: int| from <= j < payload::first_mismatch(s, fields, from) ==> !#[trigger] ill_typed(s, fields, j),
        payload::first_mismatch(s, fields, from) < s.len() ==> ill_typed(s, fields, payload::first_mismatch(s, fields, from) as int),
    decreases s.len() - from,
{
    if from < s.len() {
        if fields.contains_key(s[from as int].0) {
            lemma_has_type(fields[s[from as int].0], s[from as int].1);
        }
        if !payload::mismatched(s, fields, from as int) {
            lemma_mismatch_at(s, fields, from + 1);
        }
    }
}

proof fn lemma_least(names: Set<Seq<char>>) -> (k: Seq<char>)
    requires
        names.finite(),
        names.len() > 0,
    ensures
        names.contains(k),
        forall|q: Seq<char>| #[trigger] names.contains(q) && q != k ==> text::text_before(k, q),
    decreases names.len(),
{
    let a = names.choose();
    let rest = names.remove(a);
    if rest.len() == 0 {
        assert forall|q: Seq<char>| #[trigger] names.contains(q) && q != a implies text::text_before(a, q) by {
            assert(rest.contains(q));
            assert(rest.remove(q).len() + 1 == rest.len());
        }
        a
    } else {
        let b = lemma_least(rest);
        text::text_order_total(a, b);
        if text::text_before(a, b) {
            assert forall|q: Seq<char>| #[trigger] names.contains(q) && q != a implies text::text_before(a, q) by {
                assert(rest.contains(q));
                if q != b {
                    text::text_order_transitive(a, b, q);
                }
            }
            a
        } else {
            assert forall|q: Seq<char>| #[trigger] names.contains(q) && q != b implies text::text_before(b, q) by {
                if q != a {
                    assert(rest.contains(q));
                }
            }
            b
        }
    }
}

/// A row is accepted exactly when each declared field that it holds has a
/// value of the declared type and, where the schema is strict, it holds no
/// other field. It is refused for a field that is not declared before it is
/// for a type: then the refusal names the first such field in the order of
/// text; otherwise the first declared field whose value has another type.
pub proof fn a_row_is_accepted_where_it_suits_the_schema(s: StoreView, fields: FieldsView)
    requires
        fields.dom().finite(),
    ensures
        payload::row_refusal(s, fields) is None <==> (s.strict ==> forall|k: Seq<char>| #[trigger] fields.contains_key(k) ==> declares_field(s.schema, k))
            && forall|i: int| 0 <= i < s.schema.len() ==> !#[trigger] ill_typed(s.schema, fields, i),
        payload::row_refusal(s, fields) matches Some(FilterErrorView::UnknownField(k)) ==> s.strict && fields.contains_key(k) && !declares_field(s.schema, k)
            && forall|q: Seq<char>| #[trigger] fields.contains_key(q) && !declares_field(s.schema, q) && q != k ==> text::text_before(k, q),
        s.strict && (exists|k: Seq<char>| #[trigger] fields.contains_key(k) && !declares_field(s.schema, k)) ==> payload::row_refusal(s, fields) matches Some(
            FilterErrorView::UnknownField(_),
        ),
        payload::row_refusal(s, fields) matches Some(FilterErrorView::TypeMismatch { field, expected, actual }) ==> exists|i: int| 0 <= i < s.schema.len()
            && #[trigger] ill_typed(s.schema, fields, i) && s.schema[i].0 == field && (forall|j: int| 0 <= j < i ==> !#[trigger] ill_typed(s.schema, fields, j))
            && expected == columns::field_type_name(s.columns[field].ty) && actual == columns::field_type_name(columns::value_type(fields[field])),
        payload::row_refusal(s, fields) matches Some(e) ==> e is UnknownField || e is TypeMismatch,
{
    let i = payload::first_mismatch(s.schema, fields, 0);
    lemma_mismatch_at(s.schema, fields, 0);
    assert forall|k: Seq<char>| fields.contains_key(k) && !#[trigger] declares_field(s.schema, k) <==> payload::undeclared(s.schema, fields, k) by {}
    if s.strict && exists|k: Seq<char>| payload::undeclared(s.schema, fields, k) {
        let names = fields.dom().filter(|k: Seq<char>| !declares_field(s.schema, k));
        let k0 = choose|k: Seq<char>| payload::undeclared(s.schema, fields, k);
        assert(!declares_field(s.schema, k0));
        assert(names.contains(k0));
        fields.dom().lemma_len_filter(|k: Seq<char>| !declares_field(s.schema, k));
        assert(names.remove(k0).len() + 1 == names.len());
        let least = lemma_least(names);
        assert(payload::first_undeclared(s.schema, fields, least)) by {
            assert forall|q: Seq<char>| #[trigger] payload::undeclared(s.schema, fields, q) && q != least implies text::text_before(least, q) by {
                assert(!declares_field(s.schema, q));
                assert(names.contains(q));
            }
        }
        let k = choose|k: Seq<char>| payload::first_undeclared(s.schema, fields, k);
        assert(payload::undeclared(s.schema, fields, k));
        assert(!declares_field(s.schema, k));
        assert forall|q: Seq<char>| #[trigger] fields.contains_key(q) && !declares_field(s.schema, q) && q != k implies text::text_before(k, q) by {
            assert(payload::undeclared(s.schema, fields, q));
        }
    } else if i < s.schema.len() {
        assert(ill_typed(s.schema, fields, i as int));
    }
}

/// What a schema says of a name: the type of its first declaration.
pub proof fn a_schema_knows_a_field_by_its_declaration(s: SchemaView, name: Seq<char>)
    ensures
        payload::declares(s, name) == declares_field(s, name),
        payload::declared_type(s, name) is Some <==> declares_field(s, name),
        forall|i: int| 0 <= i < s.len() && (#[trigger] s[i]).0 == name && (forall|j: int| 0 <= j < i ==> (#[trigger] s[j]).0 != name)
            ==> payload::declared_type(s, name) == Some(s[i].1),
{
    lemma_declared_at(s, name, 0);
    let at = payload::declared_at(s, name, 0) as int;
    if at < s.len() {
        assert(s[at].0 == name);
    }
}

proof fn lemma_declared_at(s: SchemaView, name: Seq<char>, from: nat)
    requires
        from <= s.len(),
    ensures
        from <= payload::declared_at(s, name, from) <= s.len(),
        forall|j: int| from <= j < payload::declared_at(s, name, from) ==> (#[trigger] s[j]).0 != name,
        payload::declared_at(s, name, from) < s.len() ==> s[payload::declared_at(s, name, from) as int].0 == name,
    decreases s.len() - from,
{
    if from < s.len() && s[from as int].0 != name {
        lemma_declared_at(s, name, from + 1);
    }
}

proof fn lemma_schema_without(s: SchemaView, name: Seq<char>)
    ensures
        payload::schema_without(s, name) == s.filter(|e: (Seq<char>, FieldType)| e.0 != name),
    decreases s.len(),
{
    reveal(Seq::filter);
    if s.len() > 0 {
        lemma_schema_without(s.drop_last(), name);
    }
}

/// Adding a field is refused exactly when there is one of that name;
/// otherwise it is declared last, and no row has a value for it yet. Dropping
/// one is refused exactly when there is none; otherwise the other
/// declarations stay, in their order. Either way the other columns, and
/// whether the schema is strict, stay as they are, and a refused change
/// changes nothing.
pub proof fn a_schema_change_adds_or_drops_one_field(s: StoreView, change: SchemaChange)
    ensures
        ({
            let (t, refused) = api::altered(s, change);
            let name = match change {
                SchemaChange::AddField { name, field_type } => name@,
                SchemaChange::DropField { name } => name@,
            };
            &&& refused is Some ==> t == s
            &&& t.strict == s.strict
            &&& forall|k: Seq<char>| k != name ==> #[trigger] t.columns.contains_key(k) == s.columns.contains_key(k)
                && (s.columns.contains_key(k) ==> t.columns[k] == s.columns[k])
            &&& change matches SchemaChange::AddField { field_type, .. } ==> {
                &&& refused is None <==> !declares_field(s.schema, name)
                &&& refused matches Some(e) ==> e == FilterErrorView::FieldAlreadyExists(name)
                &&& refused is None ==> t.schema == s.schema.push((name, field_type)) && t.columns.contains_key(name) && t.columns[name].ty == field_type
                    && forall|row: u32| !#[trigger] t.columns[name].cells.contains_key(row)
            }
            &&& change is DropField ==> {
                &&& refused is None <==> declares_field(s.schema, name)
                &&& refused matches Some(e) ==> e == FilterErrorView::UnknownField(name)
                &&& refused is None ==> t.schema == s.schema.filter(|e: (Seq<char>, FieldType)| e.0 != name) && !t.columns.contains_key(name)
            }
        }),
{
    match change {
        SchemaChange::AddField { name, field_type } => {
            a_schema_knows_a_field_by_its_declaration(s.schema, name@);
        },
        SchemaChange::DropField { name } => {
            a_schema_knows_a_field_by_its_declaration(s.schema, name@);
            lemma_schema_without(s.schema, name@);
        },
    }
}

} // verus!
