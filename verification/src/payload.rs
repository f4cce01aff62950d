//! The typed payload schema, the columnar store, and the filter compiler.

use crate::bitmap;
use crate::bitmap::{bitmap_clone, bitmap_contains, bitmap_intersect, bitmap_new, bitmap_subtract, bitmap_union};
use crate::columns;
use crate::columns::{scalar_type_name, value_type_name, Column, ColumnView, FieldType};
use crate::fields::{FieldsView, PayloadRow};
use crate::filter::{Filter, Scalar};
use crate::ids::RowId;
use crate::text;
use crate::text::{is_before, same_text};
use roaring::RoaringBitmap;
use vstd::prelude::*;

verus! {

/// Why a row's fields or a filter are refused.
#[derive(Debug, PartialEq, Eq)]
pub enum FilterError {
    /// The field is not declared in the schema.
    UnknownField(String),
    /// The field has another type than the value or the filter needs.
    TypeMismatch { field: String, expected: &'static str, actual: &'static str },
    /// Text matching needs a text index.
    TextMatchUnsupported,
    /// The schema has the field already.
    FieldAlreadyExists(String),
}

/// The contents of a [`FilterError`].
pub enum FilterErrorView {
    UnknownField(Seq<char>),
    TypeMismatch { field: Seq<char>, expected: Seq<char>, actual: Seq<char> },
    TextMatchUnsupported,
    FieldAlreadyExists(Seq<char>),
}

impl View for FilterError {
    type V = FilterErrorView;

    open spec fn view(&self) -> FilterErrorView {
        match self {
            FilterError::UnknownField(f) => FilterErrorView::UnknownField(f@),
            FilterError::TypeMismatch { field, expected, actual } => FilterErrorView::TypeMismatch {
                field: field@,
                expected: expected@,
                actual: actual@,
            },
            FilterError::TextMatchUnsupported => FilterErrorView::TextMatchUnsupported,
            FilterError::FieldAlreadyExists(f) => FilterErrorView::FieldAlreadyExists(f@),
        }
    }
}

pub type FilterResult<T> = Result<T, FilterError>;

/// The names and types that a schema declares, in order.
pub type SchemaView = Seq<(Seq<char>, FieldType)>;

/// The first place from `from` on at which the schema declares `name`; its
/// length if there is none.
pub open spec fn declared_at(s: SchemaView, name: Seq<char>, from: nat) -> nat
    decreases s.len() - from,
{
    if from >= s.len() || s[from as int].0 == name {
        from
    } else {
        declared_at(s, name, from + 1)
    }
}

/// Whether the schema declares `name`.
pub open spec fn declares(s: SchemaView, name: Seq<char>) -> bool {
    exists|i: int| 0 <= i < s.len() && (#[trigger] s[i]).0 == name
}

/// The type that the schema's first declaration of `name` gives it.
pub open spec fn declared_type(s: SchemaView, name: Seq<char>) -> Option<FieldType> {
    let i = declared_at(s, name, 0);
    if i < s.len() { Some(s[i as int].1) } else { None }
}

proof fn lemma_declared_at(s: SchemaView, name: Seq<char>, from: nat, at: int)
    requires
        from <= at <= s.len(),
        forall|j: int| from <= j < at ==> (#[trigger] s[j]).0 != name,
        at < s.len() ==> s[at].0 == name,
    ensures
        declared_at(s, name, from) == at,
    decreases at - from,
{
    if from < at {
        assert(s[from as int].0 != name);
        lemma_declared_at(s, name, from + 1, at);
    }
}

/// A collection's declared payload fields, in insertion order.
#[derive(Debug)]
pub struct PayloadSchema {
    fields: Vec<(String, FieldType)>,
}

/// The declarations in a list of pairs.
pub open spec fn schema_of(s: Seq<(String, FieldType)>) -> SchemaView {
    Seq::new(s.len(), |i: int| (s[i].0@, s[i].1))
}

impl View for PayloadSchema {
    type V = SchemaView;

    closed spec fn view(&self) -> SchemaView {
        schema_of(self.fields@)
    }
}

impl PayloadSchema {
    /// A schema without fields.
    pub fn empty() -> (r: Self)
        ensures
            r@ == Seq::<(Seq<char>, FieldType)>::empty(),
    {
        let r = PayloadSchema { fields: Vec::new() };
        assert(r@ =~= Seq::<(Seq<char>, FieldType)>::empty());
        r
    }

    /// A builder without fields.
    pub fn builder() -> (r: PayloadSchemaBuilder)
        ensures
            r@ == Seq::<(Seq<char>, FieldType)>::empty(),
    {
        let r = PayloadSchemaBuilder { fields: Vec::new() };
        assert(r@ =~= Seq::<(Seq<char>, FieldType)>::empty());
        r
    }

    fn find(&self, name: &str) -> (r: Option<usize>)
        ensures
            r matches Some(i) ==> i < self@.len() && self@[i as int].0 == name@ && declared_at(self@, name@, 0) == i
                && declares(self@, name@),
            r is None ==> !declares(self@, name@) && declared_at(self@, name@, 0) == self@.len(),
    {
        let mut i: usize = 0;
        while i < self.fields.len()
            invariant
                i <= self@.len(),
                self@.len() == self.fields@.len(),
                forall|j: int| 0 <= j < i ==> (#[trigger] self@[j]).0 != name@,
            decreases self.fields.len() - i,
        {
            if same_text(self.fields[i].0.as_str(), name) {
                proof {
                    assert(self@[i as int].0 == name@);
                    lemma_declared_at(self@, name@, 0, i as int);
                }
                return Some(i);
            }
            i += 1;
        }
        proof { lemma_declared_at(self@, name@, 0, self@.len() as int); }
        None
    }

    /// The type of a field, if it is declared.
    pub fn field_type(&self, name: &str) -> (r: Option<FieldType>)
        ensures
            r == declared_type(self@, name@),
    {
        match self.find(name) {
            Some(i) => Some(self.fields[i].1),
            None => None,
        }
    }

    /// Whether a field is declared.
    pub fn contains(&self, name: &str) -> (r: bool)
        ensures
            r == declares(self@, name@),
    {
        match self.find(name) {
            Some(_) => true,
            None => false,
        }
    }

    /// The declarations, in order.
    pub fn iter(&self) -> (r: Vec<(String, FieldType)>)
        ensures
            schema_of(r@) == self@,
    {
        let mut out: Vec<(String, FieldType)> = Vec::new();
        let mut i: usize = 0;
        while i < self.fields.len()
            invariant
                i <= self.fields@.len(),
                out@.len() == i,
                forall|j: int| 0 <= j < i ==> (#[trigger] out@[j]) == self.fields@[j],
            decreases self.fields.len() - i,
        {
            out.push((self.fields[i].0.clone(), self.fields[i].1));
            i += 1;
        }
        assert(out@ =~= self.fields@);
        out
    }

    /// The number of declarations.
    pub fn len(&self) -> (r: usize)
        ensures
            r == self@.len(),
    {
        self.fields.len()
    }
}

impl Clone for PayloadSchema {
    fn clone(&self) -> (r: Self)
        ensures
            r@ == self@,
    {
        PayloadSchema { fields: self.iter() }
    }
}

impl Default for PayloadSchema {
    fn default() -> (r: Self)
        ensures
            r@ == Seq::<(Seq<char>, FieldType)>::empty(),
    {
        PayloadSchema::empty()
    }
}

/// Collects the declarations of a [`PayloadSchema`].
pub struct PayloadSchemaBuilder {
    fields: Vec<(String, FieldType)>,
}

impl View for PayloadSchemaBuilder {
    type V = SchemaView;

    closed spec fn view(&self) -> SchemaView {
        schema_of(self.fields@)
    }
}

impl PayloadSchemaBuilder {
    /// Declares one more field.
    pub fn field(self, name: &str, ty: FieldType) -> (r: Self)
        ensures
            r@ == self@.push((name@, ty)),
    {
        let mut fields = self.fields;
        fields.push((name.to_owned(), ty));
        let r = PayloadSchemaBuilder { fields };
        assert(r@ =~= self@.push((name@, ty)));
        r
    }

    /// The schema.
    pub fn build(self) -> (r: PayloadSchema)
        ensures
            r@ == self@,
    {
        PayloadSchema { fields: self.fields }
    }
}

/// The compiled result of a filter: the rows it allows and how many they are.
pub struct FilterMask {
    pub allowed: RoaringBitmap,
    pub estimated_cardinality: u64,
}

impl FilterMask {
    /// Whether the mask allows the row.
    pub fn contains(&self, row_id: RowId) -> (r: bool)
        requires
            row_id.0 <= u32::MAX,
        ensures
            r == bitmap::rows_of(self.allowed).contains(row_id.0 as u32),
    {
        bitmap_contains(&self.allowed, row_id.to_bitmap_index())
    }
}

/// A payload store's contents: the schema, whether writes are held to it, and
/// the column of each declared field.
pub struct StoreView {
    pub schema: SchemaView,
    pub strict: bool,
    pub columns: Map<Seq<char>, ColumnView>,
}

struct ColumnEntry {
    name: String,
    column: Column,
}

/// The columnar payload store of one collection. `strict` makes writes with
/// undeclared fields an error; filters on undeclared fields always are.
pub struct PayloadStore {
    schema: PayloadSchema,
    columns: Vec<ColumnEntry>,
    strict: bool,
}

spec fn entry_columns(s: Seq<ColumnEntry>) -> Map<Seq<char>, ColumnView> {
    Map::new(
        |k: Seq<char>| exists|i: int| 0 <= i < s.len() && (#[trigger] s[i]).name@ == k,
        |k: Seq<char>| s[choose|i: int| 0 <= i < s.len() && (#[trigger] s[i]).name@ == k].column@,
    )
}

spec fn entries_distinct(s: Seq<ColumnEntry>) -> bool {
    forall|i: int, j: int| 0 <= i < j < s.len() ==> (#[trigger] s[i]).name@ != (#[trigger] s[j]).name@
}

spec fn entries_wf(s: Seq<ColumnEntry>) -> bool {
    forall|i: int| 0 <= i < s.len() ==> (#[trigger] s[i]).column.wf()
}

proof fn lemma_entry_column(s: Seq<ColumnEntry>, i: int)
    requires
        entries_distinct(s),
        0 <= i < s.len(),
    ensures
        entry_columns(s).contains_key(s[i].name@),
        entry_columns(s)[s[i].name@] == s[i].column@,
{
    let k = s[i].name@;
    let c = choose|j: int| 0 <= j < s.len() && (#[trigger] s[j]).name@ == k;
    assert(s[c].name@ == k);
    if c != i {
        if c < i { assert(s[c].name@ != s[i].name@); } else { assert(s[i].name@ != s[c].name@); }
    }
}

proof fn lemma_entry_update(s: Seq<ColumnEntry>, i: int, e: ColumnEntry)
    requires
        entries_distinct(s),
        0 <= i < s.len(),
        e.name@ == s[i].name@,
    ensures
        entries_distinct(s.update(i, e)),
        entry_columns(s.update(i, e)) == entry_columns(s).insert(e.name@, e.column@),
{
    let t = s.update(i, e);
    assert(entries_distinct(t)) by {
        assert forall|a: int, b: int| 0 <= a < b < t.len() implies (#[trigger] t[a]).name@ != (#[trigger] t[b]).name@ by {
            assert(s[a].name@ != s[b].name@);
        }
    }
    assert(entry_columns(t) =~= entry_columns(s).insert(e.name@, e.column@)) by {
        assert forall|k: Seq<char>| entry_columns(t).contains_key(k) == entry_columns(s).insert(e.name@, e.column@).contains_key(k) by {
            if entry_columns(t).contains_key(k) {
                let j = choose|j: int| 0 <= j < t.len() && (#[trigger] t[j]).name@ == k;
                lemma_entry_column(s, j);
            }
            if entry_columns(s).contains_key(k) {
                let j = choose|j: int| 0 <= j < s.len() && (#[trigger] s[j]).name@ == k;
                lemma_entry_column(t, j);
            }
            lemma_entry_column(t, i);
        }
        assert forall|k: Seq<char>| entry_columns(t).contains_key(k) implies entry_columns(t)[k] == entry_columns(s).insert(e.name@, e.column@)[k] by {
            let j = choose|j: int| 0 <= j < t.len() && (#[trigger] t[j]).name@ == k;
            lemma_entry_column(t, j);
            lemma_entry_column(s, j);
            lemma_entry_column(t, i);
        }
    }
}

proof fn lemma_entry_push(s: Seq<ColumnEntry>, e: ColumnEntry)
    requires
        entries_distinct(s),
        forall|i: int| 0 <= i < s.len() ==> (#[trigger] s[i]).name@ != e.name@,
    ensures
        entries_distinct(s.push(e)),
        entry_columns(s.push(e)) == entry_columns(s).insert(e.name@, e.column@),
{
    let t = s.push(e);
    assert(entries_distinct(t)) by {
        assert forall|a: int, b: int| 0 <= a < b < t.len() implies (#[trigger] t[a]).name@ != (#[trigger] t[b]).name@ by {
            assert(s[a].name@ != e.name@);
            if b < s.len() {
                assert(s[a].name@ != s[b].name@);
            }
        }
    }
    assert(entry_columns(t) =~= entry_columns(s).insert(e.name@, e.column@)) by {
        lemma_entry_column(t, s.len() as int);
        assert forall|k: Seq<char>| entry_columns(t).contains_key(k) == entry_columns(s).insert(e.name@, e.column@).contains_key(k) by {
            if entry_columns(t).contains_key(k) {
                let j = choose|j: int| 0 <= j < t.len() && (#[trigger] t[j]).name@ == k;
                if j < s.len() {
                    lemma_entry_column(s, j);
                }
            }
            if entry_columns(s).contains_key(k) {
                let j = choose|j: int| 0 <= j < s.len() && (#[trigger] s[j]).name@ == k;
                assert(t[j] == s[j]);
                lemma_entry_column(t, j);
            }
        }
        assert forall|k: Seq<char>| entry_columns(t).contains_key(k) implies entry_columns(t)[k] == entry_columns(s).insert(e.name@, e.column@)[k] by {
            let j = choose|j: int| 0 <= j < t.len() && (#[trigger] t[j]).name@ == k;
            lemma_entry_column(t, j);
            if j < s.len() {
                lemma_entry_column(s, j);
                assert(s[j].name@ != e.name@);
            }
        }
    }
}

proof fn lemma_entry_remove(s: Seq<ColumnEntry>, i: int)
    requires
        entries_distinct(s),
        0 <= i < s.len(),
    ensures
        entries_distinct(s.remove(i)),
        entry_columns(s.remove(i)) == entry_columns(s).remove(s[i].name@),
{
    let t = s.remove(i);
    assert(entries_distinct(t)) by {
        assert forall|a: int, b: int| 0 <= a < b < t.len() implies (#[trigger] t[a]).name@ != (#[trigger] t[b]).name@ by {
            let x = if a < i { a } else { a + 1 };
            let y = if b < i { b } else { b + 1 };
            assert(s[x].name@ != s[y].name@);
        }
    }
    assert(entry_columns(t) =~= entry_columns(s).remove(s[i].name@)) by {
        assert forall|k: Seq<char>| entry_columns(t).contains_key(k) == entry_columns(s).remove(s[i].name@).contains_key(k) by {
            if entry_columns(t).contains_key(k) {
                let j = choose|j: int| 0 <= j < t.len() && (#[trigger] t[j]).name@ == k;
                let x = if j < i { j } else { j + 1 };
                assert(s[x] == t[j]);
                lemma_entry_column(s, x);
                if x < i { assert(s[x].name@ != s[i].name@); } else { assert(s[i].name@ != s[x].name@); }
            }
            if entry_columns(s).remove(s[i].name@).contains_key(k) {
                let j = choose|j: int| 0 <= j < s.len() && (#[trigger] s[j]).name@ == k;
                let y = if j < i { j } else { j - 1 };
                assert(t[y] == s[j]);
                lemma_entry_column(t, y);
            }
        }
        assert forall|k: Seq<char>| entry_columns(t).contains_key(k) implies entry_columns(t)[k] == entry_columns(s).remove(s[i].name@)[k] by {
            let j = choose|j: int| 0 <= j < t.len() && (#[trigger] t[j]).name@ == k;
            let x = if j < i { j } else { j + 1 };
            assert(s[x] == t[j]);
            lemma_entry_column(t, j);
            lemma_entry_column(s, x);
        }
    }
}

/// The empty columns that a schema asks for; a later declaration of a name
/// replaces an earlier one.
pub open spec fn fresh_columns(s: SchemaView) -> Map<Seq<char>, ColumnView>
    decreases s.len(),
{
    if s.len() == 0 {
        Map::empty()
    } else {
        fresh_columns(s.drop_last()).insert(s.last().0, ColumnView { ty: s.last().1, cells: Map::empty() })
    }
}

/// Whether columns and declarations name the same fields, each column having
/// a type that its field was declared with.
pub open spec fn columns_match(s: SchemaView, columns: Map<Seq<char>, ColumnView>) -> bool {
    &&& forall|k: Seq<char>| #[trigger] columns.contains_key(k) ==> exists|i: int|
        0 <= i < s.len() && #[trigger] s[i] == (k, columns[k].ty)
    &&& forall|i: int| 0 <= i < s.len() ==> columns.contains_key((#[trigger] s[i]).0)
}

proof fn lemma_fresh_columns_match(s: SchemaView)
    ensures
        columns_match(s, fresh_columns(s)),
    decreases s.len(),
{
    if s.len() > 0 {
        let d = s.drop_last();
        lemma_fresh_columns_match(d);
        let c = fresh_columns(s);
        assert forall|k: Seq<char>| #[trigger] c.contains_key(k) implies exists|i: int| 0 <= i < s.len() && #[trigger] s[i] == (k, c[k].ty) by {
            if k == s.last().0 {
                assert(s[s.len() - 1] == (k, c[k].ty));
            } else {
                assert(fresh_columns(d).contains_key(k));
                let i = choose|i: int| 0 <= i < d.len() && #[trigger] d[i] == (k, fresh_columns(d)[k].ty);
                assert(s[i] == d[i]);
            }
        }
        assert forall|i: int| 0 <= i < s.len() implies c.contains_key((#[trigger] s[i]).0) by {
            if i < d.len() {
                assert(fresh_columns(d).contains_key(d[i].0));
            }
        }
    }
}

/// Whether `k` is a field of the row that the schema does not declare.
pub open spec fn undeclared(s: SchemaView, fields: FieldsView, k: Seq<char>) -> bool {
    fields.contains_key(k) && !declares(s, k)
}

/// Whether `k` sorts first among the row's undeclared fields.
pub open spec fn first_undeclared(s: SchemaView, fields: FieldsView, k: Seq<char>) -> bool {
    &&& undeclared(s, fields, k)
    &&& forall|q: Seq<char>| #[trigger] undeclared(s, fields, q) && q != k ==> text::text_before(k, q)
}

proof fn lemma_first_undeclared_unique(s: SchemaView, fields: FieldsView, a: Seq<char>, b: Seq<char>)
    requires
        first_undeclared(s, fields, a),
        first_undeclared(s, fields, b),
    ensures
        a == b,
{
    if a != b {
        text::text_order_total(a, b);
    }
}

/// Whether the value that the row has for declaration `i` has another type.
pub open spec fn mismatched(s: SchemaView, fields: FieldsView, i: int) -> bool {
    fields.contains_key(s[i].0) && columns::value_type(fields[s[i].0]) != s[i].1
}

/// The first mismatched declaration from `from` on; the schema's length if
/// there is none.
pub open spec fn first_mismatch(s: SchemaView, fields: FieldsView, from: nat) -> nat
    decreases s.len() - from,
{
    if from >= s.len() || mismatched(s, fields, from as int) {
        from
    } else {
        first_mismatch(s, fields, from + 1)
    }
}

proof fn lemma_first_mismatch(s: SchemaView, fields: FieldsView, from: nat, at: int)
    requires
        from <= at <= s.len(),
        forall|j: int| from <= j < at ==> !#[trigger] mismatched(s, fields, j),
        at < s.len() ==> mismatched(s, fields, at),
    ensures
        first_mismatch(s, fields, from) == at,
    decreases at - from,
{
    if from < at {
        assert(!mismatched(s, fields, from as int));
        lemma_first_mismatch(s, fields, from + 1, at);
    }
}

/// Why the store refuses a row's fields, if it does: in a strict store an
/// undeclared field, the one that sorts first; else a value of another type
/// than declared, at the first declaration that it breaks.
pub open spec fn row_refusal(s: StoreView, fields: FieldsView) -> Option<FilterErrorView> {
    if s.strict && exists|k: Seq<char>| undeclared(s.schema, fields, k) {
        Some(FilterErrorView::UnknownField(choose|k: Seq<char>| first_undeclared(s.schema, fields, k)))
    } else {
        let i = first_mismatch(s.schema, fields, 0);
        if i < s.schema.len() {
            let name = s.schema[i as int].0;
            Some(FilterErrorView::TypeMismatch {
                field: name,
                expected: columns::field_type_name(s.columns[name].ty),
                actual: columns::field_type_name(columns::value_type(fields[name])),
            })
        } else {
            None
        }
    }
}

/// A column after `row` has been written with `fields`.
pub open spec fn column_with_row(c: ColumnView, name: Seq<char>, row: u32, fields: FieldsView) -> ColumnView {
    if fields.contains_key(name) {
        ColumnView { ty: c.ty, cells: c.cells.insert(row, columns::cell_of(fields[name])) }
    } else {
        ColumnView { ty: c.ty, cells: c.cells.remove(row) }
    }
}

/// The store after `row` has been written with `fields`.
pub open spec fn with_row(s: StoreView, row: u32, fields: FieldsView) -> StoreView {
    StoreView {
        columns: Map::new(
            |k: Seq<char>| s.columns.contains_key(k),
            |k: Seq<char>| column_with_row(s.columns[k], k, row, fields),
        ),
        ..s
    }
}

/// The store after `row` has been forgotten.
pub open spec fn without_row(s: StoreView, row: u32) -> StoreView {
    StoreView {
        columns: Map::new(
            |k: Seq<char>| s.columns.contains_key(k),
            |k: Seq<char>| ColumnView { ty: s.columns[k].ty, cells: s.columns[k].cells.remove(row) },
        ),
        ..s
    }
}

impl View for PayloadStore {
    type V = StoreView;

    closed spec fn view(&self) -> StoreView {
        StoreView { schema: self.schema@, strict: self.strict, columns: entry_columns(self.columns@) }
    }
}

impl PayloadStore {
    /// Whether the columns are sound and match the schema.
    pub closed spec fn wf(self) -> bool {
        &&& entries_distinct(self.columns@)
        &&& entries_wf(self.columns@)
        &&& columns_match(self.schema@, entry_columns(self.columns@))
    }

    fn column_position(&self, name: &str) -> (r: Option<usize>)
        requires
            entries_distinct(self.columns@),
        ensures
            r matches Some(i) ==> i < self.columns@.len() && self.columns@[i as int].name@ == name@
                && self@.columns.contains_key(name@) && self@.columns[name@] == self.columns@[i as int].column@,
            r is None ==> !self@.columns.contains_key(name@)
                && forall|j: int| 0 <= j < self.columns@.len() ==> (#[trigger] self.columns@[j]).name@ != name@,
    {
        let mut i: usize = 0;
        while i < self.columns.len()
            invariant
                i <= self.columns@.len(),
                entries_distinct(self.columns@),
                forall|j: int| 0 <= j < i ==> (#[trigger] self.columns@[j]).name@ != name@,
            decreases self.columns.len() - i,
        {
            if same_text(self.columns[i].name.as_str(), name) {
                proof { lemma_entry_column(self.columns@, i as int); }
                return Some(i);
            }
            i += 1;
        }
        None
    }

    /// A store with empty columns.
    pub fn new(schema: PayloadSchema, strict: bool) -> (r: Self)
        ensures
            r.wf(),
            r@ == (StoreView { schema: schema@, strict, columns: fresh_columns(schema@) }),
    {
        let mut columns: Vec<ColumnEntry> = Vec::new();
        assert(entry_columns(columns@) =~= Map::<Seq<char>, ColumnView>::empty());
        let declared = schema.iter();
        let mut r = PayloadStore { schema, columns, strict };
        let mut i: usize = 0;
        assert(schema@.take(0) =~= Seq::<(Seq<char>, FieldType)>::empty());
        while i < declared.len()
            invariant
                i <= declared@.len(),
                r.schema == schema,
                r.strict == strict,
                schema_of(declared@) == schema@,
                entries_distinct(r.columns@),
                entries_wf(r.columns@),
                entry_columns(r.columns@) == fresh_columns(schema@.take(i as int)),
            decreases declared.len() - i,
        {
            let entry = ColumnEntry { name: declared[i].0.clone(), column: Column::new(declared[i].1) };
            proof {
                let t = schema@.take(i + 1);
                assert(t.drop_last() =~= schema@.take(i as int));
                assert(t.last() == schema@[i as int]);
                assert(schema@[i as int] == schema_of(declared@)[i as int]);
            }
            match r.column_position(declared[i].0.as_str()) {
                Some(at) => {
                    proof { lemma_entry_update(r.columns@, at as int, entry); }
                    r.columns.set(at, entry);
                },
                None => {
                    proof { lemma_entry_push(r.columns@, entry); }
                    r.columns.push(entry);
                },
            }
            i += 1;
        }
        proof {
            assert(schema@.take(i as int) =~= schema@);
            lemma_fresh_columns_match(schema@);
        }
        r
    }

    /// The declared fields.
    pub fn schema(&self) -> (r: &PayloadSchema)
        ensures
            r@ == self@.schema,
    {
        &self.schema
    }

    /// Says whether undeclared fields are refused from now on.
    pub fn set_strict(&mut self, strict: bool)
        requires
            old(self).wf(),
        ensures
            final(self).wf(),
            final(self)@ == (StoreView { strict, ..old(self)@ }),
    {
        self.strict = strict;
    }

    /// Checks a row's fields against the schema without changing anything.
    pub fn validate_row(&self, fields: &PayloadRow) -> (r: FilterResult<()>)
        requires
            self.wf(),
        ensures
            r is Ok <==> row_refusal(self@, fields@) is None,
            r matches Err(e) ==> row_refusal(self@, fields@) == Some(e@),
    {
        if self.strict {
            let mut least: Option<usize> = None;
            let mut i: usize = 0;
            while i < fields.len()
                invariant
                    i <= fields.entry_count(),
                    least matches Some(l) ==> l < fields.entry_count() && undeclared(self@.schema, fields@, fields.entry_key(l as int)),
                    forall|j: int| 0 <= j < i && undeclared(self@.schema, fields@, #[trigger] fields.entry_key(j)) ==> least is Some
                        && (fields.entry_key(j) == fields.entry_key(least->0 as int)
                            || text::text_before(fields.entry_key(least->0 as int), fields.entry_key(j))),
                decreases fields.entry_count() - i,
            {
                let key = fields.key_at(i);
                if !self.schema.contains(key.as_str()) {
                    let better = match least {
                        None => true,
                        Some(l) => is_before(key.as_str(), fields.key_at(l).as_str()),
                    };
                    if better {
                        proof {
                            if least is Some {
                                let old_key = fields.entry_key(least->0 as int);
                                let new_key = fields.entry_key(i as int);
                                assert forall|j: int| 0 <= j < i && undeclared(self@.schema, fields@, #[trigger] fields.entry_key(j)) implies
                                    text::text_before(new_key, fields.entry_key(j)) by {
                                    if fields.entry_key(j) != old_key {
                                        text::text_order_transitive(new_key, old_key, fields.entry_key(j));
                                    }
                                }
                            }
                        }
                        least = Some(i);
                    } else {
                        proof {
                            text::text_order_total(fields.entry_key(i as int), fields.entry_key(least->0 as int));
                        }
                    }
                }
                i += 1;
            }
            proof { fields.entries_cover(); }
            match least {
                Some(l) => {
                    let key = fields.key_at(l);
                    proof {
                        let k = key@;
                        assert forall|q: Seq<char>| #[trigger] undeclared(self@.schema, fields@, q) && q != k implies text::text_before(k, q) by {
                            let j = choose|j: int| 0 <= j < fields.entry_count() && #[trigger] fields.entry_key(j) == q;
                            assert(undeclared(self@.schema, fields@, fields.entry_key(j)));
                        }
                        assert(first_undeclared(self@.schema, fields@, k));
                        lemma_first_undeclared_unique(self@.schema, fields@, k, choose|c: Seq<char>| first_undeclared(self@.schema, fields@, c));
                    }
                    return Err(FilterError::UnknownField(key.clone()));
                },
                None => {
                    proof {
                        assert forall|q: Seq<char>| !#[trigger] undeclared(self@.schema, fields@, q) by {
                            if undeclared(self@.schema, fields@, q) {
                                let j = choose|j: int| 0 <= j < fields.entry_count() && #[trigger] fields.entry_key(j) == q;
                                assert(undeclared(self@.schema, fields@, fields.entry_key(j)));
                            }
                        }
                    }
                },
            }
        }
        let mut i: usize = 0;
        while i < self.schema.fields.len()
            invariant
                i <= self.schema.fields@.len(),
                self.wf(),
                self@.schema == schema_of(self.schema.fields@),
                !(self.strict && exists|k: Seq<char>| undeclared(self@.schema, fields@, k)),
                forall|j: int| 0 <= j < i ==> !#[trigger] mismatched(self@.schema, fields@, j),
            decreases self.schema.fields.len() - i,
        {
            let ghost decl = self@.schema[i as int];
            match fields.get(self.schema.fields[i].0.as_str()) {
                Some(value) => {
                    if !self.schema.fields[i].1.matches(value) {
                        proof {
                            assert(mismatched(self@.schema, fields@, i as int));
                            lemma_first_mismatch(self@.schema, fields@, 0, i as int);
                            assert(self@.columns.contains_key(decl.0));
                        }
                        let name = self.schema.fields[i].0.clone();
                        let expected = match self.column_position(name.as_str()) {
                            Some(at) => self.columns[at].column.field_type().name(),
                            None => "",
                        };
                        return Err(FilterError::TypeMismatch { field: name, expected, actual: value_type_name(value) });
                    }
                },
                None => {},
            }
            assert(!mismatched(self@.schema, fields@, i as int));
            i += 1;
        }
        proof { lemma_first_mismatch(self@.schema, fields@, 0, self@.schema.len() as int); }
        Ok(())
    }

    /// Writes a row's fields into the columns. Refused fields change nothing.
    pub fn set_row(&mut self, row_id: RowId, fields: &PayloadRow) -> (r: FilterResult<()>)
        requires
            old(self).wf(),
            row_id.0 <= u32::MAX,
        ensures
            final(self).wf(),
            r is Ok <==> row_refusal(old(self)@, fields@) is None,
            r is Ok ==> final(self)@ == with_row(old(self)@, row_id.0 as u32, fields@),
            r matches Err(e) ==> row_refusal(old(self)@, fields@) == Some(e@) && final(self)@ == old(self)@,
    {
        match self.validate_row(fields) {
            Ok(_) => {},
            Err(e) => { return Err(e); },
        }
        let row = row_id.to_bitmap_index();
        let ghost start = self.columns@;
        let ghost before = self@;
        let mut i: usize = 0;
        while i < self.columns.len()
            invariant
                i <= self.columns@.len(),
                self.columns@.len() == start.len(),
                self.schema == old(self).schema,
                self.strict == old(self).strict,
                start == old(self).columns@,
                before == old(self)@,
                entries_distinct(start),
                entries_wf(start),
                columns_match(before.schema, before.columns),
                row_refusal(before, fields@) is None,
                entries_wf(self.columns@),
                forall|j: int| 0 <= j < start.len() ==> (#[trigger] self.columns@[j]).name@ == start[j].name@,
                forall|j: int| 0 <= j < i ==> (#[trigger] self.columns@[j]).column@ == column_with_row(start[j].column@, start[j].name@, row, fields@),
                forall|j: int| i <= j < start.len() ==> (#[trigger] self.columns@[j]).column@ == start[j].column@,
            decreases self.columns@.len() - i,
        {
            let ghost name = start[i as int].name@;
            proof {
                lemma_entry_column(start, i as int);
                if fields@.contains_key(name) {
                    lemma_accepted_type(before, fields@, name);
                }
            }
            let ghost prev = self.columns@;
            match fields.get(self.columns[i].name.as_str()) {
                Some(value) => { self.columns[i].column.set(row, value); },
                None => { self.columns[i].column.clear(row); },
            }
            assert(forall|j: int| 0 <= j < start.len() && j != i ==> #[trigger] self.columns@[j] == prev[j]);
            i += 1;
        }
        proof {
            assert forall|a: int, b: int| 0 <= a < b < self.columns@.len() implies (#[trigger] self.columns@[a]).name@ != (#[trigger] self.columns@[b]).name@ by {
                assert(start[a].name@ != start[b].name@);
            }
            let now = entry_columns(self.columns@);
            let want = with_row(before, row, fields@).columns;
            assert forall|k: Seq<char>| now.contains_key(k) == want.contains_key(k) by {
                if now.contains_key(k) {
                    let j = choose|j: int| 0 <= j < self.columns@.len() && (#[trigger] self.columns@[j]).name@ == k;
                    assert(start[j].name@ == k);
                }
                if want.contains_key(k) {
                    let j = choose|j: int| 0 <= j < start.len() && (#[trigger] start[j]).name@ == k;
                    assert(self.columns@[j].name@ == k);
                }
            }
            assert forall|k: Seq<char>| now.contains_key(k) implies now[k] == want[k] by {
                let j = choose|j: int| 0 <= j < self.columns@.len() && (#[trigger] self.columns@[j]).name@ == k;
                lemma_entry_column(self.columns@, j);
                lemma_entry_column(start, j);
            }
            assert(now =~= want);
            assert(columns_match(self.schema@, now)) by {
                assert forall|k: Seq<char>| #[trigger] now.contains_key(k) implies exists|i: int|
                    0 <= i < self.schema@.len() && #[trigger] self.schema@[i] == (k, now[k].ty) by {
                    assert(before.columns.contains_key(k));
                }
            }
        }
        Ok(())
    }

    /// Forgets a row in every column.
    pub fn clear_row(&mut self, row_id: RowId)
        requires
            old(self).wf(),
            row_id.0 <= u32::MAX,
        ensures
            final(self).wf(),
            final(self)@ == without_row(old(self)@, row_id.0 as u32),
    {
        let row = row_id.to_bitmap_index();
        let ghost start = self.columns@;
        let ghost before = self@;
        let mut i: usize = 0;
        while i < self.columns.len()
            invariant
                i <= self.columns@.len(),
                self.columns@.len() == start.len(),
                self.schema == old(self).schema,
                self.strict == old(self).strict,
                start == old(self).columns@,
                before == old(self)@,
                entries_distinct(start),
                entries_wf(start),
                columns_match(before.schema, before.columns),
                entries_wf(self.columns@),
                forall|j: int| 0 <= j < start.len() ==> (#[trigger] self.columns@[j]).name@ == start[j].name@,
                forall|j: int| 0 <= j < i ==> (#[trigger] self.columns@[j]).column@ == (ColumnView {
                    ty: start[j].column@.ty,
                    cells: start[j].column@.cells.remove(row),
                }),
                forall|j: int| i <= j < start.len() ==> (#[trigger] self.columns@[j]).column@ == start[j].column@,
            decreases self.columns@.len() - i,
        {
            let ghost prev = self.columns@;
            self.columns[i].column.clear(row);
            assert(forall|j: int| 0 <= j < start.len() && j != i ==> #[trigger] self.columns@[j] == prev[j]);
            i += 1;
        }
        proof {
            assert forall|a: int, b: int| 0 <= a < b < self.columns@.len() implies (#[trigger] self.columns@[a]).name@ != (#[trigger] self.columns@[b]).name@ by {
                assert(start[a].name@ != start[b].name@);
            }
            let now = entry_columns(self.columns@);
            let want = without_row(before, row).columns;
            assert forall|k: Seq<char>| now.contains_key(k) == want.contains_key(k) by {
                if now.contains_key(k) {
                    let j = choose|j: int| 0 <= j < self.columns@.len() && (#[trigger] self.columns@[j]).name@ == k;
                    assert(start[j].name@ == k);
                }
                if want.contains_key(k) {
                    let j = choose|j: int| 0 <= j < start.len() && (#[trigger] start[j]).name@ == k;
                    assert(self.columns@[j].name@ == k);
                }
            }
            assert forall|k: Seq<char>| now.contains_key(k) implies now[k] == want[k] by {
                let j = choose|j: int| 0 <= j < self.columns@.len() && (#[trigger] self.columns@[j]).name@ == k;
                lemma_entry_column(self.columns@, j);
                lemma_entry_column(start, j);
            }
            assert(now =~= want);
            assert(columns_match(self.schema@, now)) by {
                assert forall|k: Seq<char>| #[trigger] now.contains_key(k) implies exists|i: int|
                    0 <= i < self.schema@.len() && #[trigger] self.schema@[i] == (k, now[k].ty) by {
                    assert(before.columns.contains_key(k));
                }
            }
        }
    }

    /// Declares a field more. Rows written before have no value for it.
    pub fn add_field(&mut self, name: String, ty: FieldType) -> (r: FilterResult<()>)
        requires
            old(self).wf(),
        ensures
            final(self).wf(),
            r is Ok <==> !declares(old(self)@.schema, name@),
            r is Ok ==> final(self)@ == (StoreView {
                schema: old(self)@.schema.push((name@, ty)),
                columns: old(self)@.columns.insert(name@, ColumnView { ty, cells: Map::empty() }),
                ..old(self)@
            }),
            r matches Err(e) ==> e@ == FilterErrorView::FieldAlreadyExists(name@) && final(self)@ == old(self)@,
    {
        if self.schema.contains(name.as_str()) {
            return Err(FilterError::FieldAlreadyExists(name));
        }
        let entry = ColumnEntry { name: name.clone(), column: Column::new(ty) };
        proof {
            assert forall|i: int| 0 <= i < self.columns@.len() implies (#[trigger] self.columns@[i]).name@ != entry.name@ by {
                lemma_entry_column(self.columns@, i);
                if self.columns@[i].name@ == name@ {
                    let c = entry_columns(self.columns@);
                    assert(c.contains_key(name@));
                    let j = choose|j: int| 0 <= j < self.schema@.len() && #[trigger] self.schema@[j] == (name@, c[name@].ty);
                    assert(self.schema@[j].0 == name@);
                }
            }
            lemma_entry_push(self.columns@, entry);
        }
        self.columns.push(entry);
        self.schema.fields.push((name, ty));
        proof {
            assert(self.schema@ =~= old(self).schema@.push((name@, ty)));
            let was = entry_columns(old(self).columns@);
            let now = entry_columns(self.columns@);
            assert forall|k: Seq<char>| #[trigger] now.contains_key(k) implies exists|i: int|
                0 <= i < self.schema@.len() && #[trigger] self.schema@[i] == (k, now[k].ty) by {
                if k == name@ {
                    assert(self.schema@[self.schema@.len() - 1] == (k, now[k].ty));
                } else {
                    assert(was.contains_key(k));
                    let i = choose|i: int| 0 <= i < old(self).schema@.len() && #[trigger] old(self).schema@[i] == (k, was[k].ty);
                    assert(self.schema@[i] == old(self).schema@[i]);
                }
            }
            assert forall|i: int| 0 <= i < self.schema@.len() implies now.contains_key((#[trigger] self.schema@[i]).0) by {
                if i < old(self).schema@.len() {
                    assert(was.contains_key(old(self).schema@[i].0));
                }
            }
        }
        Ok(())
    }

    /// Drops a declared field with its column.
    pub fn drop_field(&mut self, name: &str) -> (r: FilterResult<()>)
        requires
            old(self).wf(),
        ensures
            final(self).wf(),
            r is Ok <==> declares(old(self)@.schema, name@),
            r is Ok ==> final(self)@ == (StoreView {
                schema: schema_without(old(self)@.schema, name@),
                columns: old(self)@.columns.remove(name@),
                ..old(self)@
            }),
            r matches Err(e) ==> e@ == FilterErrorView::UnknownField(name@) && final(self)@ == old(self)@,
    {
        if !self.schema.contains(name) {
            return Err(FilterError::UnknownField(name.to_owned()));
        }
        let ghost declared = self.schema@;
        let mut kept: Vec<(String, FieldType)> = Vec::new();
        let mut i: usize = 0;
        assert(declared.take(0) =~= Seq::<(Seq<char>, FieldType)>::empty());
        assert(schema_of(kept@) =~= Seq::<(Seq<char>, FieldType)>::empty());
        while i < self.schema.fields.len()
            invariant
                i <= self.schema.fields@.len(),
                declared == schema_of(self.schema.fields@),
                schema_of(kept@) == schema_without(declared.take(i as int), name@),
            decreases self.schema.fields.len() - i,
        {
            let ghost t = declared.take(i + 1);
            let ghost was = kept@;
            assert(t.drop_last() =~= declared.take(i as int));
            assert(t.last() == declared[i as int]);
            if !same_text(self.schema.fields[i].0.as_str(), name) {
                kept.push((self.schema.fields[i].0.clone(), self.schema.fields[i].1));
                assert(schema_of(kept@) =~= schema_of(was).push(declared[i as int]));
            }
            i += 1;
        }
        assert(declared.take(i as int) =~= declared);
        match self.column_position(name) {
            Some(at) => {
                proof { lemma_entry_remove(self.columns@, at as int); }
                self.columns.remove(at);
            },
            None => {
                proof {
                    let j = choose|j: int| 0 <= j < declared.len() && (#[trigger] declared[j]).0 == name@;
                    assert(entry_columns(self.columns@).contains_key(declared[j].0));
                }
            },
        }
        self.schema.fields = kept;
        proof {
            lemma_schema_without(declared, name@);
            let was = entry_columns(old(self).columns@);
            let now = entry_columns(self.columns@);
            let s = self.schema@;
            assert forall|k: Seq<char>| #[trigger] now.contains_key(k) implies exists|i: int| 0 <= i < s.len() && #[trigger] s[i] == (k, now[k].ty) by {
                assert(was.contains_key(k));
                let i = choose|i: int| 0 <= i < declared.len() && #[trigger] declared[i] == (k, was[k].ty);
                assert(s.contains(declared[i]));
            }
            assert forall|i: int| 0 <= i < s.len() implies now.contains_key((#[trigger] s[i]).0) by {
                assert(s.contains(s[i]));
                let j = choose|j: int| 0 <= j < declared.len() && #[trigger] declared[j] == s[i];
                assert(was.contains_key(declared[j].0));
            }
        }
        Ok(())
    }
}

/// The declarations of other names than `name`, in order.
pub open spec fn schema_without(s: SchemaView, name: Seq<char>) -> SchemaView
    decreases s.len(),
{
    if s.len() == 0 {
        s
    } else if s.last().0 == name {
        schema_without(s.drop_last(), name)
    } else {
        schema_without(s.drop_last(), name).push(s.last())
    }
}

proof fn lemma_schema_without(s: SchemaView, name: Seq<char>)
    ensures
        forall|e: (Seq<char>, FieldType)| #[trigger] schema_without(s, name).contains(e) <==> e.0 != name
            && exists|j: int| 0 <= j < s.len() && #[trigger] s[j] == e,
    decreases s.len(),
{
    if s.len() > 0 {
        let d = s.drop_last();
        lemma_schema_without(d, name);
        let w = schema_without(s, name);
        let wd = schema_without(d, name);
        assert forall|e: (Seq<char>, FieldType)| #[trigger] w.contains(e) <==> e.0 != name
            && exists|j: int| 0 <= j < s.len() && #[trigger] s[j] == e by {
            if w.contains(e) {
                let i = choose|i: int| 0 <= i < w.len() && w[i] == e;
                if s.last().0 != name && i == wd.len() {
                    assert(s[s.len() - 1] == e);
                } else {
                    assert(wd[i] == e);
                    assert(wd.contains(e));
                    let j = choose|j: int| 0 <= j < d.len() && #[trigger] d[j] == e;
                    assert(s[j] == e);
                }
            }
            if e.0 != name && exists|j: int| 0 <= j < s.len() && #[trigger] s[j] == e {
                let j = choose|j: int| 0 <= j < s.len() && #[trigger] s[j] == e;
                if j < d.len() {
                    assert(d[j] == e);
                    assert(wd.contains(e));
                    let i = choose|i: int| 0 <= i < wd.len() && wd[i] == e;
                    assert(w[i] == e);
                } else {
                    assert(w[wd.len() as int] == e);
                }
            }
        }
    }
}

/// A value that validation accepted has its column's type.
pub proof fn lemma_accepted_type(s: StoreView, fields: FieldsView, name: Seq<char>)
    requires
        columns_match(s.schema, s.columns),
        row_refusal(s, fields) is None,
        s.columns.contains_key(name),
        fields.contains_key(name),
    ensures
        columns::value_type(fields[name]) == s.columns[name].ty,
{
    let i = choose|i: int| 0 <= i < s.schema.len() && #[trigger] s.schema[i] == (name, s.columns[name].ty);
    lemma_no_mismatch(s.schema, fields, 0, i);
}

proof fn lemma_no_mismatch(s: SchemaView, fields: FieldsView, from: nat, i: int)
    requires
        first_mismatch(s, fields, from) >= s.len(),
        from <= i < s.len(),
    ensures
        !mismatched(s, fields, i),
    decreases i - from,
{
    if from < i {
        lemma_no_mismatch(s, fields, from + 1, i);
    }
}

/// The outcome of compiling a filter: the rows it selects, or why it cannot be.
pub type MaskView = Result<Set<u32>, FilterErrorView>;

/// The rows whose value for `field` equals `value`.
pub open spec fn eq_rows(s: StoreView, field: Seq<char>, value: Scalar) -> MaskView {
    if !s.columns.contains_key(field) {
        Err(FilterErrorView::UnknownField(field))
    } else if !columns::comparable(s.columns[field].ty, value) {
        Err(FilterErrorView::TypeMismatch {
            field,
            expected: columns::field_type_name(s.columns[field].ty),
            actual: columns::scalar_name(value),
        })
    } else {
        Ok(Set::new(|row: u32| s.columns[field].cells.contains_key(row) && columns::cell_equals(s.columns[field].cells[row], value)))
    }
}

/// The rows whose value for `field` equals one of the first `n` of `values`.
pub open spec fn in_rows(s: StoreView, field: Seq<char>, values: Seq<Scalar>, n: nat) -> MaskView
    decreases n,
{
    if !s.columns.contains_key(field) {
        Err(FilterErrorView::UnknownField(field))
    } else if n == 0 {
        Ok(Set::empty())
    } else {
        match in_rows(s, field, values, (n - 1) as nat) {
            Err(e) => Err(e),
            Ok(a) => match eq_rows(s, field, values[n - 1]) {
                Err(e) => Err(e),
                Ok(b) => Ok(a.union(b)),
            },
        }
    }
}

/// The rows whose value for `field` lies within the bounds.
pub open spec fn range_rows(
    s: StoreView,
    field: Seq<char>,
    gte: Option<Scalar>,
    lte: Option<Scalar>,
    gt: Option<Scalar>,
    lt: Option<Scalar>,
) -> MaskView {
    if !s.columns.contains_key(field) {
        Err(FilterErrorView::UnknownField(field))
    } else if !columns::rangeable(s.columns[field].ty) {
        Err(FilterErrorView::TypeMismatch {
            field,
            expected: columns::field_type_name(s.columns[field].ty),
            actual: "range bound (i64/f64/datetime)"@,
        })
    } else {
        Ok(Set::new(|row: u32| s.columns[field].cells.contains_key(row)
            && columns::cell_in_range(s.columns[field].cells[row], gte, lte, gt, lt)))
    }
}

/// The rows that have a value for `field`.
pub open spec fn exists_rows(s: StoreView, field: Seq<char>) -> MaskView {
    if s.columns.contains_key(field) {
        Ok(s.columns[field].cells.dom())
    } else {
        Err(FilterErrorView::UnknownField(field))
    }
}

/// The rows of `universe` that a filter selects. The first sub-filter that
/// cannot be compiled decides the error.
pub open spec fn compiled(s: StoreView, f: Filter, universe: Set<u32>) -> MaskView
    decreases f, 0nat,
{
    match f {
        Filter::And(fs) => compiled_and(s, fs@, fs@.len(), universe),
        Filter::Or(fs) => compiled_or(s, fs@, fs@.len(), universe),
        Filter::Not(g) => match compiled(s, *g, universe) {
            Ok(a) => Ok(universe.difference(a)),
            Err(e) => Err(e),
        },
        Filter::Eq { field, value } => eq_rows(s, field@, value),
        Filter::In { field, values } => in_rows(s, field@, values@, values@.len()),
        Filter::Range { field, gte, lte, gt, lt } => range_rows(s, field@, gte, lte, gt, lt),
        Filter::Exists { field } => exists_rows(s, field@),
        Filter::DocIn { doc_keys } => Err(FilterErrorView::TextMatchUnsupported),
        Filter::TextMatch { field, terms } => Err(FilterErrorView::TextMatchUnsupported),
    }
}

/// The rows of `universe` that all of the first `n` filters select.
pub open spec fn compiled_and(s: StoreView, fs: Seq<Filter>, n: nat, universe: Set<u32>) -> MaskView
    decreases fs, n,
{
    if n == 0 || n > fs.len() {
        Ok(universe)
    } else {
        match compiled_and(s, fs, (n - 1) as nat, universe) {
            Err(e) => Err(e),
            Ok(a) => match compiled(s, fs[n - 1], universe) {
                Err(e) => Err(e),
                Ok(b) => Ok(a.intersect(b)),
            },
        }
    }
}

/// The rows that any of the first `n` filters selects.
pub open spec fn compiled_or(s: StoreView, fs: Seq<Filter>, n: nat, universe: Set<u32>) -> MaskView
    decreases fs, n,
{
    if n == 0 || n > fs.len() {
        Ok(Set::empty())
    } else {
        match compiled_or(s, fs, (n - 1) as nat, universe) {
            Err(e) => Err(e),
            Ok(a) => match compiled(s, fs[n - 1], universe) {
                Err(e) => Err(e),
                Ok(b) => Ok(a.union(b)),
            },
        }
    }
}

/// Whether a filter names documents anywhere.
pub open spec fn mentions_documents(f: Filter) -> bool
    decreases f,
{
    match f {
        Filter::And(fs) => exists|i: int| 0 <= i < fs@.len() && mentions_documents(#[trigger] fs@[i]),
        Filter::Or(fs) => exists|i: int| 0 <= i < fs@.len() && mentions_documents(#[trigger] fs@[i]),
        Filter::Not(g) => mentions_documents(*g),
        Filter::DocIn { doc_keys } => true,
        _ => false,
    }
}

/// Whether a compiled mask is what was expected of it.
pub open spec fn mask_is(r: FilterResult<RoaringBitmap>, want: MaskView) -> bool {
    match r {
        Ok(b) => want == Ok::<Set<u32>, FilterErrorView>(bitmap::rows_of(b)),
        Err(e) => want == Err::<Set<u32>, FilterErrorView>(e@),
    }
}

impl PayloadStore {
    fn eq_mask(&self, field: &str, value: &Scalar) -> (r: FilterResult<RoaringBitmap>)
        requires
            self.wf(),
        ensures
            mask_is(r, eq_rows(self@, field@, *value)),
    {
        match self.column_position(field) {
            None => Err(FilterError::UnknownField(field.to_owned())),
            Some(i) => {
                match self.columns[i].column.rows_equal_to(value) {
                    Some(b) => {
                        assert(bitmap::rows_of(b) =~= eq_rows(self@, field@, *value)->Ok_0);
                        Ok(b)
                    },
                    None => Err(FilterError::TypeMismatch {
                        field: field.to_owned(),
                        expected: self.columns[i].column.field_type().name(),
                        actual: scalar_type_name(value),
                    }),
                }
            },
        }
    }

    fn in_mask(&self, field: &str, values: &Vec<Scalar>) -> (r: FilterResult<RoaringBitmap>)
        requires
            self.wf(),
        ensures
            mask_is(r, in_rows(self@, field@, values@, values@.len())),
    {
        if self.column_position(field).is_none() {
            return Err(FilterError::UnknownField(field.to_owned()));
        }
        let mut acc = bitmap_new();
        let mut i: usize = 0;
        while i < values.len()
            invariant
                self.wf(),
                i <= values@.len(),
                in_rows(self@, field@, values@, i as nat) == Ok::<Set<u32>, FilterErrorView>(bitmap::rows_of(acc)),
            decreases values@.len() - i,
        {
            match self.eq_mask(field, &values[i]) {
                Ok(b) => { bitmap_union(&mut acc, &b); },
                Err(e) => {
                    proof { lemma_in_error(self@, field@, values@, (i + 1) as nat, values@.len()); }
                    return Err(e);
                },
            }
            i += 1;
        }
        Ok(acc)
    }

    fn range_mask(&self, field: &str, gte: &Option<Scalar>, lte: &Option<Scalar>, gt: &Option<Scalar>, lt: &Option<Scalar>) -> (r: FilterResult<RoaringBitmap>)
        requires
            self.wf(),
        ensures
            mask_is(r, range_rows(self@, field@, *gte, *lte, *gt, *lt)),
    {
        match self.column_position(field) {
            None => Err(FilterError::UnknownField(field.to_owned())),
            Some(i) => {
                match self.columns[i].column.rows_within(gte, lte, gt, lt) {
                    Some(b) => {
                        assert(bitmap::rows_of(b) =~= range_rows(self@, field@, *gte, *lte, *gt, *lt)->Ok_0);
                        Ok(b)
                    },
                    None => Err(FilterError::TypeMismatch {
                        field: field.to_owned(),
                        expected: self.columns[i].column.field_type().name(),
                        actual: "range bound (i64/f64/datetime)",
                    }),
                }
            },
        }
    }

    fn exists_mask(&self, field: &str) -> (r: FilterResult<RoaringBitmap>)
        requires
            self.wf(),
        ensures
            mask_is(r, exists_rows(self@, field@)),
    {
        match self.column_position(field) {
            None => Err(FilterError::UnknownField(field.to_owned())),
            Some(i) => Ok(self.columns[i].column.presence()),
        }
    }

    fn compile_and(&self, fs: &Vec<Filter>, universe: &RoaringBitmap) -> (r: FilterResult<RoaringBitmap>)
        requires
            self.wf(),
            forall|i: int| 0 <= i < fs@.len() ==> !mentions_documents(#[trigger] fs@[i]),
        ensures
            mask_is(r, compiled_and(self@, fs@, fs@.len(), bitmap::rows_of(*universe))),
        decreases fs, 0nat,
    {
        let mut acc = bitmap_clone(universe);
        let mut i: usize = 0;
        while i < fs.len()
            invariant
                self.wf(),
                i <= fs@.len(),
                forall|i: int| 0 <= i < fs@.len() ==> !mentions_documents(#[trigger] fs@[i]),
                compiled_and(self@, fs@, i as nat, bitmap::rows_of(*universe)) == Ok::<Set<u32>, FilterErrorView>(bitmap::rows_of(acc)),
            decreases fs@.len() - i,
        {
            assert(decreases_to!(fs => fs@[i as int]));
            match self.compile(&fs[i], universe) {
                Ok(b) => { bitmap_intersect(&mut acc, &b); },
                Err(e) => {
                    proof { lemma_and_error(self@, fs@, (i + 1) as nat, fs@.len(), bitmap::rows_of(*universe)); }
                    return Err(e);
                },
            }
            i += 1;
        }
        Ok(acc)
    }

    fn compile_or(&self, fs: &Vec<Filter>, universe: &RoaringBitmap) -> (r: FilterResult<RoaringBitmap>)
        requires
            self.wf(),
            forall|i: int| 0 <= i < fs@.len() ==> !mentions_documents(#[trigger] fs@[i]),
        ensures
            mask_is(r, compiled_or(self@, fs@, fs@.len(), bitmap::rows_of(*universe))),
        decreases fs, 0nat,
    {
        let mut acc = bitmap_new();
        let mut i: usize = 0;
        while i < fs.len()
            invariant
                self.wf(),
                i <= fs@.len(),
                forall|i: int| 0 <= i < fs@.len() ==> !mentions_documents(#[trigger] fs@[i]),
                compiled_or(self@, fs@, i as nat, bitmap::rows_of(*universe)) == Ok::<Set<u32>, FilterErrorView>(bitmap::rows_of(acc)),
            decreases fs@.len() - i,
        {
            assert(decreases_to!(fs => fs@[i as int]));
            match self.compile(&fs[i], universe) {
                Ok(b) => { bitmap_union(&mut acc, &b); },
                Err(e) => {
                    proof { lemma_or_error(self@, fs@, (i + 1) as nat, fs@.len(), bitmap::rows_of(*universe)); }
                    return Err(e);
                },
            }
            i += 1;
        }
        Ok(acc)
    }

    /// Compiles a filter against the columns, over the rows in `universe`.
    /// Document filters need the document registry and are not for this
    /// function.
    pub fn compile(&self, filter: &Filter, universe: &RoaringBitmap) -> (r: FilterResult<RoaringBitmap>)
        requires
            self.wf(),
            !mentions_documents(*filter),
        ensures
            mask_is(r, compiled(self@, *filter, bitmap::rows_of(*universe))),
        decreases filter, 1nat,
    {
        match filter {
            Filter::And(fs) => self.compile_and(fs, universe),
            Filter::Or(fs) => self.compile_or(fs, universe),
            Filter::Not(g) => {
                match self.compile(g, universe) {
                    Ok(b) => {
                        let mut acc = bitmap_clone(universe);
                        bitmap_subtract(&mut acc, &b);
                        Ok(acc)
                    },
                    Err(e) => Err(e),
                }
            },
            Filter::Eq { field, value } => self.eq_mask(field.as_str(), value),
            Filter::In { field, values } => self.in_mask(field.as_str(), values),
            Filter::Range { field, gte, lte, gt, lt } => self.range_mask(field.as_str(), gte, lte, gt, lt),
            Filter::Exists { field } => self.exists_mask(field.as_str()),
            Filter::DocIn { .. } => Err(FilterError::TextMatchUnsupported),
            Filter::TextMatch { .. } => Err(FilterError::TextMatchUnsupported),
        }
    }
}

proof fn lemma_in_error(s: StoreView, field: Seq<char>, values: Seq<Scalar>, k: nat, n: nat)
    requires
        k <= n,
        in_rows(s, field, values, k) is Err,
    ensures
        in_rows(s, field, values, n) == in_rows(s, field, values, k),
    decreases n - k,
{
    if k < n {
        lemma_in_error(s, field, values, k, (n - 1) as nat);
    }
}

proof fn lemma_and_error(s: StoreView, fs: Seq<Filter>, k: nat, n: nat, universe: Set<u32>)
    requires
        k <= n <= fs.len(),
        compiled_and(s, fs, k, universe) is Err,
    ensures
        compiled_and(s, fs, n, universe) == compiled_and(s, fs, k, universe),
    decreases n - k,
{
    if k < n {
        lemma_and_error(s, fs, k, (n - 1) as nat, universe);
    }
}

proof fn lemma_or_error(s: StoreView, fs: Seq<Filter>, k: nat, n: nat, universe: Set<u32>)
    requires
        k <= n <= fs.len(),
        compiled_or(s, fs, k, universe) is Err,
    ensures
        compiled_or(s, fs, n, universe) == compiled_or(s, fs, k, universe),
    decreases n - k,
{
    if k < n {
        lemma_or_error(s, fs, k, (n - 1) as nat, universe);
    }
}

/// Whether a row with these fields satisfies a filter, judged field by field
/// without any index.
pub open spec fn satisfies(f: Filter, fields: FieldsView) -> bool
    decreases f,
{
    match f {
        Filter::And(fs) => forall|i: int| 0 <= i < fs@.len() ==> satisfies(#[trigger] fs@[i], fields),
        Filter::Or(fs) => exists|i: int| 0 <= i < fs@.len() && satisfies(#[trigger] fs@[i], fields),
        Filter::Not(g) => !satisfies(*g, fields),
        Filter::Eq { field, value } => fields.contains_key(field@)
            && columns::cell_equals(columns::cell_of(fields[field@]), value),
        Filter::In { field, values } => fields.contains_key(field@) && exists|i: int|
            0 <= i < values@.len() && columns::cell_equals(columns::cell_of(fields[field@]), #[trigger] values@[i]),
        Filter::Range { field, gte, lte, gt, lt } => fields.contains_key(field@)
            && columns::cell_in_range(columns::cell_of(fields[field@]), gte, lte, gt, lt),
        Filter::Exists { field } => fields.contains_key(field@),
        Filter::DocIn { doc_keys } => false,
        Filter::TextMatch { field, terms } => false,
    }
}

/// Whether the columns hold for `row` exactly what `fields` say.
pub open spec fn indexes_row(s: StoreView, row: u32, fields: FieldsView) -> bool {
    forall|k: Seq<char>| #[trigger] s.columns.contains_key(k) ==> {
        &&& s.columns[k].cells.contains_key(row) == fields.contains_key(k)
        &&& fields.contains_key(k) ==> s.columns[k].cells[row] == columns::cell_of(fields[k])
    }
}

/// Writing a row makes the columns hold its fields and leaves every other row
/// as it was.
pub proof fn writing_indexes_the_row(s: StoreView, row: u32, fields: FieldsView, other: u32, others: FieldsView)
    ensures
        indexes_row(with_row(s, row, fields), row, fields),
        other != row && indexes_row(s, other, others) ==> indexes_row(with_row(s, row, fields), other, others),
        other != row && indexes_row(s, other, others) ==> indexes_row(without_row(s, row), other, others),
        indexes_row(without_row(s, row), row, Map::empty()),
{
    let w = with_row(s, row, fields);
    let v = without_row(s, row);
    assert forall|k: Seq<char>| #[trigger] w.columns.contains_key(k) implies s.columns.contains_key(k) by {}
    assert forall|k: Seq<char>| #[trigger] v.columns.contains_key(k) implies s.columns.contains_key(k) by {}
}

/// Clearing a row twice is clearing it once, and clearing one that holds
/// nothing changes nothing.
pub proof fn clearing_is_idempotent(s: StoreView, row: u32)
    ensures
        without_row(without_row(s, row), row) == without_row(s, row),
        indexes_row(s, row, Map::empty()) ==> without_row(s, row) == s,
{
    let once = without_row(s, row);
    let twice = without_row(once, row);
    assert forall|k: Seq<char>| #[trigger] twice.columns.contains_key(k) implies twice.columns[k] == once.columns[k] by {
        assert(twice.columns[k].cells =~= once.columns[k].cells);
    }
    assert(twice.columns =~= once.columns);
    if indexes_row(s, row, Map::empty()) {
        assert forall|k: Seq<char>| #[trigger] s.columns.contains_key(k) implies once.columns[k] == s.columns[k] by {
            assert(once.columns[k].cells =~= s.columns[k].cells);
        }
        assert(once.columns =~= s.columns);
    }
}

/// A compiled filter selects a row of the universe exactly when the row's own
/// fields satisfy the filter: the indexes never disagree with a scan.
pub proof fn compiled_filter_matches_linear_scan(s: StoreView, f: Filter, universe: Set<u32>, row: u32, fields: FieldsView)
    requires
        universe.contains(row),
        indexes_row(s, row, fields),
        compiled(s, f, universe) is Ok,
    ensures
        compiled(s, f, universe)->Ok_0.contains(row) <==> satisfies(f, fields),
    decreases f,
{
    match f {
        Filter::And(fs) => {
            assert forall|i: int| 0 <= i < fs@.len() implies compiled(s, #[trigger] fs@[i], universe) is Ok
                && (compiled(s, fs@[i], universe)->Ok_0.contains(row) <==> satisfies(fs@[i], fields)) by {
                lemma_and_parts(s, fs@, fs@.len(), universe, i);
                assert(decreases_to!(f => fs@[i]));
                compiled_filter_matches_linear_scan(s, fs@[i], universe, row, fields);
            }
            lemma_and_member(s, fs@, fs@.len(), universe, row, fields);
        },
        Filter::Or(fs) => {
            assert forall|i: int| 0 <= i < fs@.len() implies compiled(s, #[trigger] fs@[i], universe) is Ok
                && (compiled(s, fs@[i], universe)->Ok_0.contains(row) <==> satisfies(fs@[i], fields)) by {
                lemma_or_parts(s, fs@, fs@.len(), universe, i);
                assert(decreases_to!(f => fs@[i]));
                compiled_filter_matches_linear_scan(s, fs@[i], universe, row, fields);
            }
            lemma_or_member(s, fs@, fs@.len(), universe, row, fields);
        },
        Filter::Not(g) => {
            compiled_filter_matches_linear_scan(s, *g, universe, row, fields);
        },
        Filter::Eq { field, value } => {},
        Filter::In { field, values } => {
            lemma_in_member(s, field@, values@, values@.len(), row, fields);
        },
        Filter::Range { field, gte, lte, gt, lt } => {},
        Filter::Exists { field } => {},
        Filter::DocIn { doc_keys } => {},
        Filter::TextMatch { field, terms } => {},
    }
}

proof fn lemma_and_parts(s: StoreView, fs: Seq<Filter>, n: nat, universe: Set<u32>, i: int)
    requires
        0 <= i < n <= fs.len(),
        compiled_and(s, fs, n, universe) is Ok,
    ensures
        compiled(s, fs[i], universe) is Ok,
        compiled_and(s, fs, (n - 1) as nat, universe) is Ok,
    decreases n,
{
    if i < n - 1 {
        lemma_and_parts(s, fs, (n - 1) as nat, universe, i);
    }
}

proof fn lemma_or_parts(s: StoreView, fs: Seq<Filter>, n: nat, universe: Set<u32>, i: int)
    requires
        0 <= i < n <= fs.len(),
        compiled_or(s, fs, n, universe) is Ok,
    ensures
        compiled(s, fs[i], universe) is Ok,
        compiled_or(s, fs, (n - 1) as nat, universe) is Ok,
    decreases n,
{
    if i < n - 1 {
        lemma_or_parts(s, fs, (n - 1) as nat, universe, i);
    }
}

proof fn lemma_and_member(s: StoreView, fs: Seq<Filter>, n: nat, universe: Set<u32>, row: u32, fields: FieldsView)
    requires
        n <= fs.len(),
        universe.contains(row),
        compiled_and(s, fs, n, universe) is Ok,
        forall|i: int| 0 <= i < n ==> compiled(s, #[trigger] fs[i], universe) is Ok
            && (compiled(s, fs[i], universe)->Ok_0.contains(row) <==> satisfies(fs[i], fields)),
    ensures
        compiled_and(s, fs, n, universe)->Ok_0.contains(row) <==> forall|i: int| 0 <= i < n ==> satisfies(#[trigger] fs[i], fields),
    decreases n,
{
    if n > 0 {
        lemma_and_parts(s, fs, n, universe, n - 1);
        lemma_and_member(s, fs, (n - 1) as nat, universe, row, fields);
        assert(compiled(s, fs[n - 1], universe) is Ok);
    }
}

proof fn lemma_or_member(s: StoreView, fs: Seq<Filter>, n: nat, universe: Set<u32>, row: u32, fields: FieldsView)
    requires
        n <= fs.len(),
        compiled_or(s, fs, n, universe) is Ok,
        forall|i: int| 0 <= i < n ==> compiled(s, #[trigger] fs[i], universe) is Ok
            && (compiled(s, fs[i], universe)->Ok_0.contains(row) <==> satisfies(fs[i], fields)),
    ensures
        compiled_or(s, fs, n, universe)->Ok_0.contains(row) <==> exists|i: int| 0 <= i < n && satisfies(#[trigger] fs[i], fields),
    decreases n,
{
    if n > 0 {
        lemma_or_parts(s, fs, n, universe, n - 1);
        lemma_or_member(s, fs, (n - 1) as nat, universe, row, fields);
        assert(compiled(s, fs[n - 1], universe) is Ok);
        if satisfies(fs[n - 1], fields) {
            assert(exists|i: int| 0 <= i < n && satisfies(#[trigger] fs[i], fields));
        }
        if exists|i: int| 0 <= i < n && satisfies(#[trigger] fs[i], fields) {
            let i = choose|i: int| 0 <= i < n && satisfies(#[trigger] fs[i], fields);
            if i < n - 1 {
                assert(satisfies(fs[i], fields));
            }
        }
    }
}

proof fn lemma_in_member(s: StoreView, field: Seq<char>, values: Seq<Scalar>, n: nat, row: u32, fields: FieldsView)
    requires
        n <= values.len(),
        indexes_row(s, row, fields),
        in_rows(s, field, values, n) is Ok,
    ensures
        in_rows(s, field, values, n)->Ok_0.contains(row) <==> fields.contains_key(field) && exists|i: int|
            0 <= i < n && columns::cell_equals(columns::cell_of(fields[field]), #[trigger] values[i]),
    decreases n,
{
    if n > 0 {
        lemma_in_member(s, field, values, (n - 1) as nat, row, fields);
        assert(eq_rows(s, field, values[n - 1]) is Ok);
        if fields.contains_key(field) && exists|i: int| 0 <= i < n && columns::cell_equals(columns::cell_of(fields[field]), #[trigger] values[i]) {
            let i = choose|i: int| 0 <= i < n && columns::cell_equals(columns::cell_of(fields[field]), #[trigger] values[i]);
            if i < n - 1 {
                assert(columns::cell_equals(columns::cell_of(fields[field]), values[i]));
            }
        }
    }
}

} // verus!
