//! Selecting a collection's rows by filter.

use crate::bitmap;
use crate::bitmap::{bitmap_clone, bitmap_intersect, bitmap_len, bitmap_new, bitmap_subtract, bitmap_union};
use crate::collection::Collection;
use crate::columns;
use crate::error::{StorageError, StorageErrorView, StorageResult};
use crate::fields::FieldsView;
use crate::filter::{Filter, Scalar};
use crate::payload;
use crate::payload::{FilterErrorView, FilterMask, FilterResult, MaskView};
use crate::state::{CollectionInner, StateView};
use crate::text;
use roaring::RoaringBitmap;
use vstd::prelude::*;

verus! {

/// Whether `row` is a chunk of the registered document `key`.
pub open spec fn chunk_of(s: StateView, key: Seq<char>, row: u32) -> bool {
    s.doc_keys.contains_key(key) && s.docs.contains_key(s.doc_keys[key]) && s.docs[s.doc_keys[key]].rows.contains(row)
}

/// The chunks of the first `n` of the named documents.
pub open spec fn chunks_of(s: StateView, keys: Seq<Seq<char>>, n: nat) -> Set<u32> {
    Set::new(|row: u32| exists|i: int| 0 <= i < n && chunk_of(s, #[trigger] keys[i], row))
}

/// The live rows that a filter selects. The first sub-filter that cannot be
/// compiled decides the error.
pub open spec fn selected(s: StateView, f: Filter) -> MaskView
    decreases f, 0nat,
{
    match f {
        Filter::DocIn { doc_keys } => Ok(chunks_of(s, text::texts(doc_keys@), doc_keys@.len()).intersect(s.live)),
        Filter::And(fs) => selected_and(s, fs@, fs@.len()),
        Filter::Or(fs) => match selected_or(s, fs@, fs@.len()) {
            Ok(a) => Ok(a.intersect(s.live)),
            Err(e) => Err(e),
        },
        Filter::Not(g) => match selected(s, *g) {
            Ok(a) => Ok(s.live.difference(a)),
            Err(e) => Err(e),
        },
        _ => match payload::compiled(s.payload, f, s.live) {
            Ok(a) => Ok(a.intersect(s.live)),
            Err(e) => Err(e),
        },
    }
}

/// The live rows that all of the first `n` filters select.
pub open spec fn selected_and(s: StateView, fs: Seq<Filter>, n: nat) -> MaskView
    decreases fs, n,
{
    if n == 0 || n > fs.len() {
        Ok(s.live)
    } else {
        match selected_and(s, fs, (n - 1) as nat) {
            Err(e) => Err(e),
            Ok(a) => match selected(s, fs[n - 1]) {
                Err(e) => Err(e),
                Ok(b) => Ok(a.intersect(b)),
            },
        }
    }
}

/// The rows that any of the first `n` filters selects.
pub open spec fn selected_or(s: StateView, fs: Seq<Filter>, n: nat) -> MaskView
    decreases fs, n,
{
    if n == 0 || n > fs.len() {
        Ok(Set::empty())
    } else {
        match selected_or(s, fs, (n - 1) as nat) {
            Err(e) => Err(e),
            Ok(a) => match selected(s, fs[n - 1]) {
                Err(e) => Err(e),
                Ok(b) => Ok(a.union(b)),
            },
        }
    }
}

proof fn lemma_and_stops(s: StateView, fs: Seq<Filter>, k: nat, n: nat)
    requires
        k <= n <= fs.len(),
        selected_and(s, fs, k) is Err,
    ensures
        selected_and(s, fs, n) == selected_and(s, fs, k),
    decreases n - k,
{
    if k < n {
        lemma_and_stops(s, fs, k, (n - 1) as nat);
    }
}

proof fn lemma_or_stops(s: StateView, fs: Seq<Filter>, k: nat, n: nat)
    requires
        k <= n <= fs.len(),
        selected_or(s, fs, k) is Err,
    ensures
        selected_or(s, fs, n) == selected_or(s, fs, k),
    decreases n - k,
{
    if k < n {
        lemma_or_stops(s, fs, k, (n - 1) as nat);
    }
}

fn eval_docs(inner: &CollectionInner, doc_keys: &Vec<String>) -> (r: RoaringBitmap)
    ensures
        bitmap::rows_of(r) == chunks_of(inner@, text::texts(doc_keys@), doc_keys@.len()).intersect(inner@.live),
{
    let ghost s = inner@;
    let ghost keys = text::texts(doc_keys@);
    let mut mask = bitmap_new();
    let mut i: usize = 0;
    assert(chunks_of(s, keys, 0) =~= Set::<u32>::empty());
    while i < doc_keys.len()
        invariant
            i <= doc_keys@.len(),
            s == inner@,
            keys == text::texts(doc_keys@),
            bitmap::rows_of(mask) == chunks_of(s, keys, i as nat),
        decreases doc_keys@.len() - i,
    {
        assert(keys[i as int] == doc_keys@[i as int]@);
        let ghost was = bitmap::rows_of(mask);
        match inner.doc_key_to_id.get(doc_keys[i].as_str()) {
            Some(id) => match inner.docs.get(id) {
                Some(entry) => {
                    assert(s.docs[*id] == entry@);
                    bitmap_union(&mut mask, &entry.rows);
                },
                None => {},
            },
            None => {},
        }
        proof {
            let next = chunks_of(s, keys, (i + 1) as nat);
            assert forall|row: u32| next.contains(row) <==> was.contains(row) || chunk_of(s, keys[i as int], row) by {
                if next.contains(row) {
                    let k = choose|k: int| 0 <= k < i + 1 && chunk_of(s, #[trigger] keys[k], row);
                    assert(chunk_of(s, keys[k], row));
                }
                if was.contains(row) {
                    let k = choose|k: int| 0 <= k < i && chunk_of(s, #[trigger] keys[k], row);
                    assert(chunk_of(s, keys[k], row));
                }
            }
            assert(bitmap::rows_of(mask) =~= next);
        }
        i += 1;
    }
    bitmap_intersect(&mut mask, &inner.live);
    mask
}

fn eval_and(inner: &CollectionInner, fs: &Vec<Filter>) -> (r: FilterResult<RoaringBitmap>)
    requires
        inner.wf(),
    ensures
        payload::mask_is(r, selected_and(inner@, fs@, fs@.len())),
    decreases fs, 0nat,
{
    let mut acc = bitmap_clone(&inner.live);
    let mut i: usize = 0;
    while i < fs.len()
        invariant
            inner.wf(),
            i <= fs@.len(),
            selected_and(inner@, fs@, i as nat) == Ok::<Set<u32>, FilterErrorView>(bitmap::rows_of(acc)),
        decreases fs@.len() - i,
    {
        assert(decreases_to!(fs => fs@[i as int]));
        match eval_filter(inner, &fs[i]) {
            Ok(b) => { bitmap_intersect(&mut acc, &b); },
            Err(e) => {
                proof { lemma_and_stops(inner@, fs@, (i + 1) as nat, fs@.len()); }
                return Err(e);
            },
        }
        i += 1;
    }
    Ok(acc)
}

fn eval_or(inner: &CollectionInner, fs: &Vec<Filter>) -> (r: FilterResult<RoaringBitmap>)
    requires
        inner.wf(),
    ensures
        payload::mask_is(r, selected_or(inner@, fs@, fs@.len())),
    decreases fs, 0nat,
{
    let mut acc = bitmap_new();
    let mut i: usize = 0;
    while i < fs.len()
        invariant
            inner.wf(),
            i <= fs@.len(),
            selected_or(inner@, fs@, i as nat) == Ok::<Set<u32>, FilterErrorView>(bitmap::rows_of(acc)),
        decreases fs@.len() - i,
    {
        assert(decreases_to!(fs => fs@[i as int]));
        match eval_filter(inner, &fs[i]) {
            Ok(b) => { bitmap_union(&mut acc, &b); },
            Err(e) => {
                proof { lemma_or_stops(inner@, fs@, (i + 1) as nat, fs@.len()); }
                return Err(e);
            },
        }
        i += 1;
    }
    Ok(acc)
}

fn eval_filter(inner: &CollectionInner, filter: &Filter) -> (r: FilterResult<RoaringBitmap>)
    requires
        inner.wf(),
    ensures
        payload::mask_is(r, selected(inner@, *filter)),
    decreases filter, 1nat,
{
    match filter {
        Filter::DocIn { doc_keys } => Ok(eval_docs(inner, doc_keys)),
        Filter::And(fs) => eval_and(inner, fs),
        Filter::Or(fs) => match eval_or(inner, fs) {
            Ok(b) => {
                let mut acc = b;
                bitmap_intersect(&mut acc, &inner.live);
                Ok(acc)
            },
            Err(e) => Err(e),
        },
        Filter::Not(g) => match eval_filter(inner, g) {
            Ok(b) => {
                let mut acc = bitmap_clone(&inner.live);
                bitmap_subtract(&mut acc, &b);
                Ok(acc)
            },
            Err(e) => Err(e),
        },
        other => match inner.payload.compile(other, &inner.live) {
            Ok(b) => {
                let mut acc = b;
                bitmap_intersect(&mut acc, &inner.live);
                Ok(acc)
            },
            Err(e) => Err(e),
        },
    }
}

impl Collection {
    /// Compiles a filter against the live rows. Document filters are resolved
    /// against the document registry, everything else by the payload store.
    /// Rows that are not live are never selected.
    pub fn compile_filter(&self, filter: &Filter) -> (r: StorageResult<FilterMask>)
        requires
            self.wf(),
        ensures
            filter_outcome(self@.state, *filter, r),
    {
        match eval_filter(&self.inner, filter) {
            Ok(allowed) => {
                let estimated_cardinality = bitmap_len(&allowed);
                Ok(FilterMask { allowed, estimated_cardinality })
            },
            Err(e) => Err(StorageError::Filter(e)),
        }
    }
}

/// How compiling a filter comes out: with the rows it selects and their
/// number, or with why it cannot be compiled.
pub open spec fn filter_outcome(s: StateView, f: Filter, r: StorageResult<FilterMask>) -> bool {
    match r {
        Ok(m) => selected(s, f) == Ok::<Set<u32>, FilterErrorView>(bitmap::rows_of(m.allowed))
            && bitmap::is_count(m.estimated_cardinality, bitmap::rows_of(m.allowed)),
        Err(e) => selected(s, f) is Err && e@ == StorageErrorView::Filter(selected(s, f)->Err_0),
    }
}

/// No filter ever selects a row that is not live.
pub proof fn only_live_rows_are_selected(s: StateView, f: Filter)
    requires
        selected(s, f) is Ok,
    ensures
        selected(s, f)->Ok_0.subset_of(s.live),
{
    match f {
        Filter::And(fs) => {
            lemma_and_within_live(s, fs@, fs@.len());
        },
        _ => {},
    }
}

proof fn lemma_and_within_live(s: StateView, fs: Seq<Filter>, n: nat)
    requires
        selected_and(s, fs, n) is Ok,
    ensures
        selected_and(s, fs, n)->Ok_0.subset_of(s.live),
    decreases n,
{
    if n > 0 && n <= fs.len() {
        lemma_and_within_live(s, fs, (n - 1) as nat);
    }
}

/// Whether a live row satisfies a filter, judged by the row itself: by its
/// fields, and by the documents that list it.
pub open spec fn row_satisfies(s: StateView, f: Filter, row: u32, fields: FieldsView) -> bool
    decreases f,
{
    match f {
        Filter::DocIn { doc_keys } => exists|i: int| 0 <= i < doc_keys@.len() && chunk_of(s, (#[trigger] doc_keys@[i])@, row),
        Filter::And(fs) => forall|i: int| 0 <= i < fs@.len() ==> row_satisfies(s, #[trigger] fs@[i], row, fields),
        Filter::Or(fs) => exists|i: int| 0 <= i < fs@.len() && row_satisfies(s, #[trigger] fs@[i], row, fields),
        Filter::Not(g) => !row_satisfies(s, *g, row, fields),
        _ => payload::satisfies(f, fields),
    }
}

/// Whether a filter suits a store's fields: it has no text match, every field
/// that it names is declared, the values that it compares are of the field's
/// type, and ranges are over types that have them.
pub open spec fn suits_fields(s: payload::StoreView, f: Filter) -> bool
    decreases f,
{
    match f {
        Filter::And(fs) => forall|i: int| 0 <= i < fs@.len() ==> suits_fields(s, #[trigger] fs@[i]),
        Filter::Or(fs) => forall|i: int| 0 <= i < fs@.len() ==> suits_fields(s, #[trigger] fs@[i]),
        Filter::Not(g) => suits_fields(s, *g),
        Filter::Eq { field, value } => s.columns.contains_key(field@) && columns::comparable(s.columns[field@].ty, value),
        Filter::In { field, values } => s.columns.contains_key(field@)
            && forall|i: int| 0 <= i < values@.len() ==> columns::comparable(s.columns[field@].ty, #[trigger] values@[i]),
        Filter::Range { field, .. } => s.columns.contains_key(field@) && columns::rangeable(s.columns[field@].ty),
        Filter::Exists { field } => s.columns.contains_key(field@),
        Filter::DocIn { .. } => true,
        Filter::TextMatch { .. } => false,
    }
}

proof fn lemma_in_suits(s: payload::StoreView, field: Seq<char>, values: Seq<Scalar>, n: nat)
    requires
        n <= values.len(),
        s.columns.contains_key(field),
    ensures
        payload::in_rows(s, field, values, n) is Ok <==> forall|i: int| 0 <= i < n ==> columns::comparable(s.columns[field].ty, #[trigger] values[i]),
    decreases n,
{
    if n > 0 {
        lemma_in_suits(s, field, values, (n - 1) as nat);
        if payload::in_rows(s, field, values, n) is Ok {
            assert(columns::comparable(s.columns[field].ty, values[n - 1]));
        }
    }
}

proof fn lemma_and_suits(s: StateView, fs: Seq<Filter>, n: nat)
    requires
        n <= fs.len(),
    ensures
        selected_and(s, fs, n) is Ok <==> forall|i: int| 0 <= i < n ==> suits_fields(s.payload, #[trigger] fs[i]),
    decreases fs, n,
{
    if n > 0 {
        lemma_and_suits(s, fs, (n - 1) as nat);
        filters_compile_where_they_suit(s, fs[n - 1]);
        if selected_and(s, fs, n) is Ok {
            assert(suits_fields(s.payload, fs[n - 1]));
        }
    }
}

proof fn lemma_or_suits(s: StateView, fs: Seq<Filter>, n: nat)
    requires
        n <= fs.len(),
    ensures
        selected_or(s, fs, n) is Ok <==> forall|i: int| 0 <= i < n ==> suits_fields(s.payload, #[trigger] fs[i]),
    decreases fs, n,
{
    if n > 0 {
        lemma_or_suits(s, fs, (n - 1) as nat);
        filters_compile_where_they_suit(s, fs[n - 1]);
        if selected_or(s, fs, n) is Ok {
            assert(suits_fields(s.payload, fs[n - 1]));
        }
    }
}

/// A filter compiles exactly when it suits the fields that are declared.
pub proof fn filters_compile_where_they_suit(s: StateView, f: Filter)
    ensures
        selected(s, f) is Ok <==> suits_fields(s.payload, f),
    decreases f, 0nat,
{
    match f {
        Filter::And(fs) => lemma_and_suits(s, fs@, fs@.len()),
        Filter::Or(fs) => lemma_or_suits(s, fs@, fs@.len()),
        Filter::Not(g) => filters_compile_where_they_suit(s, *g),
        Filter::In { field, values } => {
            if s.payload.columns.contains_key(field@) {
                lemma_in_suits(s.payload, field@, values@, values@.len());
            }
        },
        _ => {},
    }
}

/// A live row is selected by a filter exactly when the row itself satisfies
/// it, as long as the columns hold the row's fields.
pub proof fn selection_matches_linear_scan(s: StateView, f: Filter, row: u32, fields: FieldsView)
    requires
        s.live.contains(row),
        payload::indexes_row(s.payload, row, fields),
        selected(s, f) is Ok,
    ensures
        selected(s, f)->Ok_0.contains(row) <==> row_satisfies(s, f, row, fields),
    decreases f, 0nat,
{
    match f {
        Filter::DocIn { doc_keys } => {
            let keys = text::texts(doc_keys@);
            if chunks_of(s, keys, doc_keys@.len()).contains(row) {
                let i = choose|i: int| 0 <= i < doc_keys@.len() && chunk_of(s, #[trigger] keys[i], row);
                assert(chunk_of(s, doc_keys@[i]@, row));
            }
            if row_satisfies(s, f, row, fields) {
                let i = choose|i: int| 0 <= i < doc_keys@.len() && chunk_of(s, (#[trigger] doc_keys@[i])@, row);
                assert(chunk_of(s, keys[i], row));
            }
        },
        Filter::And(fs) => {
            lemma_and_scan(s, fs@, fs@.len(), row, fields);
        },
        Filter::Or(fs) => {
            lemma_or_scan(s, fs@, fs@.len(), row, fields);
        },
        Filter::Not(g) => {
            selection_matches_linear_scan(s, *g, row, fields);
        },
        _ => {
            payload::compiled_filter_matches_linear_scan(s.payload, f, s.live, row, fields);
        },
    }
}

proof fn lemma_and_scan(s: StateView, fs: Seq<Filter>, n: nat, row: u32, fields: FieldsView)
    requires
        n <= fs.len(),
        s.live.contains(row),
        payload::indexes_row(s.payload, row, fields),
        selected_and(s, fs, n) is Ok,
    ensures
        selected_and(s, fs, n)->Ok_0.contains(row) <==> forall|i: int| 0 <= i < n ==> row_satisfies(s, #[trigger] fs[i], row, fields),
    decreases fs, n,
{
    if n > 0 {
        lemma_and_scan(s, fs, (n - 1) as nat, row, fields);
        selection_matches_linear_scan(s, fs[n - 1], row, fields);
    }
}

proof fn lemma_or_scan(s: StateView, fs: Seq<Filter>, n: nat, row: u32, fields: FieldsView)
    requires
        n <= fs.len(),
        s.live.contains(row),
        payload::indexes_row(s.payload, row, fields),
        selected_or(s, fs, n) is Ok,
    ensures
        selected_or(s, fs, n)->Ok_0.contains(row) <==> exists|i: int| 0 <= i < n && row_satisfies(s, #[trigger] fs[i], row, fields),
    decreases fs, n,
{
    if n > 0 {
        lemma_or_scan(s, fs, (n - 1) as nat, row, fields);
        selection_matches_linear_scan(s, fs[n - 1], row, fields);
        if exists|i: int| 0 <= i < n - 1 && row_satisfies(s, #[trigger] fs[i], row, fields) {
            let i = choose|i: int| 0 <= i < n - 1 && row_satisfies(s, #[trigger] fs[i], row, fields);
            assert(row_satisfies(s, fs[i], row, fields));
        }
        if row_satisfies(s, fs[n - 1], row, fields) {
            assert(row_satisfies(s, fs[n - 1], row, fields));
        }
    }
}

} // verus!
