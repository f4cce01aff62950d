//! What a store keeps of its collections, and how operations come out, said of
//! the names, the entries and the results.

use crate::api;
use crate::api::{RegistryView, SchemaChange, StorageView};
use crate::bitmap;
use crate::collection;
use crate::collection::{CollectionView, PutView};
use crate::document;
use crate::draft::ChangeView;
use crate::error::StorageErrorView;
use crate::error::StorageResult;
use crate::filter::Filter;
use crate::flat;
use crate::hit::{IndexError, IndexResult};
use crate::ids::{DocId, RowId};
use crate::log_guarantees;
use crate::model::RequestCtx;
use crate::payload::FilterMask;
use crate::probe_guarantees;
use crate::select;
use crate::shortlist;
use crate::shortlist::Shortlist;
use crate::state;
use crate::state::{Row, StateView};
use crate::text;
use vstd::prelude::*;

verus! {

/// A name leads to the one collection that has it.
pub proof fn a_name_leads_to_its_collection(s: StorageView, name: Seq<char>, i: int)
    requires
        api::names_distinct(s),
        0 <= i < s.collections.len(),
        s.collections[i].name == name,
    ensures
        api::is_open(s, name),
        api::position(s, name) == i,
        api::named(s, name) == s.collections[i],
{
    let at = api::position(s, name);
    assert(0 <= at < s.collections.len() && s.collections[at].name == name);
    if at < i {
        assert(s.collections[at].name != s.collections[i].name);
    } else if i < at {
        assert(s.collections[i].name != s.collections[at].name);
    }
}

/// What is done to one collection is done to no other, and leaves the registry
/// as it is.
pub proof fn other_collections_stay_as_they_are(s: StorageView, name: Seq<char>, c: CollectionView, other: Seq<char>)
    requires
        api::names_distinct(s),
        api::is_open(s, name),
        c.name == name,
        other != name,
    ensures
        ({
            let t = api::with_collection(s, name, c);
            &&& api::names_distinct(t)
            &&& api::is_open(t, name)
            &&& api::named(t, name) == c
            &&& api::is_open(t, other) <==> api::is_open(s, other)
            &&& api::is_open(s, other) ==> api::named(t, other) == api::named(s, other)
            &&& t.registry == s.registry
            &&& t.durable == s.durable
        }),
{
    let i = choose|i: int| 0 <= i < s.collections.len() && (#[trigger] s.collections[i]).name == name;
    a_name_leads_to_its_collection(s, name, i);
    let t = api::with_collection(s, name, c);
    assert forall|a: int, b: int| 0 <= a < b < t.collections.len() implies (#[trigger] t.collections[a]).name != (#[trigger] t.collections[b]).name by {
        assert(s.collections[a].name != s.collections[b].name);
    }
    assert(t.collections[i] == c);
    a_name_leads_to_its_collection(t, name, i);
    if api::is_open(s, other) {
        let j = choose|j: int| 0 <= j < s.collections.len() && (#[trigger] s.collections[j]).name == other;
        a_name_leads_to_its_collection(s, other, j);
        assert(t.collections[j] == s.collections[j]);
        a_name_leads_to_its_collection(t, other, j);
    }
    if api::is_open(t, other) {
        let j = choose|j: int| 0 <= j < t.collections.len() && (#[trigger] t.collections[j]).name == other;
        assert(s.collections[j].name == other);
    }
}

/// Whether no two entries have the same name.
pub open spec fn one_for_each_name(es: Seq<RegistryView>) -> bool {
    forall|i: int, j: int| 0 <= i < j < es.len() ==> (#[trigger] es[i]).name != (#[trigger] es[j]).name
}

proof fn lemma_entry_at(es: Seq<RegistryView>, name: Seq<char>, from: nat)
    requires
        from <= es.len(),
    ensures
        from <= api::entry_at(es, name, from) <= es.len(),
        forall|j: int| from <= j < api::entry_at(es, name, from) ==> (#[trigger] es[j]).name != name,
        api::entry_at(es, name, from) < es.len() ==> es[api::entry_at(es, name, from) as int].name == name,
    decreases es.len() - from,
{
    if from < es.len() && es[from as int].name != name {
        lemma_entry_at(es, name, from + 1);
    }
}

/// Registering replaces the entry of that name, in its place, or adds one at
/// the end; the entries of other names stay.
pub proof fn registering_keeps_one_entry_for_a_name(es: Seq<RegistryView>, e: RegistryView)
    requires
        one_for_each_name(es),
    ensures
        ({
            let now = api::with_entry(es, e);
            &&& one_for_each_name(now)
            &&& now.contains(e)
            &&& forall|x: RegistryView| x.name != e.name ==> (#[trigger] now.contains(x) <==> es.contains(x))
            &&& forall|x: RegistryView| #[trigger] now.contains(x) && x.name == e.name ==> x == e
            &&& (exists|i: int| 0 <= i < es.len() && (#[trigger] es[i]).name == e.name) ==> now.len() == es.len()
            &&& (forall|i: int| 0 <= i < es.len() ==> (#[trigger] es[i]).name != e.name) ==> now == es.push(e)
            &&& forall|i: int| 0 <= i < es.len() && (#[trigger] es[i]).name != e.name ==> now[i] == es[i]
        }),
{
    lemma_entry_at(es, e.name, 0);
    let at = api::entry_at(es, e.name, 0) as int;
    let now = api::with_entry(es, e);
    if at < es.len() {
        assert(now[at] == e);
        assert forall|i: int, j: int| 0 <= i < j < now.len() implies (#[trigger] now[i]).name != (#[trigger] now[j]).name by {
            assert(es[i].name != es[j].name);
        }
    } else {
        assert(now[es.len() as int] == e);
    }
    assert forall|x: RegistryView| x.name != e.name implies (#[trigger] now.contains(x) <==> es.contains(x)) by {
        if now.contains(x) {
            let i = choose|i: int| 0 <= i < now.len() && now[i] == x;
            assert(es[i] == x);
        }
        if es.contains(x) {
            let i = choose|i: int| 0 <= i < es.len() && es[i] == x;
            assert(now[i] == x);
        }
    }
    assert forall|x: RegistryView| #[trigger] now.contains(x) && x.name == e.name implies x == e by {
        let i = choose|i: int| 0 <= i < now.len() && now[i] == x;
        if at < es.len() {
            if i < at {
                assert(now[i].name != now[at].name);
            } else if at < i {
                assert(now[at].name != now[i].name);
            }
        }
    }
}

/// Whether entry `i` is the last of its name among the first `n`.
pub open spec fn is_last_of(entries: Seq<RegistryView>, n: nat, i: int) -> bool {
    0 <= i < n && forall|j: int| i < j < n ==> (#[trigger] entries[j]).name != entries[i].name
}

/// A store that is opened knows each collection as its last entry says.
pub proof fn the_last_entry_of_a_name_counts(entries: Seq<RegistryView>, n: nat)
    requires
        n <= entries.len(),
    ensures
        one_for_each_name(api::registry_of(entries, n)),
        forall|x: RegistryView| #[trigger] api::registry_of(entries, n).contains(x) <==> exists|i: int| #[trigger] is_last_of(entries, n, i) && entries[i] == x,
    decreases n,
{
    if n > 0 {
        let m = (n - 1) as nat;
        the_last_entry_of_a_name_counts(entries, m);
        let e = entries[m as int];
        registering_keeps_one_entry_for_a_name(api::registry_of(entries, m), e);
        assert forall|x: RegistryView| #[trigger] api::registry_of(entries, n).contains(x) <==> exists|i: int| #[trigger] is_last_of(entries, n, i) && entries[i] == x by {
            lemma_last_of(entries, m, x);
        }
    }
}

proof fn lemma_last_of(entries: Seq<RegistryView>, m: nat, x: RegistryView)
    requires
        m < entries.len(),
        one_for_each_name(api::registry_of(entries, m)),
        api::registry_of(entries, m).contains(x) <==> exists|i: int| #[trigger] is_last_of(entries, m, i) && entries[i] == x,
    ensures
        api::registry_of(entries, m + 1).contains(x) <==> exists|i: int| #[trigger] is_last_of(entries, m + 1, i) && entries[i] == x,
{
    let was = api::registry_of(entries, m);
    let now = api::registry_of(entries, m + 1);
    let e = entries[m as int];
    assert(now == api::with_entry(was, e));
    registering_keeps_one_entry_for_a_name(was, e);
    if now.contains(x) {
        if x.name == e.name {
            assert(is_last_of(entries, m + 1, m as int));
        } else {
            assert(was.contains(x));
            let i = choose|i: int| #[trigger] is_last_of(entries, m, i) && entries[i] == x;
            assert(is_last_of(entries, m + 1, i));
        }
    }
    if exists|i: int| #[trigger] is_last_of(entries, m + 1, i) && entries[i] == x {
        let i = choose|i: int| #[trigger] is_last_of(entries, m + 1, i) && entries[i] == x;
        if i < m {
            assert(entries[m as int].name != x.name);
            assert(is_last_of(entries, m, i));
            assert(was.contains(x));
        }
    }
}

/// A schema change that is accepted is written to the collection's entry,
/// whose dimension and metric stay; the other entries stay, and so do they all
/// where the change is refused or the collection is not registered.
pub proof fn a_schema_change_is_registered(s: StorageView, name: Seq<char>, change: SchemaChange)
    requires
        api::names_distinct(s),
        api::is_open(s, name),
    ensures
        ({
            let t = api::with_schema_altered(s, name, change);
            let schema = api::altered(api::named(s, name).state.payload, change).0.schema;
            let refused = api::altered(api::named(s, name).state.payload, change).1 is Some;
            &&& t.registry.len() == s.registry.len()
            &&& t.durable == s.durable
            &&& forall|i: int| 0 <= i < s.registry.len() ==> (#[trigger] t.registry[i]).name == s.registry[i].name && t.registry[i].dim == s.registry[i].dim
                && t.registry[i].metric == s.registry[i].metric && t.registry[i].schema == (if s.registry[i].name == name && !refused { schema } else {
                s.registry[i].schema
            })
        }),
{
    lemma_entry_at(s.registry, name, 0);
    let at = api::entry_at(s.registry, name, 0) as int;
    if api::is_registered(s, name) {
        let i = choose|i: int| 0 <= i < s.registry.len() && (#[trigger] s.registry[i]).name == name;
        assert(at < s.registry.len());
        lemma_entry_at(s.registry, s.registry[at].name, 0);
    } else if at < s.registry.len() {
        assert(s.registry[at].name == name);
    }
    let t = api::with_schema_altered(s, name, change);
    assert forall|i: int| 0 <= i < s.registry.len() && s.registry[i].name == name implies i == at && api::is_registered(s, name) by {
        assert(s.registry[i].name == name);
        if i < at {
            assert(s.registry[i].name != name);
        } else if at < i {
            assert(s.registry[at].name != s.registry[i].name);
        }
    }
}

/// A put that is refused changes nothing and says why; one that is not gives
/// each item's row id, and one of no items changes nothing.
pub proof fn a_put_comes_out_as_a_refusal_or_a_write(before: CollectionView, after: CollectionView, ctx: RequestCtx, items: Seq<PutView>, r: StorageResult<Vec<RowId>>)
    requires
        collection::put_batch_outcome(before, after, ctx, items, r),
    ensures
        r is Err <==> collection::put_refusal(before, items) is Some,
        r matches Err(e) ==> Some(e@) == collection::put_refusal(before, items) && after == before,
        r matches Ok(ids) ==> ids@.len() == items.len() && forall|i: int| 0 <= i < items.len() ==> (#[trigger] ids@[i]).0 == collection::put_row_id(before.state, items, i),
        items.len() == 0 ==> after == before,
        r is Ok && items.len() > 0 ==> collection::put_took_place(before, after, ctx, items),
{
    if let Ok(ids) = r {
        let want = collection::put_row_ids(before.state, items);
        assert(collection::row_numbers(ids@).len() == want.len());
        assert forall|i: int| 0 <= i < items.len() implies (#[trigger] ids@[i]).0 == collection::put_row_id(before.state, items, i) by {
            assert(collection::row_numbers(ids@)[i] == want[i]);
        }
    }
}

/// A deletion is refused exactly when the key leads nowhere; then it says so
/// and changes nothing.
pub proof fn a_deletion_comes_out_as_a_refusal_or_a_write(before: CollectionView, after: CollectionView, ctx: RequestCtx, key: Seq<char>, r: StorageResult<()>)
    requires
        collection::delete_outcome(before, after, ctx, key, r),
    ensures
        r is Ok <==> before.state.keys.contains_key(key),
        r matches Err(e) ==> e@ == StorageErrorView::KeyNotFound(key) && after == before,
        r is Ok ==> collection::delete_took_place(before, after, ctx, key),
{
}

/// A document operation that is refused says why and changes nothing; one that
/// is not gives the document's id.
pub proof fn a_document_operation_comes_out_as_planned(
    before: CollectionView,
    plan: Result<(u64, Seq<ChangeView>), StorageErrorView>,
    after: CollectionView,
    ctx: RequestCtx,
    r: StorageResult<DocId>,
)
    requires
        document::document_outcome(before, plan, after, ctx, r),
    ensures
        r is Ok <==> plan is Ok,
        r matches Err(e) ==> e@ == plan->Err_0 && after == before,
        r matches Ok(id) ==> id.0 == (plan->Ok_0).0 && document::changes_took_place(before, after, ctx, (plan->Ok_0).1),
{
}

/// A name that no collection has is refused as such, and nothing changes.
pub proof fn an_unknown_name_is_refused<T>(before: StorageView, after: StorageView, coll: Seq<char>, r: StorageResult<T>)
    requires
        api::refused_as_unknown(before, after, coll, r),
    ensures
        r is Err,
        r matches Err(e) ==> e@ == StorageErrorView::CollectionNotFound(coll),
        after == before,
{
}

/// A compiled filter holds exactly the selected rows, and says how many they
/// are.
pub proof fn a_mask_holds_the_selected_rows(s: StateView, f: Filter, r: StorageResult<FilterMask>)
    requires
        select::filter_outcome(s, f, r),
    ensures
        r is Ok <==> select::selected(s, f) is Ok,
        r matches Ok(m) ==> bitmap::rows_of(m.allowed) == select::selected(s, f)->Ok_0 && m.estimated_cardinality == (select::selected(s, f)->Ok_0).len(),
        r matches Err(e) ==> e@ == StorageErrorView::Filter(select::selected(s, f)->Err_0),
{
}

/// Names that ascend are each before the next, so that none comes twice.
pub proof fn listed_names_ascend(names: Seq<Seq<char>>, i: int, j: int)
    requires
        api::names_ascending(names),
        0 <= i < j < names.len(),
    ensures
        names[i] != names[j],
        exists|at: int| log_guarantees::falls_behind(names[i], names[j], at),
{
    assert(text::text_before(names[i], names[j]));
    text::text_order_total(names[i], names[j]);
    log_guarantees::texts_are_ordered_by_their_first_difference(names[i], names[j]);
}

/// A search of another dimension than the index's is refused with both
/// dimensions; one of a collection that is not open, with its name; and an
/// empty shortlist has no rows and is not cut short.
pub proof fn a_search_is_refused_for_its_dimension_or_its_collection<T>(dim: usize, query: Seq<u32>, coll: Seq<char>, r: IndexResult<T>, list: Shortlist)
    ensures
        flat::refused_dim(dim, query, r) ==> r is Err && (r->Err_0 matches IndexError::DimMismatch { expected, got } && expected == dim && got == query.len()),
        flat::refused_coll(coll, r) ==> r is Err && (r->Err_0 matches IndexError::Storage(e) && e@ == StorageErrorView::CollectionNotFound(coll)),
        shortlist::nothing(list) ==> list.rows@.len() == 0 && !list.truncated_by_filter,
{
}

/// The same of a put of one row.
pub proof fn one_put_comes_out_as_a_refusal_or_a_write(before: CollectionView, after: CollectionView, ctx: RequestCtx, item: PutView, r: StorageResult<RowId>)
    requires
        collection::put_outcome(before, after, ctx, item, r),
    ensures
        r is Err <==> collection::put_refusal(before, seq![item]) is Some,
        r matches Err(e) ==> Some(e@) == collection::put_refusal(before, seq![item]) && after == before,
        r matches Ok(id) ==> id.0 == collection::put_row_id(before.state, seq![item], 0) && collection::put_took_place(before, after, ctx, seq![item]),
        r matches Ok(id) ==> before.state.keys.contains_key(item.key) ==> id.0 == before.state.keys[item.key],
        r matches Ok(id) ==> !before.state.keys.contains_key(item.key) ==> id.0 == before.state.next_row,
{
    let items = seq![item];
    assert(collection::earlier(items, items[0].key, 0) is None);
    assert(collection::fresh_before(before.state, items, 0) == 0);
}

/// A schema change touches nothing of a collection but its columns, and is
/// refused for what the columns refuse it for.
pub proof fn a_schema_change_touches_the_columns_alone(c: CollectionView, change: SchemaChange)
    ensures
        ({
            let after = api::altered_collection(c, change);
            &&& after.state.payload == api::altered(c.state.payload, change).0
            &&& after.state.rows == c.state.rows
            &&& after.state.live == c.state.live
            &&& after.state.keys == c.state.keys
            &&& after.state.docs == c.state.docs
            &&& after.state.doc_keys == c.state.doc_keys
            &&& after.state.txns == c.state.txns
            &&& after.state.next_row == c.state.next_row
            &&& after.state.next_doc == c.state.next_doc
            &&& after.state.applied == c.state.applied
            &&& after.outbox == c.outbox
            &&& after.wal == c.wal
            &&& after.name == c.name
            &&& after.dim == c.dim
            &&& after.metric == c.metric
        }),
        match api::altered(c.state.payload, change).1 {
            Some(e) => api::alter_refusal(c, change) == Some(StorageErrorView::Filter(e)),
            None => api::alter_refusal(c, change) is None,
        },
{
}

/// A scan of a whole collection gives every live row once, ascending.
pub proof fn a_whole_scan_gives_every_live_row(s: StateView, rows: Seq<Row>)
    requires
        flat::all_live(s, rows),
    ensures
        rows.len() == s.live.len(),
        forall|i: int| 0 <= i < rows.len() ==> (#[trigger] rows[i]).id.0 <= u32::MAX && s.live.contains(rows[i].id.0 as u32) && state::is_row(
            rows[i],
            rows[i].id.0,
            s.rows[rows[i].id.0],
        ),
        forall|row: u32| #[trigger] s.live.contains(row) ==> exists|i: int| 0 <= i < rows.len() && (#[trigger] rows[i]).id.0 == row,
        forall|i: int, j: int| 0 <= i < j < rows.len() ==> (#[trigger] rows[i]).id.0 < (#[trigger] rows[j]).id.0,
{
    assert(flat::searched(s, None) == s.live);
    bitmap::lemma_listing_len(s.live);
    probe_guarantees::a_flat_search_scores_every_allowed_row(s, None, rows);
}

} // verus!
