//! What holds between the parts of a collection's state: its key map, its
//! rows, its columns and its documents tell the same story, whatever is
//! written through the collection.

use crate::api;
use crate::api::SchemaChange;
use crate::collection;
use crate::columns;
use crate::payload;
use crate::recovery;
use crate::select;
use crate::filter::Filter;
use crate::state;
use crate::state::StateView;
use crate::wal::{RecordView, WalOp};
use vstd::prelude::*;

verus! {

/// Every key leads to a live row that has this key.
pub open spec fn keys_in_step(s: StateView) -> bool {
    forall|k: Seq<char>| #[trigger] s.keys.contains_key(k) ==> s.rows.contains_key(s.keys[k]) && s.rows[s.keys[k]].key == k
        && s.live.contains(s.keys[k] as u32)
}

/// A document lists live rows only, each of them a chunk of its own.
pub open spec fn docs_in_step(s: StateView) -> bool {
    forall|d: u64, row: u32| s.docs.contains_key(d) && #[trigger] s.docs[d].rows.contains(row) ==> s.live.contains(row)
        && s.rows[row as u64].doc_id == Some(d)
}

/// Every document key leads to a document that has this key.
pub open spec fn doc_keys_in_step(s: StateView) -> bool {
    forall|k: Seq<char>| #[trigger] s.doc_keys.contains_key(k) ==> s.docs.contains_key(s.doc_keys[k]) && s.docs[s.doc_keys[k]].doc_key == k
}

/// Every document's id is below the next one.
pub open spec fn docs_numbered(s: StateView) -> bool {
    forall|d: u64| #[trigger] s.docs.contains_key(d) ==> d < s.next_doc
}

/// Every document counts the rows that it lists.
pub open spec fn docs_counted(s: StateView) -> bool {
    forall|d: u64| #[trigger] s.docs.contains_key(d) ==> s.docs[d].chunk_count == s.docs[d].rows.len() as u32
}

/// Every live row is the one that its key leads to.
pub open spec fn rows_keyed(s: StateView) -> bool {
    forall|row: u32| #[trigger] s.live.contains(row) ==> s.keys.contains_key(s.rows[row as u64].key) && s.keys[s.rows[row as u64].key] == row
}

/// Every document is the one that its key leads to.
pub open spec fn docs_keyed(s: StateView) -> bool {
    forall|d: u64| #[trigger] s.docs.contains_key(d) ==> s.doc_keys.contains_key(s.docs[d].doc_key) && s.doc_keys[s.docs[d].doc_key] == d
}

/// The columns hold the fields of the live rows, and nothing else.
pub open spec fn indexed(s: StateView) -> bool {
    forall|k: Seq<char>, row: u32| #[trigger] cell_in_step(s, k, row)
}

/// Column `k` holds what row `row` has for it, if the row is live.
pub open spec fn cell_in_step(s: StateView, k: Seq<char>, row: u32) -> bool {
    s.payload.columns.contains_key(k) ==> {
        let cells = s.payload.columns[k].cells;
        let fields = s.rows[row as u64].fields;
        &&& cells.contains_key(row) <==> s.live.contains(row) && fields.contains_key(k)
        &&& cells.contains_key(row) ==> cells[row] == columns::cell_of(fields[k])
    }
}

/// Whether keys, rows and documents lead to each other as they should.
pub open spec fn linked(s: StateView) -> bool {
    &&& keys_in_step(s)
    &&& docs_in_step(s)
    &&& doc_keys_in_step(s)
    &&& docs_numbered(s)
    &&& docs_counted(s)
}

/// Whether the parts of a state tell the same story. Columns join in here
/// only: a column that is added later knows nothing of the rows before it.
pub open spec fn in_step(s: StateView) -> bool {
    linked(s) && indexed(s)
}

/// Whether a record fits what the state has: a row keeps its key for good,
/// and its document while it is live; a document keeps its key.
pub open spec fn suits(s: StateView, r: RecordView) -> bool {
    match r.op {
        WalOp::Delete => r.row_id matches Some(id) ==> s.live.contains(id as u32) ==> r.doc_id == s.rows[id].doc_id,
        WalOp::Insert => write_suits(s, r),
        WalOp::Update => write_suits(s, r),
        _ => true,
    }
}

/// Whether a record that writes fits what the state has.
pub open spec fn write_suits(s: StateView, r: RecordView) -> bool {
    &&& r.row_id is Some && s.rows.contains_key(r.row_id->0) ==> {
        &&& r.key == Some(s.rows[r.row_id->0].key)
        &&& s.live.contains(r.row_id->0 as u32) ==> r.doc_id == s.rows[r.row_id->0].doc_id
    }
    &&& r.doc_id is Some && r.params is Some && s.docs.contains_key(r.doc_id->0) ==> r.doc_key == Some(s.docs[r.doc_id->0].doc_key)
}

proof fn lemma_write_in_step(s: StateView, r: RecordView)
    requires
        collection::sound(s),
        linked(s),
        recovery::ids_fit(r),
        write_suits(s, r),
        recovery::upserted(s, r).1 is None,
    ensures
        linked(recovery::upserted(s, r).0),
        indexed(s) ==> indexed(recovery::upserted(s, r).0),
{
    let t = recovery::upserted(s, r).0;
    let id = r.row_id->0;
    let row = id as u32;
    let key = r.key->0;
    assert(t.rows == s.rows.insert(id, t.rows[id]));
    assert(t.rows[id].key == key);
    assert(t.rows[id].doc_id == r.doc_id);
    assert(t.live == s.live.insert(row));
    assert(t.keys == s.keys.insert(key, id));
    assert forall|k: Seq<char>| #[trigger] t.keys.contains_key(k) implies t.rows.contains_key(t.keys[k]) && t.rows[t.keys[k]].key == k
        && t.live.contains(t.keys[k] as u32) by {
        if k != key {
            assert(s.keys.contains_key(k));
        }
    }
    assert forall|d: u64, x: u32| t.docs.contains_key(d) && #[trigger] t.docs[d].rows.contains(x) implies t.live.contains(x)
        && t.rows[x as u64].doc_id == Some(d) by {
        if s.docs.contains_key(d) && s.docs[d].rows.contains(x) {
            assert(s.live.contains(x));
        }
    }
    assert forall|k: Seq<char>| #[trigger] t.doc_keys.contains_key(k) implies t.docs.contains_key(t.doc_keys[k])
        && t.docs[t.doc_keys[k]].doc_key == k by {
        if s.doc_keys.contains_key(k) {
            assert(s.docs.contains_key(s.doc_keys[k]));
        }
    }
    assert forall|d: u64| #[trigger] t.docs.contains_key(d) implies d < t.next_doc by {
        if s.docs.contains_key(d) {
            assert(d < s.next_doc);
        }
    }
    assert forall|d: u64| #[trigger] t.docs.contains_key(d) implies t.docs[d].chunk_count == t.docs[d].rows.len() as u32 by {
        if s.docs.contains_key(d) {
            assert(s.docs[d].chunk_count == s.docs[d].rows.len() as u32);
        }
    }
    if indexed(s) {
        assert forall|k: Seq<char>, x: u32| #[trigger] cell_in_step(t, k, x) by {
            assert(cell_in_step(s, k, x));
            if s.live.contains(x) {
                assert(s.rows.contains_key(x as u64));
            }
        }
    }
}

proof fn lemma_delete_in_step(s: StateView, r: RecordView)
    requires
        collection::sound(s),
        linked(s),
        recovery::ids_fit(r),
        suits(s, r),
        r.op == WalOp::Delete,
    ensures
        linked(recovery::deleted(s, r).0),
        indexed(s) ==> indexed(recovery::deleted(s, r).0),
{
    let t = recovery::deleted(s, r).0;
    if r.row_id is Some {
        let id = r.row_id->0;
        let row = id as u32;
        assert forall|k: Seq<char>| #[trigger] t.keys.contains_key(k) implies t.rows.contains_key(t.keys[k]) && t.rows[t.keys[k]].key == k
            && t.live.contains(t.keys[k] as u32) by {
            assert(s.keys.contains_key(k));
            let other = s.keys[k];
            assert(s.rows.contains_key(other));
            assert(other < s.next_row);
            if other as u32 == row {
                assert(other == id);
            }
        }
        assert forall|d: u64, x: u32| t.docs.contains_key(d) && #[trigger] t.docs[d].rows.contains(x) implies t.live.contains(x)
            && t.rows[x as u64].doc_id == Some(d) by {
            assert(s.docs[d].rows.contains(x));
        }
        assert forall|k: Seq<char>| #[trigger] t.doc_keys.contains_key(k) implies t.docs.contains_key(t.doc_keys[k])
            && t.docs[t.doc_keys[k]].doc_key == k by {
            assert(s.doc_keys.contains_key(k));
        }
        assert forall|d: u64| #[trigger] t.docs.contains_key(d) implies t.docs[d].chunk_count == t.docs[d].rows.len() as u32 by {
            assert(s.docs[d].chunk_count == s.docs[d].rows.len() as u32);
        }
        if indexed(s) {
            assert forall|k: Seq<char>, x: u32| #[trigger] cell_in_step(t, k, x) by {
                assert(cell_in_step(s, k, x));
            }
        }
    }
}

/// A record that fits the state keeps it in step: what leads to each other
/// goes on to, and the columns follow if they were right.
pub proof fn one_record_keeps_in_step(s: StateView, r: RecordView)
    requires
        collection::sound(s),
        linked(s),
        recovery::ids_fit(r),
        suits(s, r),
        recovery::applied_one(s, r).1 is None,
    ensures
        linked(recovery::applied_one(s, r).0),
        indexed(s) ==> indexed(recovery::applied_one(s, r).0),
{
    match r.op {
        WalOp::Delete => lemma_delete_in_step(s, r),
        WalOp::Insert => lemma_write_in_step(s, r),
        WalOp::Update => lemma_write_in_step(s, r),
        _ => {},
    }
}

/// Being in step does not depend on the log position.
pub proof fn position_is_beside_the_point(s: StateView, t: StateView)
    requires
        same_but_position(s, t),
    ensures
        linked(s) ==> linked(t),
        indexed(s) ==> indexed(t),
        collection::sound(s) ==> collection::sound(t),
{
    if indexed(s) {
        assert forall|k: Seq<char>, x: u32| #[trigger] cell_in_step(t, k, x) by {
            assert(cell_in_step(s, k, x));
        }
    }
}

/// Whether two states differ in their log position at most.
pub open spec fn same_but_position(s: StateView, t: StateView) -> bool {
    t == (StateView { applied: t.applied, ..s })
}

/// Whether each record fits the state that those before it leave.
pub open spec fn all_suit(s: StateView, records: Seq<RecordView>) -> bool {
    forall|n: nat| n < records.len() ==> suits(recovery::applied_records(s, records, n).0, #[trigger] records[n as int])
}

proof fn lemma_prefix_sound(s: StateView, group: Seq<RecordView>, n: nat)
    requires
        collection::sound(s),
        recovery::all_ids_fit(group),
        n <= group.len(),
    ensures
        collection::sound(recovery::applied_records(s, group, n).0),
    decreases n,
{
    if n > 0 {
        lemma_prefix_sound(s, group, (n - 1) as nat);
        assert(recovery::ids_fit(group[n - 1]));
        collection::applying_one_keeps_sound(recovery::applied_records(s, group, (n - 1) as nat).0, group[n - 1]);
    }
}

/// The first records of a transaction keep the state in step, if they fit it.
pub proof fn records_keep_in_step(s: StateView, group: Seq<RecordView>, n: nat)
    requires
        collection::sound(s),
        linked(s),
        recovery::all_ids_fit(group),
        all_suit(s, group),
        n <= group.len(),
        recovery::applied_records(s, group, n).1 is None,
    ensures
        linked(recovery::applied_records(s, group, n).0),
        indexed(s) ==> indexed(recovery::applied_records(s, group, n).0),
    decreases n,
{
    if n > 0 {
        let before = (n - 1) as nat;
        let t = recovery::applied_records(s, group, before).0;
        records_keep_in_step(s, group, before);
        lemma_prefix_sound(s, group, before);
        assert(recovery::ids_fit(group[n - 1]));
        assert(suits(t, group[before as int]));
        one_record_keeps_in_step(t, group[n - 1]);
        let u = recovery::applied_one(t, group[n - 1]).0;
        let v = recovery::applied_records(s, group, n).0;
        position_is_beside_the_point(u, v);
    }
}

/// The end of a transaction keeps the state in step.
pub proof fn ending_keeps_in_step(s: StateView, group: Seq<RecordView>)
    requires
        linked(s),
    ensures
        linked(recovery::with_txn(recovery::without_emptied(s, recovery::touched_docs(group)), group)),
        indexed(s) ==> indexed(recovery::with_txn(recovery::without_emptied(s, recovery::touched_docs(group)), group)),
{
    let touched = recovery::touched_docs(group);
    let t = recovery::with_txn(recovery::without_emptied(s, touched), group);
    assert forall|k: Seq<char>| #[trigger] t.keys.contains_key(k) implies t.rows.contains_key(t.keys[k]) && t.rows[t.keys[k]].key == k
        && t.live.contains(t.keys[k] as u32) by {
        assert(s.keys.contains_key(k));
    }
    assert forall|d: u64, x: u32| t.docs.contains_key(d) && #[trigger] t.docs[d].rows.contains(x) implies t.live.contains(x)
        && t.rows[x as u64].doc_id == Some(d) by {
        assert(s.docs[d].rows.contains(x));
    }
    assert forall|k: Seq<char>| #[trigger] t.doc_keys.contains_key(k) implies t.docs.contains_key(t.doc_keys[k])
        && t.docs[t.doc_keys[k]].doc_key == k by {
        assert(s.doc_keys.contains_key(k));
        let d = s.doc_keys[k];
        if recovery::emptied(s, touched, d) {
            assert(s.docs[d].doc_key == k);
        }
    }
    if indexed(s) {
        assert forall|k: Seq<char>, x: u32| #[trigger] cell_in_step(t, k, x) by {
            assert(cell_in_step(s, k, x));
        }
    }
}

/// A state to which nothing has been written is in step.
pub proof fn fresh_states_are_in_step(schema: payload::SchemaView, strict: bool)
    ensures
        in_step(state::fresh_state(schema, strict)),
        rows_keyed(state::fresh_state(schema, strict)),
        docs_keyed(state::fresh_state(schema, strict)),
{
    let s = state::fresh_state(schema, strict);
    assert forall|k: Seq<char>, x: u32| #[trigger] cell_in_step(s, k, x) by {
        lemma_fresh_cells(schema, k);
    }
}

proof fn lemma_fresh_cells(schema: payload::SchemaView, k: Seq<char>)
    ensures
        payload::fresh_columns(schema).contains_key(k) ==> payload::fresh_columns(schema)[k].cells == Map::<u32, columns::Cell>::empty(),
    decreases schema.len(),
{
    if schema.len() > 0 {
        lemma_fresh_cells(schema.drop_last(), k);
    }
}

/// A transaction whose records fit the state keeps it in step.
pub proof fn transactions_keep_in_step(s: StateView, group: Seq<RecordView>)
    requires
        collection::sound(s),
        linked(s),
        recovery::all_ids_fit(group),
        all_suit(s, group),
        recovery::applied_group(s, group).1 is None,
    ensures
        linked(recovery::applied_group(s, group).0),
        indexed(s) ==> indexed(recovery::applied_group(s, group).0),
{
    records_keep_in_step(s, group, group.len());
    ending_keeps_in_step(recovery::applied_records(s, group, group.len()).0, group);
}

/// Whether a record registers a document under a key.
pub open spec fn registers(r: RecordView) -> bool {
    (r.op == WalOp::Insert || r.op == WalOp::Update) && r.doc_id is Some && r.params is Some && r.doc_key is Some
}

/// Whether a record that registers a document does so under the document's
/// own key: one that leads nowhere yet or to this document, and that the
/// document has if it is there.
pub open spec fn claims_own_key(s: StateView, r: RecordView) -> bool {
    registers(r) ==> {
        &&& s.doc_keys.contains_key(r.doc_key->0) ==> s.doc_keys[r.doc_key->0] == r.doc_id->0
        &&& s.docs.contains_key(r.doc_id->0) ==> s.docs[r.doc_id->0].doc_key == r.doc_key->0
    }
}

/// Whether the records of a transaction register at most one document, under
/// its own key.
pub open spec fn claim_one_key(s: StateView, group: Seq<RecordView>) -> bool {
    &&& forall|i: int| 0 <= i < group.len() ==> claims_own_key(s, #[trigger] group[i])
    &&& forall|i: int, j: int| 0 <= i < group.len() && 0 <= j < group.len() && registers(#[trigger] group[i]) && registers(#[trigger] group[j])
        ==> group[i].doc_id == group[j].doc_id && group[i].doc_key == group[j].doc_key
}

proof fn lemma_claims_prefix(s: StateView, group: Seq<RecordView>, n: nat)
    requires
        docs_keyed(s),
        claim_one_key(s, group),
        n <= group.len(),
        recovery::applied_records(s, group, n).1 is None,
    ensures
        docs_keyed(recovery::applied_records(s, group, n).0),
        forall|i: int| 0 <= i < group.len() ==> claims_own_key(recovery::applied_records(s, group, n).0, #[trigger] group[i]),
    decreases n,
{
    if n > 0 {
        let m = (n - 1) as nat;
        lemma_claims_prefix(s, group, m);
        let t = recovery::applied_records(s, group, m).0;
        let v = recovery::applied_records(s, group, n).0;
        let r = group[m as int];
        assert(claims_own_key(t, r));
        assert forall|d: u64| #[trigger] v.docs.contains_key(d) implies v.doc_keys.contains_key(v.docs[d].doc_key) && v.doc_keys[v.docs[d].doc_key] == d by {
            if t.docs.contains_key(d) {
                assert(t.doc_keys.contains_key(t.docs[d].doc_key));
            }
        }
        assert forall|i: int| 0 <= i < group.len() implies claims_own_key(v, #[trigger] group[i]) by {
            assert(claims_own_key(t, group[i]));
        }
    }
}

/// A transaction that registers no document, or one under its own key, leaves
/// every document the one that its key leads to.
pub proof fn transactions_keep_docs_keyed(s: StateView, group: Seq<RecordView>)
    requires
        docs_keyed(s),
        claim_one_key(s, group),
        recovery::applied_group(s, group).1 is None,
    ensures
        docs_keyed(recovery::applied_group(s, group).0),
{
    lemma_claims_prefix(s, group, group.len());
    let t = recovery::applied_records(s, group, group.len()).0;
    let touched = recovery::touched_docs(group);
    let u = recovery::applied_group(s, group).0;
    assert forall|d: u64| #[trigger] u.docs.contains_key(d) implies u.doc_keys.contains_key(u.docs[d].doc_key) && u.doc_keys[u.docs[d].doc_key] == d by {
        assert(t.docs.contains_key(d));
        let k = t.docs[d].doc_key;
        if exists|e: u64| #[trigger] recovery::emptied(t, touched, e) && t.docs[e].doc_key == k {
            let e = choose|e: u64| #[trigger] recovery::emptied(t, touched, e) && t.docs[e].doc_key == k;
            assert(t.docs.contains_key(e));
        }
    }
}

/// A change of the schema leaves what leads to each other alone. Dropping a
/// field leaves the columns right, and so does adding one that no live row
/// has a value for.
pub proof fn altering_keeps_linked(s: StateView, change: SchemaChange)
    ensures
        ({
            let t = StateView { payload: api::altered(s.payload, change).0, ..s };
            &&& linked(s) ==> linked(t)
            &&& rows_keyed(s) ==> rows_keyed(t)
            &&& docs_keyed(s) ==> docs_keyed(t)
            &&& collection::sound(s) ==> collection::sound(t)
            &&& indexed(s) && (change matches SchemaChange::AddField { name, .. } ==> forall|row: u32| #[trigger] s.live.contains(row)
                ==> !s.rows[row as u64].fields.contains_key(name@)) ==> indexed(t)
        }),
{
    let t = StateView { payload: api::altered(s.payload, change).0, ..s };
    if indexed(s) && (change matches SchemaChange::AddField { name, .. } ==> forall|row: u32| #[trigger] s.live.contains(row)
        ==> !s.rows[row as u64].fields.contains_key(name@)) {
        assert forall|k: Seq<char>, x: u32| #[trigger] cell_in_step(t, k, x) by {
            assert(cell_in_step(s, k, x));
            assert(s.live.contains(x) || !s.live.contains(x));
        }
    }
}

/// A live row is found by its id exactly as it is found by its key.
pub proof fn ids_and_keys_find_the_same_row(s: StateView, id: u64)
    requires
        collection::sound(s),
        rows_keyed(s),
        id <= u32::MAX,
        s.live.contains(id as u32),
    ensures
        collection::row_of_key(s, s.rows[id].key) == Some((id, s.rows[id])),
{
    assert(s.rows.contains_key(id as u32 as u64));
}

/// In a state that is in step, a filter selects exactly the live rows that
/// satisfy it themselves.
pub proof fn filters_match_a_linear_scan(s: StateView, f: Filter, row: u32)
    requires
        in_step(s),
        s.live.contains(row),
        select::selected(s, f) is Ok,
    ensures
        select::selected(s, f)->Ok_0.contains(row) <==> select::row_satisfies(s, f, row, s.rows[row as u64].fields),
{
    let fields = s.rows[row as u64].fields;
    assert forall|k: Seq<char>| #[trigger] s.payload.columns.contains_key(k) implies ({
        &&& s.payload.columns[k].cells.contains_key(row) == fields.contains_key(k)
        &&& fields.contains_key(k) ==> s.payload.columns[k].cells[row] == columns::cell_of(fields[k])
    }) by {
        assert(cell_in_step(s, k, row));
    }
    select::selection_matches_linear_scan(s, f, row, fields);
}

/// In a state that is in step, a filter that suits the declared fields
/// compiles, and what it selects is what a scan of the live rows finds.
pub proof fn a_suitable_filter_is_a_linear_scan(s: StateView, f: Filter)
    requires
        in_step(s),
        select::suits_fields(s.payload, f),
    ensures
        select::selected(s, f) is Ok,
        select::selected(s, f)->Ok_0 == Set::new(|row: u32| s.live.contains(row) && select::row_satisfies(s, f, row, s.rows[row as u64].fields)),
{
    select::filters_compile_where_they_suit(s, f);
    select::only_live_rows_are_selected(s, f);
    let found = select::selected(s, f)->Ok_0;
    let scan = Set::new(|row: u32| s.live.contains(row) && select::row_satisfies(s, f, row, s.rows[row as u64].fields));
    assert forall|row: u32| found.contains(row) <==> scan.contains(row) by {
        if s.live.contains(row) {
            filters_match_a_linear_scan(s, f, row);
        }
    }
    assert(found =~= scan);
}

} // verus!
