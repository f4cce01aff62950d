//! What a collection is after it has been closed, or has crashed, and is
//! opened again.

use crate::api;
use crate::api::SchemaChange;
use crate::collection;
use crate::consistency;
use crate::fields::FieldsView;
use crate::payload;
use crate::recovery;
use crate::snapshot;
use crate::snapshot::SnapshotView;
use crate::state;
use crate::state::StateView;
use crate::wal::{RecordView, WalOp};
use vstd::prelude::*;

verus! {

/// Whether two states agree in everything but the transaction index.
pub open spec fn same_data(a: StateView, b: StateView) -> bool {
    b == (StateView { txns: b.txns, ..a })
}

proof fn lemma_one_same_data(a: StateView, b: StateView, r: RecordView)
    requires
        same_data(a, b),
    ensures
        same_data(recovery::applied_one(a, r).0, recovery::applied_one(b, r).0),
        recovery::applied_one(a, r).1 == recovery::applied_one(b, r).1,
{
}

proof fn lemma_records_same_data(a: StateView, b: StateView, group: Seq<RecordView>, n: nat)
    requires
        same_data(a, b),
        n <= group.len(),
    ensures
        same_data(recovery::applied_records(a, group, n).0, recovery::applied_records(b, group, n).0),
        recovery::applied_records(a, group, n).1 == recovery::applied_records(b, group, n).1,
    decreases n,
{
    if n > 0 {
        let m = (n - 1) as nat;
        lemma_records_same_data(a, b, group, m);
        lemma_one_same_data(recovery::applied_records(a, group, m).0, recovery::applied_records(b, group, m).0, group[n - 1]);
    }
}

proof fn lemma_group_same_data(a: StateView, b: StateView, group: Seq<RecordView>)
    requires
        same_data(a, b),
    ensures
        same_data(recovery::applied_group(a, group).0, recovery::applied_group(b, group).0),
        recovery::applied_group(a, group).1 == recovery::applied_group(b, group).1,
{
    lemma_records_same_data(a, b, group, group.len());
    let x = recovery::applied_records(a, group, group.len()).0;
    let y = recovery::applied_records(b, group, group.len()).0;
    let touched = recovery::touched_docs(group);
    assert forall|d: u64| #[trigger] recovery::emptied(x, touched, d) == recovery::emptied(y, touched, d) by {}
    assert(recovery::without_emptied(x, touched).docs =~= recovery::without_emptied(y, touched).docs);
    let p = recovery::without_emptied(x, touched).doc_keys;
    let q = recovery::without_emptied(y, touched).doc_keys;
    assert(p =~= q) by {
        assert forall|k: Seq<char>| #[trigger] p.dom().contains(k) == q.dom().contains(k) by {
            if exists|d: u64| #[trigger] recovery::emptied(x, touched, d) && x.docs[d].doc_key == k {
                let d = choose|d: u64| #[trigger] recovery::emptied(x, touched, d) && x.docs[d].doc_key == k;
                assert(recovery::emptied(y, touched, d) && y.docs[d].doc_key == k);
            }
            if exists|d: u64| #[trigger] recovery::emptied(y, touched, d) && y.docs[d].doc_key == k {
                let d = choose|d: u64| #[trigger] recovery::emptied(y, touched, d) && y.docs[d].doc_key == k;
                assert(recovery::emptied(x, touched, d) && x.docs[d].doc_key == k);
            }
        }
    }
}

/// What records do to the data does not depend on the transaction index.
pub proof fn data_ignores_the_index(a: StateView, b: StateView, records: Seq<RecordView>, from: nat)
    requires
        same_data(a, b),
    ensures
        same_data(recovery::applied_from(a, records, from).0, recovery::applied_from(b, records, from).0),
        recovery::applied_from(a, records, from).1 == recovery::applied_from(b, records, from).1,
    decreases records.len() - from,
{
    if from < records.len() {
        recovery::lemma_run_end(records, from + 1);
        let to = recovery::run_end(records, from + 1);
        let group = records.subrange(from as int, to as int);
        lemma_group_same_data(a, b, group);
        if recovery::applied_group(a, group).1 is None {
            data_ignores_the_index(recovery::applied_group(a, group).0, recovery::applied_group(b, group).0, records, to);
        }
    }
}

/// Whether two stores have the same fields, whatever their columns hold.
pub open spec fn same_shape(a: payload::StoreView, b: payload::StoreView) -> bool {
    &&& a.schema == b.schema
    &&& a.strict == b.strict
    &&& a.columns.dom() == b.columns.dom()
    &&& forall|k: Seq<char>| #[trigger] a.columns.contains_key(k) ==> a.columns[k].ty == b.columns[k].ty
}

proof fn lemma_with_row_shape(a: payload::StoreView, row: u32, fields: FieldsView)
    ensures
        same_shape(a, payload::with_row(a, row, fields)),
        same_shape(a, payload::without_row(a, row)),
{
    assert(a.columns.dom() =~= payload::with_row(a, row, fields).columns.dom());
    assert(a.columns.dom() =~= payload::without_row(a, row).columns.dom());
}

proof fn lemma_one_shape(s: StateView, r: RecordView)
    ensures
        same_shape(s.payload, recovery::applied_one(s, r).0.payload),
{
    let t = recovery::applied_one(s, r).0;
    if t.payload != s.payload {
        let row = r.row_id->0 as u32;
        match r.op {
            WalOp::Delete => lemma_with_row_shape(s.payload, row, Map::empty()),
            _ => lemma_with_row_shape(s.payload, row, recovery::image_fields(r.payload->0)),
        }
    }
}

proof fn lemma_records_shape(s: StateView, group: Seq<RecordView>, n: nat)
    ensures
        same_shape(s.payload, recovery::applied_records(s, group, n).0.payload),
    decreases n,
{
    if n > 0 {
        let m = (n - 1) as nat;
        lemma_records_shape(s, group, m);
        lemma_one_shape(recovery::applied_records(s, group, m).0, group[n - 1]);
    }
}

proof fn lemma_from_shape(s: StateView, records: Seq<RecordView>, from: nat)
    ensures
        same_shape(s.payload, recovery::applied_from(s, records, from).0.payload),
    decreases records.len() - from,
{
    if from < records.len() {
        recovery::lemma_run_end(records, from + 1);
        let to = recovery::run_end(records, from + 1);
        let group = records.subrange(from as int, to as int);
        lemma_records_shape(s, group, group.len());
        let (t, e) = recovery::applied_group(s, group);
        if e is None {
            lemma_from_shape(t, records, to);
        }
    }
}

proof fn lemma_snapshot_shape(s: StateView, rows: Seq<snapshot::SnapshotRowView>, n: nat)
    ensures
        same_shape(s.payload, snapshot::with_snapshot_rows(s, rows, n).payload),
    decreases n,
{
    if n > 0 {
        let m = (n - 1) as nat;
        lemma_snapshot_shape(s, rows, m);
        let t = snapshot::with_snapshot_rows(s, rows, m);
        lemma_with_row_shape(t.payload, rows[n - 1].row_id as u32, rows[n - 1].row.fields);
    }
}

proof fn lemma_docs_leave_payload(s: StateView, docs: Seq<state::DocView>, n: nat)
    ensures
        snapshot::with_snapshot_docs(s, docs, n).payload == s.payload,
    decreases n,
{
    if n > 0 {
        lemma_docs_leave_payload(s, docs, (n - 1) as nat);
    }
}

proof fn lemma_fresh_indexes_nothing(schema: payload::SchemaView, strict: bool, x: u32)
    ensures
        payload::indexes_row(state::fresh_state(schema, strict).payload, x, Map::empty()),
{
    consistency::fresh_states_are_in_step(schema, strict);
    let s = state::fresh_state(schema, strict);
    assert forall|k: Seq<char>| #[trigger] s.payload.columns.contains_key(k) implies !s.payload.columns[k].cells.contains_key(x) by {
        assert(consistency::cell_in_step(s, k, x));
    }
}

proof fn lemma_limit_stays(s: StateView, records: Seq<RecordView>, from: nat)
    ensures
        recovery::applied_from(s, records, from).0.txns.limit == s.txns.limit,
    decreases records.len() - from,
{
    if from < records.len() {
        recovery::lemma_run_end(records, from + 1);
        let to = recovery::run_end(records, from + 1);
        let group = records.subrange(from as int, to as int);
        snapshot::lemma_records_leave_txns(s, group, group.len());
        let (t, e) = recovery::applied_group(s, group);
        if e is None {
            lemma_limit_stays(t, records, to);
        }
    }
}

/// Whether the records of each transaction stand together.
pub open spec fn stand_together(records: Seq<RecordView>) -> bool {
    forall|i: int, m: int, j: int|
        #![trigger records[i], records[m], records[j]]
        0 <= i <= m <= j < records.len() && records[i].txn == records[j].txn ==> records[m].txn == records[i].txn
}

/// Applying records whose transactions stand together, none of them listed
/// yet, leaves the index listing exactly the transactions that it holds.
pub proof fn a_log_keeps_txns_listed(s: StateView, records: Seq<RecordView>, from: nat)
    requires
        snapshot::txns_listed(s.txns),
        stand_together(records),
        forall|j: int| from <= j < records.len() ==> !s.txns.order.contains((#[trigger] records[j]).txn),
    ensures
        snapshot::txns_listed(recovery::applied_from(s, records, from).0.txns),
    decreases records.len() - from,
{
    if from < records.len() {
        recovery::lemma_run_end(records, from + 1);
        let to = recovery::run_end(records, from + 1);
        let group = records.subrange(from as int, to as int);
        assert(group[0] == records[from as int]);
        let (t, e) = recovery::applied_group(s, group);
        snapshot::lemma_records_leave_txns(s, group, group.len());
        if e is None {
            snapshot::transactions_keep_txns_listed(s, group);
            assert forall|j: int| to <= j < records.len() implies !t.txns.order.contains((#[trigger] records[j]).txn) by {
                lemma_run_stops(records, from + 1);
                assert(records[to as int].txn != records[to - 1].txn);
                lemma_run_same(records, from, to - 1);
                assert(records[j].txn != records[from as int].txn) by {
                    if records[j].txn == records[from as int].txn {
                        assert(records[to as int].txn == records[from as int].txn);
                    }
                }
                if t.txns.order.contains(records[j].txn) {
                    let i = choose|i: int| 0 <= i < t.txns.order.len() && t.txns.order[i] == records[j].txn;
                    let grown = s.txns.order.push(group[0].txn);
                    assert(grown.contains(records[j].txn)) by {
                        let off: int = if grown.len() > s.txns.limit { 1 } else { 0 };
                        assert(grown[i + off] == t.txns.order[i]);
                    }
                    let w = choose|w: int| 0 <= w < grown.len() && grown[w] == records[j].txn;
                    assert(s.txns.order[w] == records[j].txn);
                    assert(s.txns.order.contains(records[j].txn));
                }
            }
            a_log_keeps_txns_listed(t, records, to);
        }
    }
}

/// A run of records of one transaction ends where another begins.
pub proof fn lemma_run_stops(records: Seq<RecordView>, from: nat)
    requires
        from > 0,
    ensures
        recovery::run_end(records, from) < records.len() ==> records[recovery::run_end(records, from) as int].txn
            != records[recovery::run_end(records, from) - 1].txn,
    decreases records.len() - from,
{
    if from < records.len() && records[from as int].txn == records[from - 1].txn {
        lemma_run_stops(records, from + 1);
    }
}

/// The records of a run belong to one transaction.
pub proof fn lemma_run_same(records: Seq<RecordView>, from: nat, j: int)
    requires
        from <= j < recovery::run_end(records, from + 1),
        from < records.len(),
    ensures
        records[j].txn == records[from as int].txn,
    decreases records.len() - from,
{
    let next = from + 1;
    if j > from && next < records.len() && records[next as int].txn == records[next - 1].txn {
        lemma_run_same(records, next, j);
    }
}

/// Opening from a checkpoint and the log after it gives the same data as
/// opening from the whole log: keys, rows, live rows, documents, columns, next
/// ids, position and retained transactions.
pub proof fn a_checkpoint_stands_in_for_its_log(schema: payload::SchemaView, strict: bool, earlier: Seq<RecordView>, later: Seq<RecordView>, snap: SnapshotView)
    requires
        recovery::applied_from(state::fresh_state(schema, strict), earlier, 0).1 is None,
        earlier.len() > 0 && later.len() > 0 ==> earlier.last().txn != later[0].txn,
        snapshot::captures(recovery::applied_from(state::fresh_state(schema, strict), earlier, 0).0, snap),
        recovery::all_ids_fit(earlier),
        consistency::in_step(recovery::applied_from(state::fresh_state(schema, strict), earlier, 0).0),
        consistency::rows_keyed(recovery::applied_from(state::fresh_state(schema, strict), earlier, 0).0),
        consistency::docs_keyed(recovery::applied_from(state::fresh_state(schema, strict), earlier, 0).0),
        snapshot::txns_listed(recovery::applied_from(state::fresh_state(schema, strict), earlier, 0).0.txns),
    ensures
        ({
            let whole = recovery::applied_from(state::fresh_state(schema, strict), earlier + later, 0);
            let tail = recovery::applied_from(snapshot::opened_state(schema, strict, Some(snap)), later, 0);
            whole == tail
        }),
{
    let fresh = state::fresh_state(schema, strict);
    let s = recovery::applied_from(fresh, earlier, 0).0;
    let t = snapshot::opened_state(schema, strict, Some(snap));
    assert forall|x: u32| payload::indexes_row(fresh.payload, x, Map::empty()) by {
        lemma_fresh_indexes_nothing(schema, strict, x);
    }
    collection::applying_keeps_sound(fresh, earlier, 0);
    lemma_limit_stays(fresh, earlier, 0);
    snapshot::what_writes_keep_matches_keys(s);
    snapshot::restoring_gives_back_the_state(s, snap, fresh);
    lemma_from_shape(fresh, earlier, 0);
    let seeded = StateView {
        applied: snap.applied,
        next_row: snap.next_row,
        next_doc: snap.next_doc,
        keys: Map::empty(),
        rows: Map::empty(),
        live: Set::empty(),
        doc_keys: Map::empty(),
        docs: Map::empty(),
        ..fresh
    };
    lemma_snapshot_shape(seeded, snap.rows, snap.rows.len());
    lemma_docs_leave_payload(snapshot::with_snapshot_rows(seeded, snap.rows, snap.rows.len()), snap.docs, snap.docs.len());
    assert(same_shape(fresh.payload, t.payload));
    assert(t.payload.columns =~= s.payload.columns) by {
        assert(t.payload.columns.dom() =~= s.payload.columns.dom());
        assert forall|k: Seq<char>| #[trigger] s.payload.columns.contains_key(k) implies t.payload.columns[k] == s.payload.columns[k] by {
            assert(t.payload.columns.contains_key(k));
            let a = t.payload.columns[k].cells;
            let b = s.payload.columns[k].cells;
            assert forall|x: u32| #[trigger] a.dom().contains(x) == b.dom().contains(x) && (b.dom().contains(x) ==> a[x] == b[x]) by {
                assert(consistency::cell_in_step(s, k, x));
                if s.live.contains(x) {
                    assert(payload::indexes_row(t.payload, x, s.rows[x as u64].fields));
                } else {
                    assert(payload::indexes_row(t.payload, x, Map::empty()));
                }
            }
            assert(a.dom() =~= b.dom());
            assert(a =~= b);
            assert(fresh.payload.columns.contains_key(k));
        }
    }
    assert(s == t);
    recovery::replaying_equals_having_applied(fresh, earlier, later);
}

/// Whether two states have the same rows, keys and documents, and stand at the
/// same position, whatever their schemas and indexes are.
pub open spec fn same_content(a: StateView, b: StateView) -> bool {
    b == (StateView { payload: b.payload, txns: b.txns, ..a })
}

proof fn lemma_one_same_content(a: StateView, b: StateView, r: RecordView)
    requires
        same_content(a, b),
        recovery::applied_one(a, r).1 is None,
        recovery::applied_one(b, r).1 is None,
    ensures
        same_content(recovery::applied_one(a, r).0, recovery::applied_one(b, r).0),
{
}

proof fn lemma_records_same_content(a: StateView, b: StateView, group: Seq<RecordView>, n: nat)
    requires
        same_content(a, b),
        n <= group.len(),
        recovery::applied_records(a, group, n).1 is None,
        recovery::applied_records(b, group, n).1 is None,
    ensures
        same_content(recovery::applied_records(a, group, n).0, recovery::applied_records(b, group, n).0),
    decreases n,
{
    if n > 0 {
        let m = (n - 1) as nat;
        lemma_records_same_content(a, b, group, m);
        lemma_one_same_content(recovery::applied_records(a, group, m).0, recovery::applied_records(b, group, m).0, group[n - 1]);
    }
}

proof fn lemma_group_same_content(a: StateView, b: StateView, group: Seq<RecordView>)
    requires
        same_content(a, b),
        recovery::applied_group(a, group).1 is None,
        recovery::applied_group(b, group).1 is None,
    ensures
        same_content(recovery::applied_group(a, group).0, recovery::applied_group(b, group).0),
{
    lemma_records_same_content(a, b, group, group.len());
    let x = recovery::applied_records(a, group, group.len()).0;
    let y = recovery::applied_records(b, group, group.len()).0;
    let touched = recovery::touched_docs(group);
    assert(x.docs == y.docs && x.doc_keys == y.doc_keys);
    assert forall|d: u64| #[trigger] recovery::emptied(x, touched, d) == recovery::emptied(y, touched, d) by {}
    assert(recovery::without_emptied(x, touched).docs =~= recovery::without_emptied(y, touched).docs);
    let p = recovery::without_emptied(x, touched).doc_keys;
    let q = recovery::without_emptied(y, touched).doc_keys;
    assert(p =~= q) by {
        assert forall|k: Seq<char>| #[trigger] p.dom().contains(k) == q.dom().contains(k) by {
            if exists|d: u64| #[trigger] recovery::emptied(x, touched, d) && x.docs[d].doc_key == k {
                let d = choose|d: u64| #[trigger] recovery::emptied(x, touched, d) && x.docs[d].doc_key == k;
                assert(recovery::emptied(y, touched, d) && y.docs[d].doc_key == k);
            }
            if exists|d: u64| #[trigger] recovery::emptied(y, touched, d) && y.docs[d].doc_key == k {
                let d = choose|d: u64| #[trigger] recovery::emptied(y, touched, d) && y.docs[d].doc_key == k;
                assert(recovery::emptied(x, touched, d) && x.docs[d].doc_key == k);
            }
        }
    }
}

/// What records do to rows, keys and documents does not depend on the schema,
/// as long as it accepts them.
pub proof fn content_ignores_the_schema(a: StateView, b: StateView, records: Seq<RecordView>, from: nat)
    requires
        same_content(a, b),
        recovery::applied_from(a, records, from).1 is None,
        recovery::applied_from(b, records, from).1 is None,
    ensures
        same_content(recovery::applied_from(a, records, from).0, recovery::applied_from(b, records, from).0),
    decreases records.len() - from,
{
    if from < records.len() {
        recovery::lemma_run_end(records, from + 1);
        let to = recovery::run_end(records, from + 1);
        let group = records.subrange(from as int, to as int);
        lemma_group_same_content(a, b, group);
        content_ignores_the_schema(recovery::applied_group(a, group).0, recovery::applied_group(b, group).0, records, to);
    }
}

proof fn lemma_clean_log_applies(s: StateView, records: Seq<RecordView>, from: nat)
    requires
        forall|i: int| 0 <= i < records.len() ==> recovery::clean(s.payload, #[trigger] records[i]),
    ensures
        recovery::applied_from(s, records, from).1 is None,
    decreases records.len() - from,
{
    if from < records.len() {
        recovery::lemma_run_end(records, from + 1);
        let to = recovery::run_end(records, from + 1);
        let group = records.subrange(from as int, to as int);
        assert forall|i: int| 0 <= i < group.len() implies recovery::clean(s.payload, #[trigger] group[i]) by {
            assert(group[i] == records[from + i]);
        }
        recovery::lemma_clean_prefix(s, group, group.len());
        let t = recovery::applied_group(s, group).0;
        assert(t.payload.schema == s.payload.schema && t.payload.strict == s.payload.strict);
        assert forall|i: int| 0 <= i < records.len() implies recovery::clean(t.payload, #[trigger] records[i]) by {
            assert(recovery::clean(s.payload, records[i]));
            let fields = recovery::image_fields(records[i].payload->0);
            assert(payload::row_refusal(t.payload, fields) is None <==> payload::row_refusal(s.payload, fields) is None);
        }
        lemma_clean_log_applies(t, records, to);
    }
}

/// A change of the schema loses nothing: a collection that is opened again
/// from its log, with the schema that it has after the change, has the rows,
/// keys and documents that it had, those from before the change and those
/// from after it. Values of fields that are still declared have to be of their
/// types, which fails where a field was dropped and added with another one.
pub proof fn a_schema_change_loses_nothing(schema: payload::SchemaView, strict: bool, earlier: Seq<RecordView>, change: SchemaChange, later: Seq<RecordView>)
    requires
        recovery::applied_from(state::fresh_state(schema, strict), earlier, 0).1 is None,
        earlier.len() > 0 && later.len() > 0 ==> earlier.last().txn != later[0].txn,
        recovery::applied_from(changed_state(schema, strict, earlier, change), later, 0).1 is None,
        forall|i: int| 0 <= i < (earlier + later).len() ==> recovery::clean(
            state::fresh_state(changed_state(schema, strict, earlier, change).payload.schema, false).payload, #[trigger] (earlier + later)[i]),
    ensures
        ({
            let live = recovery::applied_from(changed_state(schema, strict, earlier, change), later, 0).0;
            let reopened = recovery::applied_from(state::fresh_state(changed_state(schema, strict, earlier, change).payload.schema, false), earlier + later, 0);
            &&& reopened.1 is None
            &&& same_content(live, snapshot::with_strictness(reopened.0, strict))
        }),
{
    let s = changed_state(schema, strict, earlier, change);
    let old = state::fresh_state(schema, strict);
    let new = state::fresh_state(s.payload.schema, false);
    lemma_clean_log_applies(new, earlier + later, 0);
    assert forall|i: int| 0 <= i < earlier.len() implies recovery::clean(new.payload, #[trigger] earlier[i]) by {
        assert((earlier + later)[i] == earlier[i]);
    }
    lemma_clean_log_applies(new, earlier, 0);
    recovery::replaying_equals_having_applied(new, earlier, later);
    content_ignores_the_schema(old, new, earlier, 0);
    content_ignores_the_schema(s, recovery::applied_from(new, earlier, 0).0, later, 0);
}

/// The state of a collection whose schema is changed after these records.
pub open spec fn changed_state(schema: payload::SchemaView, strict: bool, earlier: Seq<RecordView>, change: SchemaChange) -> StateView {
    let s = recovery::applied_from(state::fresh_state(schema, strict), earlier, 0).0;
    StateView { payload: api::altered(s.payload, change).0, ..s }
}

} // verus!
