//! What subscribers are told of a write, and what the write did.

use crate::change;
use crate::change::{EventView, WrittenView};
use crate::recovery;
use crate::state::StateView;
use crate::wal::{RecordView, WalOp};
use vstd::prelude::*;

verus! {

/// Whether a row holds what an event says was written.
pub open spec fn holds(s: StateView, w: WrittenView) -> bool {
    &&& s.live.contains(w.row_id as u32)
    &&& s.rows.contains_key(w.row_id)
    &&& s.rows[w.row_id].key == w.key
    &&& s.rows[w.row_id].vector == w.vector
    &&& s.rows[w.row_id].fields == w.fields
    &&& s.rows[w.row_id].extra == w.extra
    &&& s.rows[w.row_id].doc_id == w.doc_id
    &&& s.rows[w.row_id].text == w.text
}

/// Whether an event says how things are.
pub open spec fn is_true_of(e: EventView, s: StateView) -> bool {
    match e {
        EventView::Insert(w) => holds(s, w),
        EventView::Update(w) => holds(s, w),
        EventView::Delete { row_id, doc_id, text } => !s.live.contains(row_id as u32),
    }
}

/// Whether an event is the last one about its row.
pub open spec fn is_last(events: Seq<EventView>, i: int) -> bool {
    forall|j: int| i < j < events.len() ==> change::event_row(#[trigger] events[j]) != change::event_row(events[i])
}

/// Whether a row is as it was.
pub open spec fn is_unchanged(before: StateView, after: StateView, row: u64) -> bool {
    &&& before.live.contains(row as u32) == after.live.contains(row as u32)
    &&& before.rows.contains_key(row) == after.rows.contains_key(row)
    &&& before.rows.contains_key(row) ==> before.rows[row] == after.rows[row]
}

/// Whether some event is about a row.
pub open spec fn is_named(events: Seq<EventView>, row: u64) -> bool {
    exists|i: int| 0 <= i < events.len() && change::event_row(#[trigger] events[i]) == row
}

/// Whether events say what became of a state: the last one about each row is
/// true of it now, and a row that none is about is as it was.
pub open spec fn describe(events: Seq<EventView>, before: StateView, after: StateView) -> bool {
    &&& forall|i: int| 0 <= i < events.len() ==> change::event_row(#[trigger] events[i]) <= u32::MAX
    &&& forall|i: int| 0 <= i < events.len() && is_last(events, i) ==> is_true_of(#[trigger] events[i], after)
    &&& forall|row: u64| row <= u32::MAX && !is_named(events, row) ==> #[trigger] is_unchanged(before, after, row)
}

/// Whether two states have the same rows.
pub open spec fn same_rows(a: StateView, b: StateView) -> bool {
    a.rows == b.rows && a.live == b.live
}

proof fn lemma_same_rows(events: Seq<EventView>, before: StateView, after: StateView, other: StateView)
    requires
        describe(events, before, after),
        same_rows(after, other),
    ensures
        describe(events, before, other),
{
    assert forall|i: int| 0 <= i < events.len() && is_last(events, i) implies is_true_of(#[trigger] events[i], other) by {
        assert(is_true_of(events[i], after));
    }
    assert forall|row: u64| row <= u32::MAX && !is_named(events, row) implies #[trigger] is_unchanged(before, other, row) by {
        assert(is_unchanged(before, after, row));
    }
}

proof fn lemma_one_more(events: Seq<EventView>, before: StateView, s: StateView, r: RecordView)
    requires
        describe(events, before, s),
        recovery::ids_fit(r),
        recovery::applied_one(s, r).1 is None,
    ensures
        ({
            let t = recovery::applied_one(s, r).0;
            match recovery::event_of(r) {
                Some(e) => describe(events.push(e), before, t),
                None => describe(events, before, t),
            }
        }),
{
    let t = recovery::applied_one(s, r).0;
    match recovery::event_of(r) {
        None => {
            assert(r.op != WalOp::Insert && r.op != WalOp::Update && r.op != WalOp::Delete);
        },
        Some(e) => {
            let all = events.push(e);
            let id = change::event_row(e);
            assert(r.row_id == Some(id));
            assert(is_true_of(e, t));
            assert forall|row: u64| row <= u32::MAX && row != id implies #[trigger] is_unchanged(s, t, row) by {
                assert(row as u32 != id as u32);
            }
            assert forall|i: int| 0 <= i < all.len() implies change::event_row(#[trigger] all[i]) <= u32::MAX by {
                if i < events.len() {
                    assert(all[i] == events[i]);
                }
            }
            assert forall|i: int| 0 <= i < all.len() && is_last(all, i) implies is_true_of(#[trigger] all[i], t) by {
                if i < events.len() {
                    assert(all[i] == events[i]);
                    assert(all[events.len() as int] == e);
                    assert(change::event_row(events[i]) != id);
                    assert forall|j: int| i < j < events.len() implies change::event_row(#[trigger] events[j]) != change::event_row(events[i]) by {
                        assert(all[j] == events[j]);
                    }
                    assert(is_true_of(events[i], s));
                    assert(is_unchanged(s, t, change::event_row(events[i])));
                }
            }
            assert forall|row: u64| row <= u32::MAX && !is_named(all, row) implies #[trigger] is_unchanged(before, t, row) by {
                assert(all[events.len() as int] == e);
                assert(row != id);
                if is_named(events, row) {
                    let i = choose|i: int| 0 <= i < events.len() && change::event_row(#[trigger] events[i]) == row;
                    assert(all[i] == events[i]);
                }
                assert(is_unchanged(before, s, row));
                assert(is_unchanged(s, t, row));
            }
        },
    }
}

proof fn lemma_group(before: StateView, s: StateView, records: Seq<RecordView>, from: nat, to: nat, n: nat)
    requires
        from <= to <= records.len(),
        n <= to - from,
        recovery::all_ids_fit(records),
        describe(recovery::events_of(records, from), before, s),
        recovery::applied_records(s, records.subrange(from as int, to as int), n).1 is None,
    ensures
        describe(
            recovery::events_of(records, from + n),
            before,
            recovery::applied_records(s, records.subrange(from as int, to as int), n).0,
        ),
    decreases n,
{
    if n > 0 {
        let group = records.subrange(from as int, to as int);
        let t = recovery::applied_records(s, group, (n - 1) as nat).0;
        assert(recovery::applied_records(s, group, (n - 1) as nat).1 is None);
        lemma_group(before, s, records, from, to, (n - 1) as nat);
        let r = records[from + n - 1];
        assert(group[n - 1] == r);
        lemma_one_more(recovery::events_of(records, (from + n - 1) as nat), before, t, r);
        let u = recovery::applied_one(t, r).0;
        lemma_same_rows(recovery::events_of(records, from + n), before, u, recovery::applied_records(s, group, n).0);
    }
}

proof fn lemma_runs(before: StateView, s: StateView, records: Seq<RecordView>, from: nat)
    requires
        from <= records.len(),
        recovery::all_ids_fit(records),
        describe(recovery::events_of(records, from), before, s),
        recovery::applied_from(s, records, from).1 is None,
    ensures
        describe(recovery::events_of(records, records.len()), before, recovery::applied_from(s, records, from).0),
    decreases records.len() - from,
{
    if from < records.len() {
        recovery::lemma_run_end(records, from + 1);
        let to = recovery::run_end(records, from + 1);
        let group = records.subrange(from as int, to as int);
        let n = (to - from) as nat;
        assert(group.len() == n);
        lemma_group(before, s, records, from, to, n);
        let t = recovery::applied_group(s, group).0;
        lemma_same_rows(recovery::events_of(records, to), before, recovery::applied_records(s, group, n).0, t);
        lemma_runs(before, t, records, to);
    }
}

/// What subscribers are told and what was applied do not drift apart: once
/// records have been applied, the last event about each row is true of it,
/// and the rows that no event is about are as they were.
pub proof fn subscribers_are_told_what_happened(s: StateView, records: Seq<RecordView>)
    requires
        recovery::all_ids_fit(records),
        recovery::applied_from(s, records, 0).1 is None,
    ensures
        describe(recovery::events_of(records, records.len()), s, recovery::applied_from(s, records, 0).0),
{
    assert(recovery::events_of(records, 0).len() == 0);
    lemma_runs(s, s, records, 0);
}

} // verus!
