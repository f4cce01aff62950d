//! What the transaction index says of the log, and when an undo is refused,
//! said of the log's records.

use crate::collection::CollectionView;
use crate::model::Timestamp;
use crate::payload;
use crate::recovery;
use crate::reopening;
use crate::snapshot;
use crate::state;
use crate::state::StateView;
use crate::txn_index;
use crate::txn_index::{ConflictView, EntryView, IndexView, TxnEntry};
use crate::undo;
use crate::wal;
use crate::wal::{RecordView, WalActor, WalOp};
use vstd::prelude::*;

verus! {

/// Whether one of the first `n` records belongs to a transaction and names a
/// row.
pub open spec fn names(records: Seq<RecordView>, n: int, txn: u128, row: u32) -> bool {
    exists|i: int| 0 <= i < n && (#[trigger] records[i]).txn == txn && records[i].row_id == Some(row as u64)
}

/// The rows that both of two transactions name.
pub open spec fn named_by_both(records: Seq<RecordView>, a: u128, b: u128) -> Set<u32> {
    Set::new(|row: u32| names(records, records.len() as int, a, row) && names(records, records.len() as int, b, row))
}

proof fn lemma_lsn_bounds(group: Seq<RecordView>, n: nat)
    requires
        0 < n <= group.len(),
    ensures
        forall|i: int| 0 <= i < n ==> recovery::first_lsn(group, n) <= (#[trigger] group[i]).lsn <= recovery::last_lsn(group, n),
        exists|i: int| 0 <= i < n && (#[trigger] group[i]).lsn == recovery::first_lsn(group, n),
        exists|i: int| 0 <= i < n && (#[trigger] group[i]).lsn == recovery::last_lsn(group, n),
    decreases n,
{
    if n > 1 {
        lemma_lsn_bounds(group, (n - 1) as nat);
        let lo = choose|i: int| 0 <= i < n - 1 && (#[trigger] group[i]).lsn == recovery::first_lsn(group, (n - 1) as nat);
        let hi = choose|i: int| 0 <= i < n - 1 && (#[trigger] group[i]).lsn == recovery::last_lsn(group, (n - 1) as nat);
        assert(group[lo].lsn == recovery::first_lsn(group, (n - 1) as nat));
        assert(group[hi].lsn == recovery::last_lsn(group, (n - 1) as nat));
        assert(group[n - 1].lsn == group[n - 1].lsn);
    } else {
        assert(group[0].lsn == recovery::first_lsn(group, n));
    }
}

/// Once a transaction has been applied it is in the index under its id, and
/// its entry says what its records say: the rows that it affects are exactly
/// the rows that its records name, whatever they do to them, and likewise its
/// documents; its positions reach from its lowest to its highest; who wrote
/// it, when and where is what its first record has; and nothing has undone it,
/// unless it names itself.
pub proof fn a_transaction_affects_the_rows_it_names(s: StateView, group: Seq<RecordView>)
    requires
        snapshot::txns_listed(s.txns),
        group.len() > 0,
        recovery::all_ids_fit(group),
        !s.txns.order.contains(group[0].txn),
        recovery::applied_group(s, group).1 is None,
    ensures
        ({
            let ix = recovery::applied_group(s, group).0.txns;
            let e = ix.entries[group[0].txn];
            &&& ix.entries.contains_key(group[0].txn)
            &&& ix.order.last() == group[0].txn
            &&& e.txn_id == group[0].txn
            &&& forall|row: u32| #[trigger] e.affected.contains(row) <==> exists|i: int| 0 <= i < group.len() && (#[trigger] group[i]).row_id == Some(row as u64)
            &&& forall|d: u64| #[trigger] e.doc_ids.contains(d) <==> exists|i: int| 0 <= i < group.len() && (#[trigger] group[i]).doc_id == Some(d)
            &&& e.ts == group[0].ts
            &&& e.principal == group[0].actor.id.0@
            &&& e.session == group[0].session
            &&& e.coll == group[0].coll
            &&& e.op_summary == wal::txn_summary(group)
            &&& forall|i: int| 0 <= i < group.len() ==> e.lsn_range.0 <= (#[trigger] group[i]).lsn <= e.lsn_range.1
            &&& exists|i: int| 0 <= i < group.len() && (#[trigger] group[i]).lsn == e.lsn_range.0
            &&& exists|i: int| 0 <= i < group.len() && (#[trigger] group[i]).lsn == e.lsn_range.1
            &&& group[0].caused_by != Some(group[0].txn) ==> e.undone_by is None
        }),
{
    let ix = recovery::applied_group(s, group).0.txns;
    let e = recovery::txn_entry(group);
    snapshot::lemma_records_leave_txns(s, group, group.len());
    snapshot::transactions_keep_txns_listed(s, group);
    let order = s.txns.order.push(group[0].txn);
    assert(order.len() > s.txns.limit ==> order[0] == s.txns.order[0]);
    assert(s.txns.order.len() > 0 ==> s.txns.order.contains(s.txns.order[0]));
    assert(ix.order.last() == group[0].txn);
    assert(ix.order[ix.order.len() - 1] == group[0].txn);
    assert(ix.entries.contains_key(group[0].txn));
    let now = ix.entries[group[0].txn];
    assert(now == (EntryView { undone_by: now.undone_by, ..e }));
    lemma_lsn_bounds(group, group.len());
    assert forall|row: u32| #[trigger] now.affected.contains(row) <==> exists|i: int| 0 <= i < group.len() && (#[trigger] group[i]).row_id == Some(row as u64) by {
        if now.affected.contains(row) {
            let i = choose|i: int| 0 <= i < group.len() && (#[trigger] group[i]).row_id is Some && group[i].row_id->0 as u32 == row;
            assert(recovery::ids_fit(group[i]));
            assert(group[i].row_id == Some(row as u64));
        }
        if exists|i: int| 0 <= i < group.len() && (#[trigger] group[i]).row_id == Some(row as u64) {
            let i = choose|i: int| 0 <= i < group.len() && (#[trigger] group[i]).row_id == Some(row as u64);
            assert(group[i].row_id is Some && group[i].row_id->0 as u32 == row);
        }
    }
    recovery::lemma_ascending_docs(group);
    assert forall|d: u64| #[trigger] now.doc_ids.contains(d) <==> exists|i: int| 0 <= i < group.len() && (#[trigger] group[i]).doc_id == Some(d) by {
        assert(recovery::touched_docs(group).contains(d) <==> now.doc_ids.contains(d));
    }
}

/// Whether an entry says what the first `n` records of its transaction say.
pub open spec fn entry_follows(e: EntryView, records: Seq<RecordView>, n: int, txn: u128) -> bool {
    &&& e.txn_id == txn
    &&& forall|row: u32| #[trigger] e.affected.contains(row) <==> names(records, n, txn, row)
    &&& begun(records, n, txn, e.ts, e.principal)
    &&& e.undone_by matches Some(by) ==> exists|i: int| 0 <= i < n && (#[trigger] records[i]).txn == by && records[i].caused_by == Some(txn)
}

/// Whether the index holds what the first `n` records say: transactions in
/// the order of their records, each with its entry.
pub open spec fn index_follows(ix: IndexView, records: Seq<RecordView>, n: int) -> bool {
    &&& snapshot::txns_listed(ix)
    &&& forall|k: int| 0 <= k < ix.order.len() ==> entry_follows(ix.entries[#[trigger] ix.order[k]], records, n, ix.order[k])
    &&& forall|a: int, b: int| 0 <= a < b < ix.order.len() ==> #[trigger] written_before(records, n, ix.order[a], ix.order[b])
}

/// Whether, among the first `n` records, those of one transaction all stand
/// before those of another.
pub open spec fn written_before(records: Seq<RecordView>, n: int, first: u128, second: u128) -> bool {
    forall|i: int, j: int| 0 <= i < n && 0 <= j < n && (#[trigger] records[i]).txn == first && (#[trigger] records[j]).txn == second ==> i < j
}

/// Whether a record of `target` and a later one of `other` name the same row.
pub open spec fn writes_after(records: Seq<RecordView>, target: u128, other: u128) -> bool {
    exists|i: int, j: int| 0 <= i < j < records.len() && (#[trigger] records[i]).txn == target && (#[trigger] records[j]).txn == other
        && records[i].row_id is Some && records[j].row_id == records[i].row_id
}

/// Whether a time and a writer are those of the first record of a
/// transaction, among the first `n`.
pub open spec fn begun(records: Seq<RecordView>, n: int, txn: u128, ts: i128, principal: Seq<char>) -> bool {
    exists|i: int| 0 <= i < n && (#[trigger] records[i]).txn == txn && ts == records[i].ts && principal == records[i].actor.id.0@
        && forall|j: int| 0 <= j < i ==> (#[trigger] records[j]).txn != txn
}

proof fn lemma_run_is_alone(records: Seq<RecordView>, from: nat)
    requires
        from < records.len(),
        reopening::stand_together(records),
        from > 0 ==> records[from - 1].txn != records[from as int].txn,
    ensures
        ({
            let to = recovery::run_end(records, from + 1);
            &&& from < to <= records.len()
            &&& forall|i: int| 0 <= i < to ==> ((#[trigger] records[i]).txn == records[from as int].txn <==> from <= i)
            &&& to < records.len() ==> records[to - 1].txn != records[to as int].txn
        }),
{
    recovery::lemma_run_end(records, from + 1);
    let to = recovery::run_end(records, from + 1);
    reopening::lemma_run_stops(records, from + 1);
    assert forall|i: int| 0 <= i < to implies ((#[trigger] records[i]).txn == records[from as int].txn <==> from <= i) by {
        if from <= i {
            reopening::lemma_run_same(records, from, i);
        } else if records[i].txn == records[from as int].txn {
            assert(records[from - 1].txn == records[i].txn);
        }
    }
}

/// Whether the records from `from` to `to` are all of one transaction's among
/// the first `to`.
spec fn alone(records: Seq<RecordView>, from: int, to: int) -> bool {
    &&& 0 <= from < to <= records.len()
    &&& forall|i: int| 0 <= i < to ==> ((#[trigger] records[i]).txn == records[from].txn <==> from <= i)
}

proof fn lemma_own_entry(s: StateView, records: Seq<RecordView>, from: int, to: int)
    requires
        alone(records, from, to),
        recovery::all_ids_fit(records),
        snapshot::txns_listed(s.txns),
        !s.txns.order.contains(records[from].txn),
        recovery::applied_group(s, records.subrange(from, to)).1 is None,
    ensures
        entry_follows(recovery::applied_group(s, records.subrange(from, to)).0.txns.entries[records[from].txn], records, to, records[from].txn),
{
    let group = records.subrange(from, to);
    let txn = records[from].txn;
    assert(group[0] == records[from]);
    assert(recovery::all_ids_fit(group)) by {
        assert forall|i: int| 0 <= i < group.len() implies recovery::ids_fit(#[trigger] group[i]) by {
            assert(recovery::ids_fit(records[from + i]));
        }
    }
    a_transaction_affects_the_rows_it_names(s, group);
    let e = recovery::applied_group(s, group).0.txns.entries[txn];
    assert forall|row: u32| #[trigger] e.affected.contains(row) <==> names(records, to, txn, row) by {
        if e.affected.contains(row) {
            let i = choose|i: int| 0 <= i < group.len() && (#[trigger] group[i]).row_id == Some(row as u64);
            assert(records[from + i].txn == txn && records[from + i].row_id == Some(row as u64));
        }
        if names(records, to, txn, row) {
            let i = choose|i: int| 0 <= i < to && (#[trigger] records[i]).txn == txn && records[i].row_id == Some(row as u64);
            assert(group[i - from].row_id == Some(row as u64));
        }
    }
    assert(records[from].txn == txn && e.ts == records[from].ts && e.principal == records[from].actor.id.0@);
    assert forall|j: int| 0 <= j < from implies (#[trigger] records[j]).txn != txn by {}
    if e.undone_by is Some {
        snapshot::lemma_records_leave_txns(s, group, group.len());
        assert(records[from].caused_by == Some(txn));
        assert(e.undone_by == Some(txn));
    }
}

proof fn lemma_other_entry(was: EntryView, e: EntryView, records: Seq<RecordView>, from: int, to: int, t: u128)
    requires
        alone(records, from, to),
        t != records[from].txn,
        entry_follows(was, records, from, t),
        e == (EntryView { undone_by: e.undone_by, ..was }),
        e.undone_by != was.undone_by ==> e.undone_by == Some(records[from].txn) && records[from].caused_by == Some(t),
    ensures
        entry_follows(e, records, to, t),
{
    assert forall|row: u32| #[trigger] e.affected.contains(row) <==> names(records, to, t, row) by {
        assert(was.affected.contains(row) <==> names(records, from, t, row));
        if names(records, from, t, row) {
            let i = choose|i: int| 0 <= i < from && (#[trigger] records[i]).txn == t && records[i].row_id == Some(row as u64);
            assert(records[i].txn == t && records[i].row_id == Some(row as u64));
        }
        if names(records, to, t, row) {
            let i = choose|i: int| 0 <= i < to && (#[trigger] records[i]).txn == t && records[i].row_id == Some(row as u64);
            assert(i < from);
        }
    }
    let f = choose|i: int| 0 <= i < from && (#[trigger] records[i]).txn == t && was.ts == records[i].ts && was.principal == records[i].actor.id.0@
        && forall|j: int| 0 <= j < i ==> (#[trigger] records[j]).txn != t;
    assert(records[f].txn == t && e.ts == records[f].ts);
    if e.undone_by != was.undone_by {
        assert(records[from].txn == e.undone_by->0 && records[from].caused_by == Some(t));
    } else if e.undone_by is Some {
        let i = choose|i: int| 0 <= i < from && (#[trigger] records[i]).txn == was.undone_by->0 && records[i].caused_by == Some(t);
        assert(records[i].txn == e.undone_by->0 && records[i].caused_by == Some(t));
    }
}

proof fn lemma_index_grows(s: StateView, records: Seq<RecordView>, from: int, to: int)
    requires
        alone(records, from, to),
        recovery::all_ids_fit(records),
        index_follows(s.txns, records, from),
        recovery::applied_group(s, records.subrange(from, to)).1 is None,
    ensures
        index_follows(recovery::applied_group(s, records.subrange(from, to)).0.txns, records, to),
{
    let group = records.subrange(from, to);
    let txn = records[from].txn;
    assert(group[0] == records[from]);
    assert(!s.txns.order.contains(txn)) by {
        if s.txns.order.contains(txn) {
            let k = choose|k: int| 0 <= k < s.txns.order.len() && s.txns.order[k] == txn;
            assert(entry_follows(s.txns.entries[s.txns.order[k]], records, from, s.txns.order[k]));
            let i = choose|i: int| 0 <= i < from && (#[trigger] records[i]).txn == txn;
            assert(records[i].txn == txn);
        }
    }
    let ix = recovery::applied_group(s, group).0.txns;
    lemma_own_entry(s, records, from, to);
    snapshot::transactions_keep_txns_listed(s, group);
    snapshot::lemma_records_leave_txns(s, group, group.len());
    let grown = s.txns.order.push(txn);
    let off: int = if grown.len() > s.txns.limit { 1 } else { 0 };
    assert forall|k: int| 0 <= k < ix.order.len() implies #[trigger] ix.order[k] == grown[k + off] by {}
    assert forall|k: int| 0 <= k < ix.order.len() implies entry_follows(ix.entries[#[trigger] ix.order[k]], records, to, ix.order[k]) by {
        let t = ix.order[k];
        if t != txn {
            assert(k + off < s.txns.order.len());
            assert(s.txns.order[k + off] == t);
            let was = s.txns.entries[t];
            assert(entry_follows(was, records, from, s.txns.order[k + off]));
            assert(ix.entries.contains_key(t));
            lemma_other_entry(was, ix.entries[t], records, from, to, t);
        }
    }
    assert forall|a: int, b: int| 0 <= a < b < ix.order.len() implies #[trigger] written_before(records, to, ix.order[a], ix.order[b]) by {
        assert(ix.order[a] == grown[a + off] && ix.order[b] == grown[b + off]);
        assert(s.txns.order[a + off] == ix.order[a]);
        assert(ix.order[a] != txn) by {
            assert(s.txns.order.contains(s.txns.order[a + off]));
        }
        if ix.order[b] != txn {
            assert(s.txns.order[b + off] == ix.order[b]);
            assert(written_before(records, from, s.txns.order[a + off], s.txns.order[b + off]));
        }
    }
}

proof fn lemma_index_step(s: StateView, records: Seq<RecordView>, from: nat)
    requires
        from < records.len(),
        reopening::stand_together(records),
        recovery::all_ids_fit(records),
        from > 0 ==> records[from - 1].txn != records[from as int].txn,
        index_follows(s.txns, records, from as int),
        recovery::applied_group(s, records.subrange(from as int, recovery::run_end(records, from + 1) as int)).1 is None,
    ensures
        index_follows(
            recovery::applied_group(s, records.subrange(from as int, recovery::run_end(records, from + 1) as int)).0.txns,
            records,
            recovery::run_end(records, from + 1) as int,
        ),
{
    lemma_run_is_alone(records, from);
    lemma_index_grows(s, records, from as int, recovery::run_end(records, from + 1) as int);
}

proof fn lemma_index_from(s: StateView, records: Seq<RecordView>, from: nat)
    requires
        from <= records.len(),
        reopening::stand_together(records),
        recovery::all_ids_fit(records),
        0 < from < records.len() ==> records[from - 1].txn != records[from as int].txn,
        index_follows(s.txns, records, from as int),
        recovery::applied_from(s, records, from).1 is None,
    ensures
        index_follows(recovery::applied_from(s, records, from).0.txns, records, records.len() as int),
    decreases records.len() - from,
{
    if from < records.len() {
        lemma_run_is_alone(records, from);
        lemma_index_step(s, records, from);
        let to = recovery::run_end(records, from + 1);
        let t = recovery::applied_group(s, records.subrange(from as int, to as int)).0;
        lemma_index_from(t, records, to);
    }
}

/// The index of a collection that has applied a log follows the log.
pub proof fn the_index_follows_the_log(schema: payload::SchemaView, strict: bool, records: Seq<RecordView>)
    requires
        recovery::applied_from(state::fresh_state(schema, strict), records, 0).1 is None,
        reopening::stand_together(records),
        recovery::all_ids_fit(records),
    ensures
        index_follows(recovery::applied_from(state::fresh_state(schema, strict), records, 0).0.txns, records, records.len() as int),
{
    let s = state::fresh_state(schema, strict);
    assert(snapshot::txns_listed(s.txns));
    lemma_index_from(s, records, 0);
}

proof fn lemma_conflict(ix: IndexView, records: Seq<RecordView>, target: u128, u: u128)
    requires
        index_follows(ix, records, records.len() as int),
        recovery::all_ids_fit(records),
        ix.entries.contains_key(target),
    ensures
        txn_index::conflicts_with(ix, ix.entries[target], u) <==> u != target && ix.entries.contains_key(u) && writes_after(records, target, u),
{
    let n = records.len() as int;
    let e = ix.entries[target];
    assert(ix.order.contains(target));
    let a = choose|a: int| 0 <= a < ix.order.len() && ix.order[a] == target;
    assert(entry_follows(ix.entries[ix.order[a]], records, n, ix.order[a]));
    if txn_index::conflicts_with(ix, e, u) {
        let b = choose|b: int| 0 <= b < ix.order.len() && #[trigger] ix.order[b] == u && !ix.order.skip(b).contains(target);
        assert(a < b) by {
            if b <= a {
                assert(ix.order.skip(b)[a - b] == target);
            }
        }
        assert(entry_follows(ix.entries[ix.order[b]], records, n, ix.order[b]));
        let row = choose|row: u32| txn_index::shared_rows(ix, e, u).contains(row);
        assert(e.affected.contains(row) && ix.entries[u].affected.contains(row));
        let i = choose|i: int| 0 <= i < n && (#[trigger] records[i]).txn == target && records[i].row_id == Some(row as u64);
        let j = choose|j: int| 0 <= j < n && (#[trigger] records[j]).txn == u && records[j].row_id == Some(row as u64);
        assert(written_before(records, n, ix.order[a], ix.order[b]));
        assert(records[i].txn == target && records[j].txn == u);
        assert(i < j);
    }
    if u != target && ix.entries.contains_key(u) && writes_after(records, target, u) {
        let (i, j) = choose|i: int, j: int| 0 <= i < j < records.len() && (#[trigger] records[i]).txn == target && (#[trigger] records[j]).txn == u
            && records[i].row_id is Some && records[j].row_id == records[i].row_id;
        assert(recovery::ids_fit(records[i]));
        let row = records[i].row_id->0 as u32;
        assert(ix.order.contains(u));
        let b = choose|b: int| 0 <= b < ix.order.len() && ix.order[b] == u;
        assert(entry_follows(ix.entries[ix.order[b]], records, n, ix.order[b]));
        assert(a < b) by {
            if b < a {
                assert(written_before(records, n, ix.order[b], ix.order[a]));
                assert(records[j].txn == u && records[i].txn == target);
            }
        }
        assert(!ix.order.skip(b).contains(target)) by {
            let rest = ix.order.skip(b);
            if rest.contains(target) {
                let x = choose|x: int| 0 <= x < rest.len() && rest[x] == target;
                assert(ix.order[b + x] == ix.order[a]);
            }
        }
        assert(names(records, n, target, row));
        assert(names(records, n, u, row));
        assert(e.affected.contains(row) && ix.entries[u].affected.contains(row));
        assert(txn_index::shared_rows(ix, e, u).contains(row));
    }
}

/// An undo without force is refused exactly when, in the log, a record of the
/// target and a later record of another transaction that is still retained
/// name the same row, whatever either does to it.
pub proof fn an_undo_is_refused_after_a_later_write(schema: payload::SchemaView, strict: bool, records: Seq<RecordView>, target: u128)
    requires
        recovery::applied_from(state::fresh_state(schema, strict), records, 0).1 is None,
        reopening::stand_together(records),
        recovery::all_ids_fit(records),
        recovery::applied_from(state::fresh_state(schema, strict), records, 0).0.txns.entries.contains_key(target),
    ensures
        ({
            let ix = recovery::applied_from(state::fresh_state(schema, strict), records, 0).0.txns;
            undo::has_conflicts(ix, target) <==> exists|u: u128| u != target && ix.entries.contains_key(u) && #[trigger] writes_after(records, target, u)
        }),
{
    the_index_follows_the_log(schema, strict, records);
    let ix = recovery::applied_from(state::fresh_state(schema, strict), records, 0).0.txns;
    lemma_refused(ix, records, target);
}

proof fn lemma_refused(ix: IndexView, records: Seq<RecordView>, target: u128)
    requires
        index_follows(ix, records, records.len() as int),
        recovery::all_ids_fit(records),
        ix.entries.contains_key(target),
    ensures
        undo::has_conflicts(ix, target) <==> exists|u: u128| u != target && ix.entries.contains_key(u) && #[trigger] writes_after(records, target, u),
{
    if undo::has_conflicts(ix, target) {
        let u = choose|u: u128| txn_index::conflicts_with(ix, ix.entries[target], u);
        lemma_conflict(ix, records, target, u);
    }
    if exists|u: u128| u != target && ix.entries.contains_key(u) && #[trigger] writes_after(records, target, u) {
        let u = choose|u: u128| u != target && ix.entries.contains_key(u) && #[trigger] writes_after(records, target, u);
        lemma_conflict(ix, records, target, u);
        assert(txn_index::conflicts_with(ix, ix.entries[target], u));
    }
}

/// The refusal names each transaction that is in the way, once, with the
/// number of rows that both name, and with when and by whom it was written as
/// its first record has it.
pub proof fn a_refusal_names_every_later_writer(schema: payload::SchemaView, strict: bool, records: Seq<RecordView>, target: u128, cs: Seq<ConflictView>)
    requires
        recovery::applied_from(state::fresh_state(schema, strict), records, 0).1 is None,
        reopening::stand_together(records),
        recovery::all_ids_fit(records),
        recovery::applied_from(state::fresh_state(schema, strict), records, 0).0.txns.entries.contains_key(target),
        ({
            let ix = recovery::applied_from(state::fresh_state(schema, strict), records, 0).0.txns;
            txn_index::all_conflicts(ix, ix.entries[target], cs)
        }),
    ensures
        ({
            let ix = recovery::applied_from(state::fresh_state(schema, strict), records, 0).0.txns;
            &&& forall|u: u128| u != target && ix.entries.contains_key(u) && #[trigger] writes_after(records, target, u)
                ==> exists|c: int| 0 <= c < cs.len() && (#[trigger] cs[c]).conflicting_txn == u
            &&& forall|c: int| 0 <= c < cs.len() ==> {
                let u = (#[trigger] cs[c]).conflicting_txn;
                &&& u != target
                &&& ix.entries.contains_key(u)
                &&& writes_after(records, target, u)
                &&& cs[c].row_count == named_by_both(records, target, u).len()
                &&& begun(records, records.len() as int, u, cs[c].ts, cs[c].principal)
            }
            &&& forall|a: int, b: int| 0 <= a < b < cs.len() ==> (#[trigger] cs[a]).conflicting_txn != (#[trigger] cs[b]).conflicting_txn && cs[a].ts <= cs[b].ts
        }),
{
    the_index_follows_the_log(schema, strict, records);
    let ix = recovery::applied_from(state::fresh_state(schema, strict), records, 0).0.txns;
    lemma_refusal(ix, records, target, cs);
}

proof fn lemma_named_conflict(ix: IndexView, records: Seq<RecordView>, target: u128, c: ConflictView)
    requires
        index_follows(ix, records, records.len() as int),
        recovery::all_ids_fit(records),
        ix.entries.contains_key(target),
        txn_index::describes(ix, ix.entries[target], c),
    ensures
        c.conflicting_txn != target,
        ix.entries.contains_key(c.conflicting_txn),
        writes_after(records, target, c.conflicting_txn),
        c.row_count == named_by_both(records, target, c.conflicting_txn).len(),
        begun(records, records.len() as int, c.conflicting_txn, c.ts, c.principal),
{
    let e = ix.entries[target];
    let n = records.len() as int;
    let u = c.conflicting_txn;
    lemma_conflict(ix, records, target, u);
    assert(ix.order.contains(target) && ix.order.contains(u));
    let a = choose|a: int| 0 <= a < ix.order.len() && ix.order[a] == target;
    let b = choose|b: int| 0 <= b < ix.order.len() && ix.order[b] == u;
    assert(entry_follows(ix.entries[ix.order[a]], records, n, ix.order[a]));
    assert(entry_follows(ix.entries[ix.order[b]], records, n, ix.order[b]));
    assert(txn_index::shared_rows(ix, e, u) =~= named_by_both(records, target, u)) by {
        assert forall|row: u32| txn_index::shared_rows(ix, e, u).contains(row) <==> named_by_both(records, target, u).contains(row) by {
            assert(e.affected.contains(row) <==> names(records, n, target, row));
            assert(ix.entries[u].affected.contains(row) <==> names(records, n, u, row));
        }
    }
}

proof fn lemma_refusal(ix: IndexView, records: Seq<RecordView>, target: u128, cs: Seq<ConflictView>)
    requires
        index_follows(ix, records, records.len() as int),
        recovery::all_ids_fit(records),
        ix.entries.contains_key(target),
        txn_index::all_conflicts(ix, ix.entries[target], cs),
    ensures
        forall|u: u128| u != target && ix.entries.contains_key(u) && #[trigger] writes_after(records, target, u)
            ==> exists|c: int| 0 <= c < cs.len() && (#[trigger] cs[c]).conflicting_txn == u,
        forall|c: int| 0 <= c < cs.len() ==> {
            let u = (#[trigger] cs[c]).conflicting_txn;
            &&& u != target
            &&& ix.entries.contains_key(u)
            &&& writes_after(records, target, u)
            &&& cs[c].row_count == named_by_both(records, target, u).len()
            &&& begun(records, records.len() as int, u, cs[c].ts, cs[c].principal)
        },
{
    let e = ix.entries[target];
    assert forall|u: u128| u != target && ix.entries.contains_key(u) && #[trigger] writes_after(records, target, u)
        implies exists|c: int| 0 <= c < cs.len() && (#[trigger] cs[c]).conflicting_txn == u by {
        lemma_conflict(ix, records, target, u);
        assert(txn_index::conflicts_with(ix, e, u));
    }
    assert forall|c: int| 0 <= c < cs.len() implies {
        let u = (#[trigger] cs[c]).conflicting_txn;
        &&& u != target
        &&& ix.entries.contains_key(u)
        &&& writes_after(records, target, u)
        &&& cs[c].row_count == named_by_both(records, target, u).len()
        &&& begun(records, records.len() as int, u, cs[c].ts, cs[c].principal)
    } by {
        assert(txn_index::describes(ix, e, cs[c]));
        lemma_named_conflict(ix, records, target, cs[c]);
    }
}

/// What an undo is refused for, conflicts aside: a collection without a log,
/// a transaction that is not retained, and one that has been undone; nothing
/// else. A transaction that no record of the log compensates has not been.
pub proof fn an_undo_needs_a_log_and_an_entry(schema: payload::SchemaView, strict: bool, c: CollectionView, records: Seq<RecordView>, target: u128)
    requires
        recovery::applied_from(state::fresh_state(schema, strict), records, 0).1 is None,
        reopening::stand_together(records),
        recovery::all_ids_fit(records),
        c.state == recovery::applied_from(state::fresh_state(schema, strict), records, 0).0,
    ensures
        undo::undo_refusal(c, target) is Some <==> c.wal is None || !c.state.txns.entries.contains_key(target) || c.state.txns.entries[target].undone_by is Some,
        c.wal is Some && c.state.txns.entries.contains_key(target) && (forall|i: int| 0 <= i < records.len() ==> (#[trigger] records[i]).caused_by != Some(target))
            ==> undo::undo_refusal(c, target) is None,
{
    the_index_follows_the_log(schema, strict, records);
    let ix = c.state.txns;
    if ix.entries.contains_key(target) {
        assert(ix.order.contains(target));
        let a = choose|a: int| 0 <= a < ix.order.len() && ix.order[a] == target;
        assert(entry_follows(ix.entries[ix.order[a]], records, records.len() as int, ix.order[a]));
    }
}

/// A compensation marks what it compensates: once its records have been
/// applied, the transaction that they name as their cause is undone by theirs,
/// if it is still retained, and no other transaction is.
pub proof fn a_compensation_marks_its_cause(s: StateView, group: Seq<RecordView>)
    requires
        snapshot::txns_listed(s.txns),
        group.len() > 0,
        !s.txns.order.contains(group[0].txn),
        recovery::applied_group(s, group).1 is None,
    ensures
        ({
            let ix = recovery::applied_group(s, group).0.txns;
            &&& forall|t: u128| #[trigger] ix.entries.contains_key(t) && t != group[0].txn ==> s.txns.entries.contains_key(t)
                && (group[0].caused_by == Some(t) ==> ix.entries[t].undone_by == Some(group[0].txn))
                && (group[0].caused_by != Some(t) ==> ix.entries[t] == s.txns.entries[t])
        }),
{
    snapshot::lemma_records_leave_txns(s, group, group.len());
}

/// The records of a transaction are those that carry its id, in order.
pub proof fn a_transactions_records_are_all_of_them(records: Seq<RecordView>, txn: u128, n: nat)
    requires
        n <= records.len(),
    ensures
        undo::of_txn(records, txn, n) == records.take(n as int).filter(|r: RecordView| r.txn == txn),
    decreases n,
{
    reveal(Seq::filter);
    let own = |r: RecordView| r.txn == txn;
    if n > 0 {
        a_transactions_records_are_all_of_them(records, txn, (n - 1) as nat);
        assert(records.take(n as int).drop_last() =~= records.take(n - 1));
    } else {
        assert(records.take(0).filter(own) =~= Seq::<RecordView>::empty());
    }
}

/// The history is the retained transactions from the newest to the oldest, no
/// more than asked for.
pub proof fn history_is_newest_first(ix: IndexView, limit: nat, r: Seq<TxnEntry>)
    requires
        snapshot::txns_listed(ix),
        undo::is_history(ix, limit, r),
    ensures
        r.len() == if limit < ix.order.len() { limit } else { ix.order.len() },
        forall|i: int| 0 <= i < r.len() ==> (#[trigger] r[i])@ == ix.entries[ix.order[ix.order.len() - 1 - i]] && r[i]@.txn_id == ix.order[ix.order.len() - 1 - i],
{
    lemma_chronological_all(ix, ix.order.len());
}

proof fn lemma_chronological_all(ix: IndexView, n: nat)
    requires
        snapshot::txns_listed(ix),
        n <= ix.order.len(),
    ensures
        txn_index::chronological(ix, n).len() == n,
        forall|i: int| 0 <= i < n ==> (#[trigger] txn_index::chronological(ix, n)[i]) == ix.entries[ix.order[i]],
    decreases n,
{
    if n > 0 {
        lemma_chronological_all(ix, (n - 1) as nat);
        assert(ix.entries.contains_key(ix.order[n - 1]));
    }
}

/// A record that is inverted does the opposite to the same row: an insertion
/// becomes a deletion, and a deletion an insertion of what was there; an update
/// writes what was there before. What the record wrote is kept, so that the
/// inverse can be inverted in turn.
pub proof fn an_inverse_does_the_opposite(r: RecordView, txn: u128, actor: WalActor, session: Seq<char>, seq: (u32, u32), caused_by: u128, ts: Timestamp)
    ensures
        ({
            let v = undo::inverted(r, txn, actor, session, seq, caused_by, ts);
            &&& r.op == WalOp::Insert ==> v.op == WalOp::Delete && v.payload is None && v.undo == r.payload
            &&& r.op == WalOp::Delete ==> v.op == WalOp::Insert && v.payload == r.undo && v.undo is None
            &&& r.op == WalOp::Update ==> v.op == WalOp::Update && v.payload == r.undo && v.undo == r.payload
            &&& v.row_id == r.row_id
            &&& v.key == r.key
            &&& v.doc_id == r.doc_id
            &&& v.doc_key == r.doc_key
            &&& v.chunk_ord == r.chunk_ord
            &&& v.params == r.params
            &&& v.coll == r.coll
            &&& v.txn == txn
            &&& v.actor == actor
            &&& v.session == session
            &&& v.txn_seq == seq
            &&& v.caused_by == Some(caused_by)
            &&& v.ts == ts
        }),
{
}

/// Recording a transaction adds its entry and changes no other; a mark that a
/// transaction was undone changes that entry alone.
pub proof fn an_entry_is_recorded_as_it_is(ix: IndexView, e: EntryView, t: u128, by: u128, other: u128)
    requires
        snapshot::txns_listed(ix),
        ix.limit >= 1,
        !ix.order.contains(e.txn_id),
    ensures
        txn_index::recorded(ix, e).entries.contains_key(e.txn_id),
        txn_index::recorded(ix, e).entries[e.txn_id] == e,
        other != e.txn_id && txn_index::recorded(ix, e).entries.contains_key(other) ==> ix.entries.contains_key(other) && txn_index::recorded(ix, e).entries[other]
            == ix.entries[other],
        ix.entries.contains_key(t) ==> txn_index::marked_undone(ix, t, by).entries[t].undone_by == Some(by) && txn_index::marked_undone(ix, t, by).entries[t].affected
            == ix.entries[t].affected,
        other != t && ix.entries.contains_key(other) ==> txn_index::marked_undone(ix, t, by).entries[other] == ix.entries[other],
        txn_index::marked_undone(ix, t, by).order == ix.order,
        !ix.entries.contains_key(t) ==> txn_index::marked_undone(ix, t, by) == ix,
{
    let order = ix.order.push(e.txn_id);
    if order.len() > ix.limit {
        assert(ix.order.len() > 0);
        assert(ix.order.contains(ix.order[0]));
        assert(order[0] == ix.order[0]);
    }
}

/// A conflict is described by the entry of the transaction that is in the way:
/// when it was written, by whom, what it did, and how many of the rows of the
/// target it affects.
pub proof fn a_conflict_is_described_by_its_entry(ix: IndexView, e: EntryView, c: ConflictView)
    requires
        txn_index::describes(ix, e, c),
    ensures
        ix.entries.contains_key(c.conflicting_txn),
        c.ts == ix.entries[c.conflicting_txn].ts,
        c.principal == ix.entries[c.conflicting_txn].principal,
        c.op_summary == ix.entries[c.conflicting_txn].op_summary,
        c.row_count == Set::new(|row: u32| e.affected.contains(row) && ix.entries[c.conflicting_txn].affected.contains(row)).len(),
        c.row_count > 0,
{
    let both = Set::new(|row: u32| e.affected.contains(row) && ix.entries[c.conflicting_txn].affected.contains(row));
    let shared = txn_index::shared_rows(ix, e, c.conflicting_txn);
    assert(shared =~= both);
    let r = choose|r: u32| shared.contains(r);
    assert(shared.remove(r).len() + 1 == shared.len());
}

} // verus!
