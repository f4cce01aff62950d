//! Undo: the inverse of a transaction's records, in reverse order, written
//! forward as a new transaction. Nothing is rewound, so an undo survives a
//! crash and reaches followers like any other write, and can itself be undone.

use crate::collection::{Collection, CollectionView};
use crate::draft;
use crate::draft::actor;
use crate::error::{StorageError, StorageErrorView, StorageResult};
use crate::ids;
use crate::ids::{SessionId, TxnId};
use crate::lsn::Lsn;
use crate::model::{RequestCtx, Timestamp};
use crate::order;
use crate::order::stable_order;
use crate::text::copy_opt;
use crate::txn_index;
use crate::txn_index::{ConflictView, IndexView, TxnEntry, TxnSummary};
use crate::wal;
use crate::wal::{copy_opt_image, copy_opt_meta, ImageView, RecordView, WalActor, WalOp, WalRecord, WAL_FORMAT_VERSION};
use vstd::prelude::*;
use vstd::string::*;

verus! {

/// The operation that reverses an operation.
pub open spec fn inverse_op(op: WalOp) -> WalOp {
    match op {
        WalOp::Insert => WalOp::Delete,
        WalOp::Delete => WalOp::Insert,
        _ => op,
    }
}

/// What the inverse of a record writes.
pub open spec fn inverse_payload(r: RecordView) -> Option<ImageView> {
    match r.op {
        WalOp::Insert => None,
        WalOp::Delete => r.undo,
        WalOp::Update => r.undo,
        _ => r.payload,
    }
}

/// What the inverse of a record keeps so that it can be reversed in turn.
pub open spec fn inverse_undo(r: RecordView) -> Option<ImageView> {
    match r.op {
        WalOp::Insert => r.payload,
        WalOp::Delete => None,
        WalOp::Update => r.payload,
        _ => r.undo,
    }
}

/// The record that reverses `r`: the same row, key, document and metadata,
/// with what was written and what was there before exchanged.
pub open spec fn inverted(r: RecordView, txn: u128, actor: WalActor, session: Seq<char>, seq: (u32, u32), caused_by: u128, ts: Timestamp) -> RecordView {
    RecordView {
        v: WAL_FORMAT_VERSION,
        lsn: 0,
        ts,
        txn,
        actor,
        session,
        op: inverse_op(r.op),
        payload: inverse_payload(r),
        undo: inverse_undo(r),
        caused_by: Some(caused_by),
        txn_seq: seq,
        checksum: Seq::empty(),
        ..r
    }
}

/// Builds the record that reverses `original`.
pub fn invert_record(original: &WalRecord, new_txn: TxnId, actor: &WalActor, session: &SessionId, seq: (u32, u32), caused_by: TxnId, ts: Timestamp) -> (r: WalRecord)
    ensures
        r@ == inverted(original@, new_txn.0, *actor, session.0@, seq, caused_by.0, ts),
{
    let (op, payload, undo) = match original.op {
        WalOp::Insert => (WalOp::Delete, None, copy_opt_image(&original.payload)),
        WalOp::Delete => (WalOp::Insert, copy_opt_image(&original.undo), None),
        WalOp::Update => (WalOp::Update, copy_opt_image(&original.undo), copy_opt_image(&original.payload)),
        other => (other, copy_opt_image(&original.payload), copy_opt_image(&original.undo)),
    };
    WalRecord {
        v: WAL_FORMAT_VERSION,
        lsn: Lsn::zero(),
        ts,
        txn: new_txn,
        actor: actor.clone(),
        session: SessionId(session.0.clone()),
        coll: original.coll.clone(),
        op,
        row_id: original.row_id,
        key: copy_opt(&original.key),
        doc_id: original.doc_id,
        doc_key: copy_opt(&original.doc_key),
        chunk_ord: original.chunk_ord,
        payload,
        undo,
        caused_by: Some(caused_by),
        txn_seq: seq,
        params: copy_opt_meta(&original.params),
        checksum: String::new(),
    }
}

/// Those of the first `n` records that belong to a transaction, in order.
pub open spec fn of_txn(records: Seq<RecordView>, txn: u128, n: nat) -> Seq<RecordView>
    decreases n,
{
    if n == 0 {
        Seq::empty()
    } else if records[n - 1].txn == txn {
        of_txn(records, txn, (n - 1) as nat).push(records[n - 1])
    } else {
        of_txn(records, txn, (n - 1) as nat)
    }
}

/// The records' positions, as sort keys.
pub open spec fn positions(records: Seq<RecordView>) -> Seq<i128> {
    Seq::new(records.len(), |i: int| records[i].lsn as i128)
}

/// The records that reverse `records`, taken from the last position to the
/// first; `p` puts them in the order of their positions.
pub open spec fn compensation(records: Seq<RecordView>, p: Seq<usize>, ctx: RequestCtx, txn: u128, caused_by: u128, stamps: Seq<Timestamp>) -> Seq<RecordView> {
    Seq::new(
        records.len(),
        |i: int| inverted(
            records[p[records.len() - 1 - i] as int],
            txn,
            draft::actor_of(ctx),
            ctx.session.0@,
            ((i + 1) as u32, records.len() as u32),
            caused_by,
            stamps[i],
        ),
    )
}

/// The refusal of a transaction that the index does not know.
pub open spec fn no_such_txn(t: u128) -> Seq<char> {
    "no such transaction "@ + ids::uuid_text(t) + " (it may have been trimmed by undo.txn_history_limit, or never existed)"@
}

/// The refusal of a transaction that has been undone before.
pub open spec fn already_undone(t: u128, by: u128) -> Seq<char> {
    "transaction "@ + ids::uuid_text(t) + " was already undone by "@ + ids::uuid_text(by)
        + "; undo is idempotent-by-inspection, not double-appliable"@
}

/// The refusal of a transaction whose records have left the log.
pub open spec fn no_records_left(t: u128) -> Seq<char> {
    "transaction "@ + ids::uuid_text(t) + " has no records left in the WAL (likely rotated out by wal.retention_days)"@
}

/// Why a transaction cannot be undone, conflicts aside.
pub open spec fn undo_refusal(c: CollectionView, t: u128) -> Option<Seq<char>> {
    if c.wal is None {
        Some("undo requires a durable (WAL-backed) collection"@)
    } else if !c.state.txns.entries.contains_key(t) {
        Some(no_such_txn(t))
    } else {
        match c.state.txns.entries[t].undone_by {
            Some(by) => Some(already_undone(t, by)),
            None => None,
        }
    }
}

/// Whether a later transaction has touched one of the target's rows.
pub open spec fn has_conflicts(ix: IndexView, t: u128) -> bool {
    exists|u: u128| txn_index::conflicts_with(ix, ix.entries[t], u)
}

/// Whether `e` is the refusal of an undo over its conflicts.
pub open spec fn is_conflict(ix: IndexView, t: u128, e: StorageErrorView) -> bool {
    exists|cs: Seq<ConflictView>| e == (StorageErrorView::UndoConflict { txn: t, conflicts: cs })
        && #[trigger] txn_index::all_conflicts(ix, ix.entries[t], cs)
}

/// A planned undo.
pub struct UndoPlan {
    pub records: Vec<WalRecord>,
    pub summary: TxnSummary,
}

impl Collection {
    /// Whether a transaction may be undone; its entry if so. Unless `force`
    /// is set, one whose rows a later transaction has touched may not, and
    /// the refusal names every such transaction.
    pub fn check_undo(&self, target: TxnId, force: bool) -> (r: StorageResult<TxnEntry>)
        ensures
            r matches Ok(e) ==> undo_refusal(self@, target.0) is None && (force || !has_conflicts(self@.state.txns, target.0))
                && e@ == self@.state.txns.entries[target.0],
            r matches Err(e) ==> match undo_refusal(self@, target.0) {
                Some(m) => e@ == StorageErrorView::InvalidArgument(m),
                None => !force && has_conflicts(self@.state.txns, target.0) && is_conflict(self@.state.txns, target.0, e@),
            },
    {
        if self.wal.is_none() {
            return Err(StorageError::InvalidArgument("undo requires a durable (WAL-backed) collection".to_owned()));
        }
        let entry = match self.inner.txn_index.get(target) {
            Some(e) => e.clone(),
            None => {
                let mut m = "no such transaction ".to_owned();
                let t = target.to_text();
                m.append(t.as_str());
                m.append(" (it may have been trimmed by undo.txn_history_limit, or never existed)");
                return Err(StorageError::InvalidArgument(m));
            },
        };
        match entry.undone_by {
            Some(by) => {
                let mut m = "transaction ".to_owned();
                let t = target.to_text();
                let b = by.to_text();
                m.append(t.as_str());
                m.append(" was already undone by ");
                m.append(b.as_str());
                m.append("; undo is idempotent-by-inspection, not double-appliable");
                return Err(StorageError::InvalidArgument(m));
            },
            None => {},
        }
        if !force {
            let ghost ix = self@.state.txns;
            let conflicts = self.inner.txn_index.conflicts_for(&entry);
            let ghost cs = txn_index::conflict_views(conflicts@);
            if conflicts.len() > 0 {
                proof {
                    assert(txn_index::describes(ix, entry@, cs[0]));
                    assert(txn_index::conflicts_with(ix, ix.entries[target.0], cs[0].conflicting_txn));
                    assert(txn_index::all_conflicts(ix, ix.entries[target.0], cs));
                }
                return Err(StorageError::UndoConflict { txn: target, conflicts });
            }
            proof {
                if has_conflicts(ix, target.0) {
                    let u = choose|u: u128| txn_index::conflicts_with(ix, ix.entries[target.0], u);
                    assert(exists|i: int| 0 <= i < cs.len() && (#[trigger] cs[i]).conflicting_txn == u);
                }
            }
        }
        Ok(entry)
    }

    /// Plans the undo of a transaction from the records in the log.
    pub fn plan_undo(&self, ctx: &RequestCtx, target: TxnId, force: bool, logged: &Vec<WalRecord>, new_txn: TxnId, stamps: &Vec<Timestamp>) -> (r: StorageResult<UndoPlan>)
        requires
            of_txn(wal::record_views(logged@), target.0, logged@.len()).len() <= u32::MAX,
            stamps@.len() >= of_txn(wal::record_views(logged@), target.0, logged@.len()).len(),
        ensures
            ({
                let records = of_txn(wal::record_views(logged@), target.0, logged@.len());
                let allowed = undo_refusal(self@, target.0) is None && (force || !has_conflicts(self@.state.txns, target.0));
                match r {
                    Ok(plan) => {
                        &&& allowed
                        &&& records.len() > 0
                        &&& plan.summary.txn_id == target
                        &&& plan.summary.op_summary@ == self@.state.txns.entries[target.0].op_summary
                        &&& plan.summary.rows_reversed == records.len()
                        &&& exists|p: Seq<usize>| #[trigger] order::stable_order_of(positions(records), p)
                            && wal::record_views(plan.records@) == compensation(records, p, *ctx, new_txn.0, target.0, stamps@)
                    },
                    Err(e) => match undo_refusal(self@, target.0) {
                        Some(m) => e@ == StorageErrorView::InvalidArgument(m),
                        None => if !allowed {
                            is_conflict(self@.state.txns, target.0, e@)
                        } else {
                            records.len() == 0 && e@ == StorageErrorView::InvalidArgument(no_records_left(target.0))
                        },
                    },
                }
            }),
    {
        let entry = match self.check_undo(target, force) {
            Ok(e) => e,
            Err(e) => { return Err(e); },
        };
        let ghost views = wal::record_views(logged@);
        let ghost want = of_txn(views, target.0, logged@.len());
        let mut own: Vec<usize> = Vec::new();
        let mut keys: Vec<i128> = Vec::new();
        let mut i: usize = 0;
        while i < logged.len()
            invariant
                i <= logged@.len(),
                views == wal::record_views(logged@),
                own@.len() == keys@.len(),
                own@.len() <= i,
                own@.len() == of_txn(views, target.0, i as nat).len(),
                forall|k: int| 0 <= k < own@.len() ==> #[trigger] own@[k] < logged@.len()
                    && views[own@[k] as int] == of_txn(views, target.0, i as nat)[k],
                keys@ == positions(of_txn(views, target.0, i as nat)),
            decreases logged@.len() - i,
        {
            assert(views[i as int] == logged@[i as int]@);
            let ghost prior = of_txn(views, target.0, i as nat);
            if logged[i].txn == target {
                own.push(i);
                keys.push(logged[i].lsn.0 as i128);
                assert(keys@ =~= positions(prior.push(views[i as int])));
            }
            i += 1;
        }
        if own.len() == 0 {
            let mut m = "transaction ".to_owned();
            let t = target.to_text();
            m.append(t.as_str());
            m.append(" has no records left in the WAL (likely rotated out by wal.retention_days)");
            return Err(StorageError::InvalidArgument(m));
        }
        let order = stable_order(&keys);
        let n = own.len();
        let who = actor(ctx);
        let ghost all = compensation(want, order@, *ctx, new_txn.0, target.0, stamps@);
        let mut records: Vec<WalRecord> = Vec::new();
        let mut j: usize = 0;
        assert(wal::record_views(records@) =~= all.take(0));
        while j < n
            invariant
                j <= n,
                n == own@.len(),
                n <= u32::MAX,
                views == wal::record_views(logged@),
                want.len() == n,
                stamps@.len() >= n,
                who == draft::actor_of(*ctx),
                keys@ == positions(want),
                order::stable_order_of(keys@, order@),
                forall|k: int| 0 <= k < n ==> #[trigger] own@[k] < logged@.len() && views[own@[k] as int] == want[k],
                all == compensation(want, order@, *ctx, new_txn.0, target.0, stamps@),
                records@.len() == j,
                wal::record_views(records@) == all.take(j as int),
            decreases n - j,
        {
            let at = order[n - 1 - j];
            let ghost was = records@;
            assert(own@[at as int] < logged@.len());
            let original = &logged[own[at]];
            assert(original@ == want[at as int]);
            records.push(invert_record(original, new_txn, &who, &ctx.session, (j as u32 + 1, n as u32), target, stamps[j]));
            proof {
                assert(records@[j as int]@ == all[j as int]);
                assert(wal::record_views(records@) =~= wal::record_views(was).push(all[j as int]));
                assert(all.take(j + 1) =~= all.take(j as int).push(all[j as int]));
            }
            j += 1;
        }
        assert(all.take(j as int) =~= all);
        let summary = TxnSummary { txn_id: target, op_summary: entry.op_summary, rows_reversed: n as u64 };
        Ok(UndoPlan { records, summary })
    }

    /// The most recent transactions, newest first, at most `limit`.
    pub fn history(&self, limit: usize) -> (r: Vec<TxnEntry>)
        ensures
            is_history(self@.state.txns, limit as nat, r@),
    {
        let all = self.inner.txn_index.iter_chronological();
        let ghost views = txn_index::entry_views(all@);
        let mut out: Vec<TxnEntry> = Vec::new();
        while out.len() < all.len() && out.len() < limit
            invariant
                out@.len() <= all@.len(),
                out@.len() <= limit,
                views == txn_index::entry_views(all@),
                forall|i: int| 0 <= i < out@.len() ==> (#[trigger] out@[i])@ == views[views.len() - 1 - i],
            decreases all@.len() - out@.len(),
        {
            let at = all.len() - 1 - out.len();
            out.push(all[at].clone());
        }
        out
    }
}

/// Whether `r` holds the newest retained transactions, newest first, at most
/// `limit` of them.
pub open spec fn is_history(ix: IndexView, limit: nat, r: Seq<TxnEntry>) -> bool {
    let all = txn_index::chronological(ix, ix.order.len());
    &&& r.len() == if limit < all.len() { limit } else { all.len() }
    &&& forall|i: int| 0 <= i < r.len() ==> (#[trigger] r[i])@ == all[all.len() - 1 - i]
}

/// Reversing a reversal gives back the operation, what it wrote and what it
/// kept, on the same row: undoing an undo is nothing special. An insert keeps
/// nothing and a delete writes nothing.
pub proof fn inverting_twice_restores(
    r: RecordView,
    t1: u128, a1: WalActor, s1: Seq<char>, q1: (u32, u32), c1: u128, ts1: Timestamp,
    t2: u128, a2: WalActor, s2: Seq<char>, q2: (u32, u32), c2: u128, ts2: Timestamp,
)
    requires
        r.op == WalOp::Insert ==> r.undo is None,
        r.op == WalOp::Delete ==> r.payload is None,
    ensures
        ({
            let twice = inverted(inverted(r, t1, a1, s1, q1, c1, ts1), t2, a2, s2, q2, c2, ts2);
            &&& twice.op == r.op
            &&& twice.payload == r.payload
            &&& twice.undo == r.undo
            &&& twice.row_id == r.row_id
            &&& twice.key == r.key
            &&& twice.doc_id == r.doc_id
            &&& twice.doc_key == r.doc_key
            &&& twice.chunk_ord == r.chunk_ord
            &&& twice.params == r.params
            &&& twice.coll == r.coll
        }),
{
}

} // verus!
