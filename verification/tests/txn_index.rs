use mara::clock::now;
use mara::ids::{PrincipalId, SessionId, TxnId};
use mara::lsn::Lsn;
use mara::txn_index::{TxnEntry, TxnIndex};
use roaring::RoaringBitmap;

fn entry(txn_id: TxnId, rows: &[u32]) -> TxnEntry {
    TxnEntry {
        txn_id,
        session: SessionId("s".into()),
        principal: PrincipalId("p".into()),
        ts: now(),
        lsn_range: (Lsn::zero(), Lsn::zero()),
        coll: "docs".into(),
        op_summary: "test".into(),
        affected_rows: rows.iter().copied().collect(),
        doc_ids: vec![],
        undone_by: None,
    }
}

#[test]
fn conflict_free_undo_when_no_later_txn_touched_the_rows() {
    let mut idx = TxnIndex::new(100);
    let a = TxnId::new();
    idx.record(entry(a, &[1, 2, 3]));
    assert!(idx.conflicts_for(idx.get(a).unwrap()).is_empty());
}

#[test]
fn detects_conflict_when_a_later_txn_touches_the_same_row() {
    let mut idx = TxnIndex::new(100);
    let a = TxnId::new();
    let b = TxnId::new();
    idx.record(entry(a, &[1, 2, 3]));
    idx.record(entry(b, &[2]));

    let conflicts = idx.conflicts_for(idx.get(a).unwrap());
    assert_eq!(conflicts.len(), 1);
    assert_eq!(conflicts[0].conflicting_txn, b);
    assert_eq!(conflicts[0].row_count, 1);
}

#[test]
fn retention_limit_forgets_the_oldest_transactions() {
    let mut idx = TxnIndex::new(2);
    let a = TxnId::new();
    let b = TxnId::new();
    let c = TxnId::new();
    idx.record(entry(a, &[1]));
    idx.record(entry(b, &[2]));
    idx.record(entry(c, &[3]));
    assert!(idx.get(a).is_none(), "oldest entry must be trimmed once the limit is exceeded");
    assert!(idx.get(b).is_some());
    assert!(idx.get(c).is_some());
}

#[test]
fn mark_undone_is_visible_on_the_original_entry() {
    let mut idx = TxnIndex::new(100);
    let a = TxnId::new();
    let undo_txn = TxnId::new();
    idx.record(entry(a, &[1]));
    idx.mark_undone(a, undo_txn);
    assert_eq!(idx.get(a).unwrap().undone_by, Some(undo_txn));
}

#[test]
fn chronological_order_matches_insertion() {
    let mut idx = TxnIndex::new(100);
    let a = TxnId::new();
    let b = TxnId::new();
    idx.record(entry(a, &[1]));
    idx.record(entry(b, &[2]));
    let order: Vec<TxnId> = idx.iter_chronological().into_iter().map(|e| e.txn_id).collect();
    assert_eq!(order, vec![a, b]);
}

#[test]
fn empty_affected_rows_never_conflicts() {
    let mut idx = TxnIndex::new(100);
    let a = TxnId::new();
    idx.record(entry(a, &[]));
    assert!(idx.conflicts_for(idx.get(a).unwrap()).is_empty());
    let _ = RoaringBitmap::new(); // sanity: affected_rows accepts an empty bitmap
}

#[test]
fn every_later_transaction_that_touched_a_row_is_a_conflict() {
    let mut idx = TxnIndex::new(100);
    let (a, b, c) = (TxnId::new(), TxnId::new(), TxnId::new());
    idx.record(entry(a, &[1, 2]));
    idx.record(entry(b, &[1]));
    idx.record(entry(c, &[1, 2, 3]));
    let conflicts = idx.conflicts_for(idx.get(a).unwrap());
    let found: Vec<(TxnId, u64)> = conflicts.iter().map(|c| (c.conflicting_txn, c.row_count)).collect();
    assert_eq!(found, vec![(b, 1), (c, 2)]);
    let found: Vec<TxnId> = idx.conflicts_for(idx.get(b).unwrap()).iter().map(|c| c.conflicting_txn).collect();
    assert_eq!(found, vec![c]);
    assert!(idx.conflicts_for(idx.get(c).unwrap()).is_empty());
}

#[test]
fn a_forgotten_transaction_comes_before_all_that_are_kept() {
    let mut idx = TxnIndex::new(1);
    let (a, b) = (TxnId::new(), TxnId::new());
    let forgotten = entry(a, &[1]);
    idx.record(entry(a, &[1]));
    idx.record(entry(b, &[1]));
    assert!(idx.get(a).is_none());
    assert_eq!(idx.conflicts_for(&forgotten)[0].conflicting_txn, b);
}
