//! Transactions as the unit of undo: the retained history, and the later
//! transactions that an undo would run over.

use crate::bitmap;
use crate::bitmap::{bitmap_clone, bitmap_intersect, bitmap_len};
use crate::ids::{DocId, PrincipalId, SessionId, TxnId};
use crate::lsn::Lsn;
use crate::model::Timestamp;
use crate::order;
use crate::order::stable_order;
use roaring::RoaringBitmap;
use std::collections::HashMap;
use vstd::prelude::*;

verus! {

/// What a positional undo counts over.
#[derive(Clone, Copy, PartialEq, Eq, Debug, Structural)]
pub enum UndoScope {
    /// Only the calling session's own transactions.
    Session,
    /// Any transaction against the target collection.
    Collection,
    /// Any transaction at all.
    Global,
}

/// A point in history to revert to.
#[derive(Clone, Copy, PartialEq, Debug, Structural)]
pub enum RevertPoint {
    /// Everything after this time.
    Timestamp(Timestamp),
    /// Everything after this log position.
    Lsn(Lsn),
    /// Everything after this transaction.
    Txn(TxnId),
}

/// What to undo.
#[derive(Clone, PartialEq, Debug)]
pub enum UndoTarget {
    /// Exactly one transaction.
    Txn(TxnId),
    /// The most recent versions of a document.
    Document { doc_key: String, versions: u32 },
    /// The last `n` transactions within a scope.
    LastN { n: u32, scope: UndoScope },
    /// Everything after a point in history.
    ToPoint(RevertPoint),
}

/// One transaction in the index.
pub struct TxnEntry {
    pub txn_id: TxnId,
    pub session: SessionId,
    pub principal: PrincipalId,
    pub ts: Timestamp,
    /// The first and the last position of the transaction's records.
    pub lsn_range: (Lsn, Lsn),
    pub coll: String,
    pub op_summary: String,
    pub affected_rows: RoaringBitmap,
    pub doc_ids: Vec<DocId>,
    /// The transaction that undid this one, if any.
    pub undone_by: Option<TxnId>,
}

/// The contents of a [`TxnEntry`].
pub struct EntryView {
    pub txn_id: u128,
    pub session: Seq<char>,
    pub principal: Seq<char>,
    pub ts: Timestamp,
    pub lsn_range: (u64, u64),
    pub coll: Seq<char>,
    pub op_summary: Seq<char>,
    pub affected: Set<u32>,
    pub doc_ids: Seq<u64>,
    pub undone_by: Option<u128>,
}

/// The numbers in a list of document ids.
pub open spec fn doc_numbers(s: Seq<DocId>) -> Seq<u64> {
    Seq::new(s.len(), |i: int| s[i].0)
}

impl View for TxnEntry {
    type V = EntryView;

    open spec fn view(&self) -> EntryView {
        EntryView {
            txn_id: self.txn_id.0,
            session: self.session.0@,
            principal: self.principal.0@,
            ts: self.ts,
            lsn_range: (self.lsn_range.0.0, self.lsn_range.1.0),
            coll: self.coll@,
            op_summary: self.op_summary@,
            affected: bitmap::rows_of(self.affected_rows),
            doc_ids: doc_numbers(self.doc_ids@),
            undone_by: match self.undone_by {
                Some(t) => Some(t.0),
                None => None,
            },
        }
    }
}

fn copy_docs(v: &Vec<DocId>) -> (r: Vec<DocId>)
    ensures
        r@ == v@,
{
    let mut out: Vec<DocId> = Vec::new();
    let mut i: usize = 0;
    while i < v.len()
        invariant
            i <= v@.len(),
            out@ == v@.take(i as int),
        decreases v@.len() - i,
    {
        out.push(v[i]);
        i += 1;
        assert(out@ =~= v@.take(i as int));
    }
    assert(out@ =~= v@);
    out
}

impl Clone for TxnEntry {
    fn clone(&self) -> (r: Self)
        ensures
            r@ == self@,
    {
        TxnEntry {
            txn_id: self.txn_id,
            session: SessionId(self.session.0.clone()),
            principal: PrincipalId(self.principal.0.clone()),
            ts: self.ts,
            lsn_range: self.lsn_range,
            coll: self.coll.clone(),
            op_summary: self.op_summary.clone(),
            affected_rows: bitmap_clone(&self.affected_rows),
            doc_ids: copy_docs(&self.doc_ids),
            undone_by: self.undone_by,
        }
    }
}

/// The contents of a list of entries.
pub open spec fn entry_views(s: Seq<TxnEntry>) -> Seq<EntryView> {
    Seq::new(s.len(), |i: int| s[i]@)
}

/// A later transaction that touched rows of an undo target.
#[derive(PartialEq, Eq, Debug)]
pub struct Conflict {
    pub conflicting_txn: TxnId,
    pub ts: Timestamp,
    pub principal: PrincipalId,
    pub op_summary: String,
    /// How many of the target's rows it touched.
    pub row_count: u64,
}

/// The contents of a [`Conflict`].
pub struct ConflictView {
    pub conflicting_txn: u128,
    pub ts: Timestamp,
    pub principal: Seq<char>,
    pub op_summary: Seq<char>,
    pub row_count: u64,
}

impl View for Conflict {
    type V = ConflictView;

    open spec fn view(&self) -> ConflictView {
        ConflictView {
            conflicting_txn: self.conflicting_txn.0,
            ts: self.ts,
            principal: self.principal.0@,
            op_summary: self.op_summary@,
            row_count: self.row_count,
        }
    }
}

/// The contents of a list of conflicts.
pub open spec fn conflict_views(s: Seq<Conflict>) -> Seq<ConflictView> {
    Seq::new(s.len(), |i: int| s[i]@)
}

/// What an undo reversed.
pub struct TxnSummary {
    pub txn_id: TxnId,
    pub op_summary: String,
    pub rows_reversed: u64,
}

/// What the transaction index holds: the retained entries, their ids oldest
/// first, and how many entries are retained.
pub struct IndexView {
    pub entries: Map<u128, EntryView>,
    pub order: Seq<u128>,
    pub limit: nat,
}

/// An index without transactions.
pub open spec fn empty_index(limit: nat) -> IndexView {
    IndexView {
        entries: Map::empty(),
        order: Seq::empty(),
        limit: if limit >= 1 { limit } else { 1 },
    }
}

/// The index after a transaction has been recorded: it comes last, and the
/// oldest is forgotten where there are more than the limit.
pub open spec fn recorded(ix: IndexView, e: EntryView) -> IndexView {
    let order = ix.order.push(e.txn_id);
    let entries = ix.entries.insert(e.txn_id, e);
    let full = order.len() > ix.limit;
    IndexView {
        entries: if full { entries.remove(order[0]) } else { entries },
        order: if full { order.skip(1) } else { order },
        limit: ix.limit,
    }
}

/// The index after `txn` has been marked as undone by `by`.
pub open spec fn marked_undone(ix: IndexView, txn: u128, by: u128) -> IndexView {
    if ix.entries.contains_key(txn) {
        IndexView {
            entries: ix.entries.insert(txn, EntryView { undone_by: Some(by), ..ix.entries[txn] }),
            ..ix
        }
    } else {
        ix
    }
}

/// Whether transaction `u` was recorded after transaction `t` was: a
/// transaction that is no longer retained comes before all that are.
pub open spec fn recorded_after(ix: IndexView, u: u128, t: u128) -> bool {
    exists|j: int| 0 <= j < ix.order.len() && #[trigger] ix.order[j] == u && !ix.order.skip(j).contains(t)
}

/// The target's rows that `txn` touched too.
pub open spec fn shared_rows(ix: IndexView, e: EntryView, txn: u128) -> Set<u32> {
    e.affected.intersect(ix.entries[txn].affected)
}

/// Whether `txn` is a later, retained transaction that touched rows of the
/// target.
pub open spec fn conflicts_with(ix: IndexView, e: EntryView, txn: u128) -> bool {
    &&& recorded_after(ix, txn, e.txn_id)
    &&& ix.entries.contains_key(txn)
    &&& exists|r: u32| shared_rows(ix, e, txn).contains(r)
}

/// Whether `c` describes the conflict with its transaction.
pub open spec fn describes(ix: IndexView, e: EntryView, c: ConflictView) -> bool {
    let t = ix.entries[c.conflicting_txn];
    &&& conflicts_with(ix, e, c.conflicting_txn)
    &&& c.ts == t.ts
    &&& c.principal == t.principal
    &&& c.op_summary == t.op_summary
    &&& shared_rows(ix, e, c.conflicting_txn).finite()
    &&& c.row_count == shared_rows(ix, e, c.conflicting_txn).len()
}

/// Whether `cs` are all the conflicts of a target, each once, oldest first.
pub open spec fn all_conflicts(ix: IndexView, e: EntryView, cs: Seq<ConflictView>) -> bool {
    &&& forall|i: int| 0 <= i < cs.len() ==> describes(ix, e, #[trigger] cs[i])
    &&& forall|t: u128| conflicts_with(ix, e, t) ==> exists|i: int| 0 <= i < cs.len() && (#[trigger] cs[i]).conflicting_txn == t
    &&& forall|i: int, j: int| 0 <= i < j < cs.len() ==> (#[trigger] cs[i]).conflicting_txn != (#[trigger] cs[j]).conflicting_txn
    &&& forall|i: int, j: int| 0 <= i < j < cs.len() ==> (#[trigger] cs[i]).ts <= (#[trigger] cs[j]).ts
}

/// The retained entries, oldest first.
pub open spec fn chronological(ix: IndexView, n: nat) -> Seq<EntryView>
    decreases n,
{
    if n == 0 {
        Seq::empty()
    } else if ix.entries.contains_key(ix.order[n - 1]) {
        chronological(ix, (n - 1) as nat).push(ix.entries[ix.order[n - 1]])
    } else {
        chronological(ix, (n - 1) as nat)
    }
}

/// The transaction index of one collection.
pub struct TxnIndex {
    entries: HashMap<u128, TxnEntry>,
    order: Vec<u128>,
    history_limit: usize,
}

impl View for TxnIndex {
    type V = IndexView;

    closed spec fn view(&self) -> IndexView {
        IndexView {
            entries: self.entries@.map_values(|e: TxnEntry| e@),
            order: self.order@,
            limit: self.history_limit as nat,
        }
    }
}

impl TxnIndex {
    /// Whether no more than the limit is retained.
    pub open spec fn wf(self) -> bool {
        self@.limit >= 1 && self@.order.len() <= self@.limit
    }

    /// An index that retains `history_limit` transactions, at least one.
    pub fn new(history_limit: usize) -> (r: Self)
        ensures
            r.wf(),
            r@ == empty_index(history_limit as nat),
    {
        let history_limit: usize = if history_limit < 1 { 1 } else { history_limit };
        let r = TxnIndex { entries: HashMap::new(), order: Vec::new(), history_limit };
        assert(r@.entries =~= Map::<u128, EntryView>::empty());
        assert(r@.order =~= Seq::<u128>::empty());
        r
    }

    /// Records a committed transaction.
    pub fn record(&mut self, entry: TxnEntry)
        requires
            old(self).wf(),
        ensures
            final(self).wf(),
            final(self)@ == recorded(old(self)@, entry@),
    {
        let ghost e = entry@;
        let txn = entry.txn_id.0;
        self.order.push(txn);
        self.entries.insert(txn, entry);
        assert(self.entries@.map_values(|x: TxnEntry| x@) =~= old(self)@.entries.insert(txn, e));
        if self.order.len() > self.history_limit {
            let ghost full = self.order@;
            let oldest = self.order.remove(0);
            assert(self.order@ =~= full.skip(1));
            let ghost kept = self.entries@;
            self.entries.remove(&oldest);
            assert(self.entries@ =~= kept.remove(oldest));
            assert(self.entries@.map_values(|x: TxnEntry| x@) =~= kept.map_values(|x: TxnEntry| x@).remove(oldest));
        }
    }

    /// The entry of a transaction, if it is retained.
    pub fn get(&self, txn_id: TxnId) -> (r: Option<&TxnEntry>)
        ensures
            r matches Some(e) ==> self@.entries.contains_key(txn_id.0) && self@.entries[txn_id.0] == e@,
            r is None ==> !self@.entries.contains_key(txn_id.0),
    {
        self.entries.get(&txn_id.0)
    }

    /// Marks a retained transaction as undone.
    pub fn mark_undone(&mut self, txn_id: TxnId, undone_by: TxnId)
        ensures
            final(self)@ == marked_undone(old(self)@, txn_id.0, undone_by.0),
    {
        match self.entries.remove(&txn_id.0) {
            Some(e) => {
                let mut entry = e;
                entry.undone_by = Some(undone_by);
                self.entries.insert(txn_id.0, entry);
                assert(self@.entries =~= marked_undone(old(self)@, txn_id.0, undone_by.0).entries);
            },
            None => {
                assert(self.entries@ =~= old(self).entries@);
            },
        }
    }

    /// The retained entries, oldest first.
    pub fn iter_chronological(&self) -> (r: Vec<TxnEntry>)
        ensures
            entry_views(r@) == chronological(self@, self@.order.len()),
    {
        let mut out: Vec<TxnEntry> = Vec::new();
        let mut i: usize = 0;
        assert(entry_views(out@) =~= Seq::<EntryView>::empty());
        while i < self.order.len()
            invariant
                i <= self.order@.len(),
                entry_views(out@) == chronological(self@, i as nat),
            decreases self.order@.len() - i,
        {
            let ghost was = out@;
            match self.entries.get(&self.order[i]) {
                Some(e) => {
                    out.push(e.clone());
                    assert(entry_views(out@) =~= entry_views(was).push(self@.entries[self.order@[i as int]]));
                },
                None => {},
            }
            i += 1;
        }
        out
    }
}

impl TxnIndex {
    /// Where the transactions begin that were recorded after `txn`.
    fn first_after(&self, txn: u128) -> (r: usize)
        ensures
            r <= self@.order.len(),
            forall|j: int| 0 <= j < self@.order.len() ==> (#[trigger] self@.order.skip(j).contains(txn) <==> j < r),
    {
        let mut r: usize = self.order.len();
        while r > 0 && self.order[r - 1] != txn
            invariant
                r <= self.order@.len(),
                forall|j: int| r <= j < self.order@.len() ==> #[trigger] self.order@[j] != txn,
            decreases r,
        {
            r -= 1;
        }
        proof {
            let order = self@.order;
            assert forall|j: int| 0 <= j < order.len() implies (#[trigger] order.skip(j).contains(txn) <==> j < r) by {
                if j < r {
                    assert(order.skip(j)[r - 1 - j] == txn);
                } else if order.skip(j).contains(txn) {
                    let k = choose|k: int| 0 <= k < order.skip(j).len() && order.skip(j)[k] == txn;
                    assert(order[j + k] == txn);
                }
            }
        }
        r
    }

    /// Every later transaction that has since touched one of the target's
    /// rows, oldest first.
    pub fn conflicts_for(&self, entry: &TxnEntry) -> (r: Vec<Conflict>)
        ensures
            all_conflicts(self@, entry@, conflict_views(r@)),
    {
        let ghost e = entry@;
        let ghost ix = self@;
        let start = self.first_after(entry.txn_id.0);
        let mut found: Vec<Conflict> = Vec::new();
        let mut keys: Vec<i128> = Vec::new();
        let mut i: usize = start;
        while i < self.order.len()
            invariant
                start <= i <= self.order@.len(),
                ix == self@,
                e == entry@,
                forall|j: int| 0 <= j < ix.order.len() ==> (#[trigger] ix.order.skip(j).contains(e.txn_id) <==> j < start),
                keys@.len() == found@.len(),
                forall|j: int| 0 <= j < found@.len() ==> describes(ix, e, (#[trigger] found@[j])@) && keys@[j] == found@[j].ts,
                forall|a: int, b: int| 0 <= a < b < found@.len() ==> (#[trigger] found@[a]).conflicting_txn.0 != (#[trigger] found@[b]).conflicting_txn.0,
                forall|k: int| start <= k < i && conflicts_with(ix, e, #[trigger] ix.order[k]) ==> exists|j: int|
                    0 <= j < found@.len() && (#[trigger] found@[j]).conflicting_txn.0 == ix.order[k],
            decreases self.order@.len() - i,
        {
            let txn = self.order[i];
            let ghost was = found@;
            let mut at: usize = 0;
            while at < found.len() && found[at].conflicting_txn.0 != txn
                invariant
                    at <= found@.len(),
                    found@ == was,
                    forall|j: int| 0 <= j < at ==> (#[trigger] was[j]).conflicting_txn.0 != txn,
                decreases found@.len() - at,
            {
                at += 1;
            }
            if at == found.len() {
                match self.entries.get(&txn) {
                    Some(t) => {
                        let mut shared = bitmap_clone(&entry.affected_rows);
                        bitmap_intersect(&mut shared, &t.affected_rows);
                        assert(bitmap::rows_of(shared) == shared_rows(ix, e, txn));
                        let row_count = bitmap_len(&shared);
                        if row_count > 0 {
                            let c = Conflict {
                                conflicting_txn: TxnId(txn),
                                ts: t.ts,
                                principal: PrincipalId(t.principal.0.clone()),
                                op_summary: t.op_summary.clone(),
                                row_count,
                            };
                            proof {
                                assert(shared_rows(ix, e, txn).contains(shared_rows(ix, e, txn).choose()));
                                assert(!ix.order.skip(i as int).contains(e.txn_id));
                                assert(recorded_after(ix, ix.order[i as int], e.txn_id));
                                assert(describes(ix, e, c@));
                            }
                            keys.push(t.ts);
                            found.push(c);
                        } else {
                            proof {
                                if exists|r: u32| shared_rows(ix, e, txn).contains(r) {
                                    let r = choose|r: u32| shared_rows(ix, e, txn).contains(r);
                                    assert(shared_rows(ix, e, txn).remove(r).len() + 1 == shared_rows(ix, e, txn).len());
                                }
                            }
                        }
                    },
                    None => {},
                }
            }
            proof {
                assert forall|k: int| start <= k < i + 1 && conflicts_with(ix, e, #[trigger] ix.order[k]) implies exists|j: int|
                    0 <= j < found@.len() && (#[trigger] found@[j]).conflicting_txn.0 == ix.order[k] by {
                    if k < i {
                        let j = choose|j: int| 0 <= j < was.len() && (#[trigger] was[j]).conflicting_txn.0 == ix.order[k];
                        assert(found@[j] == was[j]);
                    } else {
                        assert(found@[at as int].conflicting_txn.0 == txn);
                    }
                }
            }
            i += 1;
        }
        let p = stable_order(&keys);
        let mut out: Vec<Conflict> = Vec::new();
        let mut i: usize = 0;
        while i < p.len()
            invariant
                i <= p@.len(),
                order::stable_order_of(keys@, p@),
                keys@.len() == found@.len(),
                out@.len() == i,
                forall|j: int| 0 <= j < i ==> (#[trigger] out@[j])@ == found@[p@[j] as int]@,
            decreases p@.len() - i,
        {
            let c = &found[p[i]];
            out.push(Conflict {
                conflicting_txn: c.conflicting_txn,
                ts: c.ts,
                principal: PrincipalId(c.principal.0.clone()),
                op_summary: c.op_summary.clone(),
                row_count: c.row_count,
            });
            i += 1;
        }
        proof {
            let cs = conflict_views(out@);
            assert forall|i: int| 0 <= i < cs.len() implies describes(ix, e, #[trigger] cs[i]) by {
                assert(out@[i]@ == found@[p@[i] as int]@);
            }
            assert forall|t: u128| conflicts_with(ix, e, t) implies exists|i: int| 0 <= i < cs.len() && (#[trigger] cs[i]).conflicting_txn == t by {
                let k = choose|k: int| 0 <= k < ix.order.len() && #[trigger] ix.order[k] == t && !ix.order.skip(k).contains(e.txn_id);
                assert(start <= k);
                let j = choose|j: int| 0 <= j < found@.len() && (#[trigger] found@[j]).conflicting_txn.0 == ix.order[k];
                assert(p@.contains(j as usize));
                let i = choose|i: int| 0 <= i < p@.len() && p@[i] == j as usize;
                assert(out@[i]@ == found@[j]@);
                assert(cs[i].conflicting_txn == t);
            }
            assert forall|i: int, j: int| 0 <= i < j < cs.len() implies (#[trigger] cs[i]).conflicting_txn != (#[trigger] cs[j]).conflicting_txn
                && cs[i].ts <= cs[j].ts by {
                assert(order::comes_first(keys@, p@[i], p@[j]));
                let a = p@[i] as int;
                let b = p@[j] as int;
                assert(out@[i]@ == found@[a]@);
                assert(out@[j]@ == found@[b]@);
                assert(keys@[a] == found@[a].ts && keys@[b] == found@[b].ts);
                if a < b {
                    assert(found@[a].conflicting_txn.0 != found@[b].conflicting_txn.0);
                } else {
                    assert(found@[b].conflicting_txn.0 != found@[a].conflicting_txn.0);
                }
            }
        }
        out
    }
}

/// Undoing a transaction meets no conflict exactly when, of the retained
/// transactions, none that was recorded after it touched one of its rows.
pub proof fn conflict_free_iff_last_writer(ix: IndexView, e: EntryView, cs: Seq<ConflictView>)
    requires
        all_conflicts(ix, e, cs),
    ensures
        cs.len() == 0 <==> forall|u: u128, r: u32| recorded_after(ix, u, e.txn_id) && #[trigger] ix.entries.contains_key(u)
            && ix.entries[u].affected.contains(r) ==> !(#[trigger] e.affected.contains(r)),
{
    if cs.len() > 0 {
        assert(describes(ix, e, cs[0]));
        let u = cs[0].conflicting_txn;
        let r = choose|r: u32| shared_rows(ix, e, u).contains(r);
        assert(ix.entries.contains_key(u) && e.affected.contains(r));
    } else {
        assert forall|u: u128, r: u32| recorded_after(ix, u, e.txn_id) && #[trigger] ix.entries.contains_key(u)
            && ix.entries[u].affected.contains(r) implies !(#[trigger] e.affected.contains(r)) by {
            if e.affected.contains(r) {
                assert(shared_rows(ix, e, u).contains(r));
                assert(conflicts_with(ix, e, u));
            }
        }
    }
}

/// A transaction that was just recorded has no conflicts.
pub proof fn fresh_transaction_has_no_conflicts(ix: IndexView, e: EntryView, t: u128)
    requires
        ix.limit >= 1,
        ix.order.len() <= ix.limit,
    ensures
        !conflicts_with(recorded(ix, e), e, t),
{
    let now = recorded(ix, e);
    if recorded_after(now, t, e.txn_id) {
        let j = choose|j: int| 0 <= j < now.order.len() && #[trigger] now.order[j] == t && !now.order.skip(j).contains(e.txn_id);
        let rest = now.order.skip(j);
        assert(rest[rest.len() - 1] == e.txn_id);
    }
}

/// A transaction recorded later conflicts with an earlier one exactly when
/// they share a row.
pub proof fn later_transaction_conflicts_iff_rows_shared(ix: IndexView, earlier: EntryView, later: EntryView)
    requires
        earlier.txn_id != later.txn_id,
        ix.limit >= 1,
        ix.order.len() <= ix.limit,
        !ix.order.contains(later.txn_id),
    ensures
        conflicts_with(recorded(ix, later), earlier, later.txn_id) <==> exists|r: u32| earlier.affected.contains(r) && later.affected.contains(r),
{
    let now = recorded(ix, later);
    let order = ix.order.push(later.txn_id);
    let n = now.order.len() - 1;
    assert(now.entries.contains_key(later.txn_id) && now.entries[later.txn_id] == later) by {
        if order.len() > ix.limit {
            assert(order[0] == ix.order[0]);
            assert(ix.order.contains(order[0]));
        }
    }
    assert(now.order[n] == later.txn_id);
    assert(!now.order.skip(n).contains(earlier.txn_id)) by {
        assert(now.order.skip(n) =~= seq![later.txn_id]);
    }
    assert(recorded_after(now, later.txn_id, earlier.txn_id));
    if exists|r: u32| earlier.affected.contains(r) && later.affected.contains(r) {
        let r = choose|r: u32| earlier.affected.contains(r) && later.affected.contains(r);
        assert(shared_rows(now, earlier, later.txn_id).contains(r));
    }
    if conflicts_with(now, earlier, later.txn_id) {
        let r = choose|r: u32| shared_rows(now, earlier, later.txn_id).contains(r);
        assert(earlier.affected.contains(r) && later.affected.contains(r));
    }
}

/// A conflict stays one when further transactions are recorded, as long as it
/// is retained: later writers of a row do not hide the ones before them.
pub proof fn conflicts_are_not_hidden(ix: IndexView, target: EntryView, e: EntryView, t: u128)
    requires
        conflicts_with(ix, target, t),
        e.txn_id != target.txn_id,
        e.txn_id != t,
        ix.order.len() <= ix.limit,
        recorded(ix, e).entries.contains_key(t),
    ensures
        conflicts_with(recorded(ix, e), target, t),
{
    let now = recorded(ix, e);
    let pushed = ix.order.push(e.txn_id);
    let j = choose|j: int| 0 <= j < ix.order.len() && #[trigger] ix.order[j] == t && !ix.order.skip(j).contains(target.txn_id);
    let full = pushed.len() > ix.limit;
    if full && j == 0 {
        assert(pushed[0] == t);
        assert(!now.entries.contains_key(t));
    }
    let at = if full { j - 1 } else { j };
    assert(now.order[at] == t);
    assert(!now.order.skip(at).contains(target.txn_id)) by {
        let rest = now.order.skip(at);
        if rest.contains(target.txn_id) {
            let k = choose|k: int| 0 <= k < rest.len() && rest[k] == target.txn_id;
            assert(pushed[j + k] == target.txn_id);
            assert(j + k < ix.order.len());
            assert(ix.order.skip(j)[k] == target.txn_id);
        }
    }
    let r = choose|r: u32| shared_rows(ix, target, t).contains(r);
    assert(now.entries[t] == ix.entries[t]);
    assert(shared_rows(now, target, t).contains(r));
}

/// No more than the limit is ever retained, the newest always is, and of the
/// others only the oldest is forgotten.
pub proof fn retention_forgets_only_the_oldest(ix: IndexView, e: EntryView)
    requires
        ix.limit >= 1,
        ix.order.len() <= ix.limit,
    ensures
        recorded(ix, e).order.len() <= ix.limit,
        recorded(ix, e).order.last() == e.txn_id,
        ix.order.len() < ix.limit ==> recorded(ix, e).order == ix.order.push(e.txn_id),
        ix.order.len() == ix.limit ==> recorded(ix, e).order == ix.order.push(e.txn_id).skip(1),
        forall|t: u128| #[trigger] ix.entries.contains_key(t) && !recorded(ix, e).entries.contains_key(t) ==> t == ix.order.push(e.txn_id)[0],
{
}

} // verus!
