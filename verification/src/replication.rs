//! Following a leader: the leader's records from a cursor on, and applying
//! them on a follower.

use crate::change;
use crate::change::{BatchView, ChangeBatch};
use crate::collection;
use crate::collection::{Collection, CollectionView};
use crate::error::{StorageError, StorageErrorView, StorageResult};
use crate::lsn;
use crate::lsn::Lsn;
use crate::recovery;
use crate::recovery::{apply_replayed_records, change_events_from_records};
use crate::state::StateView;
use crate::wal;
use crate::wal::{replay_all, verify_checksum, ReadRecord, RecordView, SegmentLines, WalRecord};
use vstd::prelude::*;
use vstd::slice::slice_subrange;
use vstd::string::*;

verus! {

/// A line that a leader sent: the record read from it, or why none could be.
pub type ReceivedLine = Result<ReadRecord, String>;

/// What is wrong with a received line, if anything.
pub open spec fn line_fault(line: ReceivedLine) -> Option<Seq<char>> {
    match line {
        Err(e) => Some("malformed replicated WAL line: "@ + e@),
        Ok(read) => if wal::sealed(read) {
            None
        } else {
            Some("replicated WAL line for lsn "@ + lsn::lsn_text(read.record.lsn.0) + " failed checksum verification"@)
        },
    }
}

/// The first faulty line from `from` on, the number of lines if there is none.
pub open spec fn first_fault(lines: Seq<ReceivedLine>, from: nat) -> nat
    decreases lines.len() - from,
{
    if from >= lines.len() || line_fault(lines[from as int]) is Some {
        from
    } else {
        first_fault(lines, from + 1)
    }
}

/// The records of lines that were all read.
pub open spec fn line_records(lines: Seq<ReceivedLine>) -> Seq<RecordView> {
    Seq::new(lines.len(), |i: int| (lines[i]->Ok_0).record@)
}

/// The batches that subscribers are given: one for each run of records of one
/// transaction.
pub open spec fn run_batches(coll: Seq<char>, records: Seq<RecordView>, from: nat) -> Seq<BatchView>
    decreases records.len() - from,
{
    if from >= records.len() {
        Seq::empty()
    } else {
        proof { recovery::lemma_run_end(records, from + 1); }
        let to = recovery::run_end(records, from + 1);
        let run = records.subrange(from as int, to as int);
        seq![BatchView { txn_id: records[from as int].txn, coll, events: recovery::events_of(run, run.len()) }]
            + run_batches(coll, records, to)
    }
}

/// The cursor after these records: the position of the last one, or the
/// cursor as it was where there is none.
pub open spec fn cursor_after(records: Seq<RecordView>, after: Option<u64>) -> Option<u64> {
    if records.len() > 0 { Some(records.last().lsn) } else { after }
}

fn line_error(line: &ReceivedLine) -> (r: Option<String>)
    ensures
        r matches Some(m) ==> line_fault(*line) == Some(m@),
        r is None ==> line_fault(*line) is None,
{
    match line {
        Err(e) => {
            let mut m = "malformed replicated WAL line: ".to_owned();
            m.append(e.as_str());
            Some(m)
        },
        Ok(read) => {
            if verify_checksum(read) {
                None
            } else {
                let mut m = "replicated WAL line for lsn ".to_owned();
                let at = read.record.lsn.to_text();
                m.append(at.as_str());
                m.append(" failed checksum verification");
                Some(m)
            }
        },
    }
}

/// Takes the records out of received lines, if all of them can be trusted.
pub fn check_replicated(lines: &Vec<ReceivedLine>) -> (r: StorageResult<Vec<WalRecord>>)
    ensures
        r matches Err(e) ==> first_fault(lines@, 0) < lines@.len()
            && e@ == StorageErrorView::Wal(line_fault(lines@[first_fault(lines@, 0) as int])->0),
        r matches Ok(records) ==> first_fault(lines@, 0) >= lines@.len() && wal::record_views(records@) == line_records(lines@),
{
    let mut records: Vec<WalRecord> = Vec::new();
    let mut i: usize = 0;
    let ghost want = line_records(lines@);
    assert(wal::record_views(records@) =~= want.take(0));
    while i < lines.len()
        invariant
            i <= lines@.len(),
            want == line_records(lines@),
            first_fault(lines@, 0) == first_fault(lines@, i as nat),
            wal::record_views(records@) == want.take(i as int),
        decreases lines@.len() - i,
    {
        let ghost was = records@;
        match line_error(&lines[i]) {
            Some(m) => { return Err(StorageError::Wal(m)); },
            None => {},
        }
        match &lines[i] {
            Ok(read) => {
                records.push(read.record.clone());
                assert(wal::record_views(records@) =~= wal::record_views(was).push(want[i as int]));
            },
            Err(_) => {},
        }
        assert(want.take(i + 1) =~= want.take(i as int).push(want[i as int]));
        i += 1;
    }
    assert(want.take(i as int) =~= want);
    Ok(records)
}

impl Collection {
    /// The highest log position applied, or nothing if the log is still
    /// empty: position zero is where the first record goes, so it cannot
    /// stand for "none".
    pub fn last_applied_lsn(&self) -> (r: Option<Lsn>)
        ensures
            wal::lsn_bits(r) == (match self@.wal {
                Some(w) => if lsn::packed(w.segment_id, w.offset) == 0 { None } else { Some(self@.state.applied) },
                None => None,
            }),
    {
        match &self.wal {
            Some(w) => {
                if w.current_lsn().as_u64() == 0 {
                    return None;
                }
                Some(self.inner.last_applied_lsn)
            },
            None => None,
        }
    }

    /// The leader's side: the records after a follower's cursor, from the
    /// lines of the log's segments, and the cursor for the next call. The
    /// cursor is the position of the last record given out, so that records
    /// written meanwhile are not skipped. A collection without a log has
    /// nothing to give.
    pub fn wal_lines_after(&self, segments: &Vec<SegmentLines>, after: Option<Lsn>) -> (r: (Vec<WalRecord>, Option<Lsn>))
        requires
            forall|i: int| 0 <= i < segments@.len() ==> wal::lines_len(
                (#[trigger] wal::segment_views(segments@)[i]).1,
                wal::segment_views(segments@)[i].1.len(),
            ) <= u32::MAX,
        ensures
            wal::record_views(r.0@) == (if self@.wal is Some {
                wal::replay_segments(wal::segment_views(segments@), segments@.len(), wal::lsn_bits(after)).committed
            } else {
                Seq::empty()
            }),
            wal::lsn_bits(r.1) == cursor_after(wal::record_views(r.0@), wal::lsn_bits(after)),
    {
        if self.wal.is_none() {
            let none: Vec<WalRecord> = Vec::new();
            assert(wal::record_views(none@) =~= Seq::<RecordView>::empty());
            return (none, after);
        }
        let replay = replay_all(segments, after);
        let records = replay.records;
        let cursor = if records.len() > 0 {
            assert(wal::record_views(records@).last() == records@.last()@);
            Some(records[records.len() - 1].lsn)
        } else {
            after
        };
        (records, cursor)
    }

    /// The follower's side, once its own log has answered: applies records
    /// received from the leader, at the leader's positions, and announces
    /// each transaction in a batch of its own.
    pub fn apply_replicated_lines(&mut self, records: &Vec<WalRecord>, appended: Result<(), String>) -> (r: StorageResult<()>)
        requires
            old(self).wf(),
            recovery::all_ids_fit(wal::record_views(records@)),
        ensures
            final(self).wf(),
            records@.len() == 0 ==> r is Ok && *final(self) == *old(self),
            records@.len() > 0 ==> (appended matches Err(m) ==> *final(self) == *old(self)
                && recovery::result_is(r, Some(StorageErrorView::Wal(m@)))),
            records@.len() > 0 && appended is Ok ==> ({
                let views = wal::record_views(records@);
                let (state, e) = recovery::applied_from(old(self)@.state, views, 0);
                &&& recovery::result_is(r, e)
                &&& final(self)@ == (CollectionView {
                    state,
                    outbox: if e is None { old(self)@.outbox + run_batches(old(self)@.name, views, 0) } else { old(self)@.outbox },
                    ..old(self)@
                })
            }),
    {
        if records.len() == 0 {
            return Ok(());
        }
        match appended {
            Ok(_) => {},
            Err(m) => { return Err(StorageError::Wal(m)); },
        }
        let ghost views = wal::record_views(records@);
        proof { collection::applying_keeps_sound(self@.state, views, 0); }
        match apply_replayed_records(&mut self.inner, records.as_slice()) {
            Ok(_) => {},
            Err(e) => { return Err(e); },
        }
        let ghost before = change::batch_views(self.outbox@);
        let ghost name = self.name@;
        let ghost inner = self.inner;
        let mut i: usize = 0;
        assert(before + run_batches(name, views, 0) == change::batch_views(self.outbox@) + run_batches(name, views, 0));
        while i < records.len()
            invariant
                i <= records@.len(),
                views == wal::record_views(records@),
                name == self.name@,
                self.inner == inner,
                self.name == old(self).name,
                self.dim == old(self).dim,
                self.metric == old(self).metric,
                self.wal == old(self).wal,
                before + run_batches(name, views, 0) == change::batch_views(self.outbox@) + run_batches(name, views, i as nat),
            decreases records@.len() - i,
        {
            let txn_id = records[i].txn;
            let mut j: usize = i + 1;
            while j < records.len() && records[j].txn == txn_id
                invariant
                    i < j <= records@.len(),
                    txn_id == records@[i as int].txn,
                    views == wal::record_views(records@),
                    recovery::run_end(views, (i + 1) as nat) == recovery::run_end(views, j as nat),
                    records@[j - 1].txn == txn_id,
                decreases records@.len() - j,
            {
                proof {
                    assert(views[j as int] == records@[j as int]@);
                    assert(views[j - 1] == records@[j - 1]@);
                }
                j += 1;
            }
            proof {
                if j < records@.len() {
                    assert(views[j as int] == records@[j as int]@);
                    assert(views[j - 1] == records@[j - 1]@);
                }
                assert(recovery::run_end(views, j as nat) == j);
                assert(views[i as int] == records@[i as int]@);
            }
            let run = slice_subrange(records.as_slice(), i, j);
            assert(wal::record_views(run@) =~= views.subrange(i as int, j as int));
            let batch = ChangeBatch { txn_id, coll: self.name.clone(), events: change_events_from_records(run) };
            let ghost was = self.outbox@;
            let ghost view = batch@;
            self.outbox.push(batch);
            proof {
                assert(change::batch_views(self.outbox@) =~= change::batch_views(was).push(view));
                assert(change::batch_views(self.outbox@) + run_batches(name, views, j as nat)
                    =~= change::batch_views(was) + run_batches(name, views, i as nat));
            }
            i = j;
        }
        assert(change::batch_views(self.outbox@) + run_batches(name, views, i as nat) =~= change::batch_views(self.outbox@));
        Ok(())
    }
}

/// A poll that finds nothing new leaves the cursor where it was; one that
/// finds something moves it to a record that was given out.
pub proof fn cursor_moves_to_what_was_given(records: Seq<RecordView>, after: Option<u64>)
    ensures
        records.len() == 0 ==> cursor_after(records, after) == after,
        records.len() > 0 ==> exists|i: int| 0 <= i < records.len() && cursor_after(records, after) == Some((#[trigger] records[i]).lsn),
{
    if records.len() > 0 {
        assert(records[records.len() - 1] == records.last());
    }
}

proof fn lemma_newer_keeps(s: Seq<RecordView>, after: Option<u64>)
    ensures
        forall|r: RecordView| #[trigger] wal::newer(s, after).contains(r) ==> s.contains(r) && wal::is_newer(r, after),
    decreases s.len(),
{
    if s.len() > 0 {
        lemma_newer_keeps(s.drop_last(), after);
        assert forall|r: RecordView| #[trigger] wal::newer(s, after).contains(r) implies s.contains(r) && wal::is_newer(r, after) by {
            let n = wal::newer(s, after);
            let i = choose|i: int| 0 <= i < n.len() && n[i] == r;
            let m = wal::newer(s.drop_last(), after);
            if i < m.len() {
                assert(m.contains(r));
                assert(s.drop_last().contains(r));
                let k = choose|k: int| 0 <= k < s.drop_last().len() && s.drop_last()[k] == r;
                assert(s[k] == r);
            } else {
                assert(s[s.len() - 1] == r);
            }
        }
    }
}

proof fn lemma_lines_keep_newer(s: wal::Replay, lines: Seq<wal::LineView>, n: nat, after: Option<u64>)
    requires
        n <= lines.len(),
        forall|r: RecordView| #[trigger] s.committed.contains(r) ==> wal::is_newer(r, after),
    ensures
        forall|r: RecordView| #[trigger] wal::replay_lines(s, lines, n, after).committed.contains(r) ==> wal::is_newer(r, after),
    decreases n,
{
    if n > 0 {
        lemma_lines_keep_newer(s, lines, (n - 1) as nat, after);
        let t = wal::replay_lines(s, lines, (n - 1) as nat, after);
        let u = wal::replay_lines(s, lines, n, after);
        if !t.stopped && lines[n - 1].record is Some {
            let pending = wal::buffered(t.pending, lines[n - 1].record->0);
            lemma_newer_keeps(pending, after);
            assert forall|r: RecordView| #[trigger] u.committed.contains(r) implies wal::is_newer(r, after) by {
                let i = choose|i: int| 0 <= i < u.committed.len() && u.committed[i] == r;
                if i < t.committed.len() {
                    assert(t.committed[i] == r);
                    assert(t.committed.contains(r));
                } else {
                    assert(wal::newer(pending, after)[i - t.committed.len()] == r);
                    assert(wal::newer(pending, after).contains(r));
                }
            }
        }
    }
}

/// A follower is only ever given records beyond its cursor.
pub proof fn poll_gives_only_newer_records(segments: Seq<(u32, Seq<wal::LineView>)>, n: nat, after: Option<u64>)
    requires
        n <= segments.len(),
    ensures
        forall|r: RecordView| #[trigger] wal::replay_segments(segments, n, after).committed.contains(r) ==> wal::is_newer(r, after),
    decreases n,
{
    if n > 0 {
        poll_gives_only_newer_records(segments, (n - 1) as nat, after);
        let (id, lines) = segments[n - 1];
        lemma_lines_keep_newer(wal::enter_segment(wal::replay_segments(segments, (n - 1) as nat, after), id), lines, lines.len(), after);
    }
}

/// Whether positions ascend from record to record.
pub open spec fn ascending(s: Seq<RecordView>) -> bool {
    forall|i: int, j: int| 0 <= i < j < s.len() ==> (#[trigger] s[i]).lsn < (#[trigger] s[j]).lsn
}

proof fn lemma_all_newer(s: Seq<RecordView>, after: Option<u64>)
    requires
        forall|i: int| 0 <= i < s.len() ==> wal::is_newer(#[trigger] s[i], after),
    ensures
        wal::newer(s, after) == s,
    decreases s.len(),
{
    if s.len() > 0 {
        assert forall|i: int| 0 <= i < s.drop_last().len() implies wal::is_newer(#[trigger] s.drop_last()[i], after) by {
            assert(s.drop_last()[i] == s[i]);
        }
        lemma_all_newer(s.drop_last(), after);
        assert(wal::is_newer(s[s.len() - 1], after));
        assert(s.drop_last().push(s.last()) =~= s);
    }
}

proof fn lemma_none_newer(s: Seq<RecordView>, after: Option<u64>)
    requires
        forall|i: int| 0 <= i < s.len() ==> !wal::is_newer(#[trigger] s[i], after),
    ensures
        wal::newer(s, after).len() == 0,
    decreases s.len(),
{
    if s.len() > 0 {
        assert forall|i: int| 0 <= i < s.drop_last().len() implies !wal::is_newer(#[trigger] s.drop_last()[i], after) by {
            assert(s.drop_last()[i] == s[i]);
        }
        lemma_none_newer(s.drop_last(), after);
        assert(!wal::is_newer(s[s.len() - 1], after));
    }
}

proof fn lemma_polls_meet(earlier: Seq<RecordView>, added: Seq<RecordView>, after: Option<u64>)
    requires
        ascending(earlier + added),
    ensures
        wal::newer(earlier, after) + wal::newer(earlier + added, cursor_after(wal::newer(earlier, after), after)) == wal::newer(earlier + added, after),
{
    let all = earlier + added;
    let first = wal::newer(earlier, after);
    let cursor = cursor_after(first, after);
    wal::lemma_newer_concat(earlier, added, after);
    if first.len() == 0 {
        assert(first + wal::newer(all, after) =~= wal::newer(all, after));
    } else {
        let last = earlier.last();
        assert(earlier.len() > 0);
        assert(all[earlier.len() - 1] == last);
        if !wal::is_newer(last, after) {
            assert forall|i: int| 0 <= i < earlier.len() implies !wal::is_newer(#[trigger] earlier[i], after) by {
                assert(all[i] == earlier[i]);
                if i < earlier.len() - 1 {
                    assert(all[i].lsn < all[earlier.len() - 1].lsn);
                }
            }
            lemma_none_newer(earlier, after);
        }
        assert(first.last() == last);
        assert forall|i: int| 0 <= i < earlier.len() implies !wal::is_newer(#[trigger] earlier[i], cursor) by {
            assert(all[i] == earlier[i]);
            if i < earlier.len() - 1 {
                assert(all[i].lsn < all[earlier.len() - 1].lsn);
            }
        }
        lemma_none_newer(earlier, cursor);
        assert forall|i: int| 0 <= i < added.len() implies wal::is_newer(#[trigger] added[i], cursor) && wal::is_newer(added[i], after) by {
            assert(all[earlier.len() + i] == added[i]);
            assert(all[earlier.len() - 1].lsn < all[earlier.len() + i].lsn);
        }
        lemma_all_newer(added, cursor);
        lemma_all_newer(added, after);
        wal::lemma_newer_concat(earlier, added, cursor);
        assert(wal::newer(earlier, cursor) + added =~= added);
    }
}

/// Polling misses nothing and gives nothing twice: what a follower is given
/// now and, with the cursor it was handed, at a later poll of the grown log
/// is what one later poll would have given it.
pub proof fn polling_misses_nothing(
    before: Seq<(u32, Seq<wal::LineView>)>,
    now: Seq<(u32, Seq<wal::LineView>)>,
    added: Seq<RecordView>,
    after: Option<u64>,
)
    requires
        wal::replay_segments(now, now.len(), None).committed == wal::replay_segments(before, before.len(), None).committed + added,
        ascending(wal::replay_segments(now, now.len(), None).committed),
    ensures
        ({
            let first = wal::replay_segments(before, before.len(), after).committed;
            let second = wal::replay_segments(now, now.len(), cursor_after(first, after)).committed;
            first + second == wal::replay_segments(now, now.len(), after).committed
        }),
{
    let earlier = wal::replay_segments(before, before.len(), None).committed;
    let first = wal::replay_segments(before, before.len(), after).committed;
    wal::cut_does_not_depend_on_start(before, before.len(), after);
    wal::cut_does_not_depend_on_start(now, now.len(), after);
    wal::cut_does_not_depend_on_start(now, now.len(), cursor_after(first, after));
    lemma_polls_meet(earlier, added, after);
}

/// A follower that starts where the leader started ends up as the leader is,
/// however its polls divide the log, as long as no transaction is divided.
pub proof fn a_follower_ends_up_as_its_leader(
    start: StateView,
    before: Seq<(u32, Seq<wal::LineView>)>,
    now: Seq<(u32, Seq<wal::LineView>)>,
    added: Seq<RecordView>,
)
    requires
        wal::replay_segments(now, now.len(), None).committed == wal::replay_segments(before, before.len(), None).committed + added,
        ascending(wal::replay_segments(now, now.len(), None).committed),
        recovery::applied_from(start, wal::replay_segments(before, before.len(), None).committed, 0).1 is None,
        ({
            let earlier = wal::replay_segments(before, before.len(), None).committed;
            earlier.len() > 0 && added.len() > 0 ==> earlier.last().txn != added[0].txn
        }),
    ensures
        ({
            let first = wal::replay_segments(before, before.len(), None).committed;
            let second = wal::replay_segments(now, now.len(), cursor_after(first, None)).committed;
            let leader = recovery::applied_from(start, wal::replay_segments(now, now.len(), None).committed, 0);
            recovery::applied_from(recovery::applied_from(start, first, 0).0, second, 0) == leader
        }),
{
    let first = wal::replay_segments(before, before.len(), None).committed;
    let second = wal::replay_segments(now, now.len(), cursor_after(first, None)).committed;
    polling_misses_nothing(before, now, added, None);
    assert(second =~= (first + second).skip(first.len() as int));
    assert(added =~= (first + added).skip(first.len() as int));
    recovery::replaying_equals_having_applied(start, first, second);
}

/// A second poll with the cursor that the first one gave is empty as long as
/// nothing has been appended, and leaves the cursor where it is.
pub proof fn a_second_poll_is_empty(segments: Seq<(u32, Seq<wal::LineView>)>, after: Option<u64>)
    requires
        ascending(wal::replay_segments(segments, segments.len(), None).committed),
    ensures
        ({
            let first = wal::replay_segments(segments, segments.len(), after).committed;
            let cursor = cursor_after(first, after);
            let second = wal::replay_segments(segments, segments.len(), cursor).committed;
            second.len() == 0 && cursor_after(second, cursor) == cursor
        }),
{
    let all = wal::replay_segments(segments, segments.len(), None).committed;
    assert(all + Seq::<RecordView>::empty() =~= all);
    polling_misses_nothing(segments, segments, Seq::empty(), after);
}

proof fn lemma_group_position(s: StateView, group: Seq<RecordView>, n: nat)
    requires
        n <= group.len(),
        ascending(group),
        group.len() > 0,
        s.applied <= group[0].lsn,
        recovery::applied_records(s, group, n).1 is None,
    ensures
        recovery::applied_records(s, group, n).0.applied == (if n == 0 { s.applied } else { group[n - 1].lsn }),
    decreases n,
{
    if n > 0 {
        lemma_group_position(s, group, (n - 1) as nat);
        if n > 1 {
            assert(group[n - 2].lsn < group[n - 1].lsn);
        }
    }
}

proof fn lemma_position_from(s: StateView, records: Seq<RecordView>, from: nat)
    requires
        from < records.len(),
        ascending(records),
        s.applied <= records[from as int].lsn,
        recovery::applied_from(s, records, from).1 is None,
    ensures
        recovery::applied_from(s, records, from).0.applied == records.last().lsn,
    decreases records.len() - from,
{
    recovery::lemma_run_end(records, from + 1);
    let to = recovery::run_end(records, from + 1);
    let group = records.subrange(from as int, to as int);
    assert(ascending(group));
    lemma_group_position(s, group, group.len());
    assert(group[group.len() - 1] == records[to - 1]);
    let t = recovery::applied_group(s, group).0;
    if to < records.len() {
        assert(records[to - 1].lsn < records[to as int].lsn);
        lemma_position_from(t, records, to);
    } else {
        assert(recovery::applied_from(t, records, to) == (t, None::<StorageErrorView>));
    }
}

/// A collection's applied position after records that all apply is the
/// position of the last of them: the cursor that its leader handed out.
pub proof fn the_applied_position_is_the_cursor(s: StateView, records: Seq<RecordView>)
    requires
        records.len() > 0,
        ascending(records),
        s.applied <= records[0].lsn,
        recovery::applied_from(s, records, 0).1 is None,
    ensures
        Some(recovery::applied_from(s, records, 0).0.applied) == cursor_after(records, None),
{
    lemma_position_from(s, records, 0);
}

/// Follower and leader agree on the applied position once the follower has
/// applied all that it was given, however its polls divided the log. A poll
/// from there gives nothing.
pub proof fn follower_and_leader_agree_on_the_position(
    start: StateView,
    before: Seq<(u32, Seq<wal::LineView>)>,
    now: Seq<(u32, Seq<wal::LineView>)>,
    added: Seq<RecordView>,
)
    requires
        wal::replay_segments(now, now.len(), None).committed == wal::replay_segments(before, before.len(), None).committed + added,
        ({
            let earlier = wal::replay_segments(before, before.len(), None).committed;
            let all = wal::replay_segments(now, now.len(), None).committed;
            &&& all.len() > 0
            &&& ascending(all)
            &&& start.applied <= all[0].lsn
            &&& recovery::applied_from(start, earlier, 0).1 is None
            &&& recovery::applied_from(start, all, 0).1 is None
            &&& earlier.len() > 0 && added.len() > 0 ==> earlier.last().txn != added[0].txn
        }),
    ensures
        ({
            let first = wal::replay_segments(before, before.len(), None).committed;
            let second = wal::replay_segments(now, now.len(), cursor_after(first, None)).committed;
            let follower = recovery::applied_from(recovery::applied_from(start, first, 0).0, second, 0).0;
            let all = wal::replay_segments(now, now.len(), None).committed;
            let leader = recovery::applied_from(start, all, 0).0;
            &&& follower.applied == leader.applied == all.last().lsn
            &&& wal::replay_segments(now, now.len(), Some(follower.applied)).committed.len() == 0
        }),
{
    let all = wal::replay_segments(now, now.len(), None).committed;
    a_follower_ends_up_as_its_leader(start, before, now, added);
    the_applied_position_is_the_cursor(start, all);
    a_second_poll_is_empty(now, None);
}

/// Whether each line's record carries the position at which the cursor places
/// the line, and takes up room there.
pub open spec fn carry_positions(log: Seq<(u32, Seq<wal::LineView>)>, w: wal::WalWriter, lines: Seq<wal::LineView>) -> bool {
    forall|i: int| 0 <= i < lines.len() ==> {
        &&& wal::has_room(wal::appended(log, w, lines, i as nat).1, (#[trigger] lines[i]).len)
        &&& lines[i].len > 0
        &&& lines[i].record->0.lsn == wal::next_position(wal::appended(log, w, lines, i as nat).1)
    }
}

/// Whether all records lie before the cursor.
pub open spec fn lie_before(s: Seq<RecordView>, w: wal::WalWriter) -> bool {
    forall|i: int| 0 <= i < s.len() ==> (#[trigger] s[i]).lsn < lsn::packed(w.segment_id, w.offset)
}

proof fn lemma_positions(log: Seq<(u32, Seq<wal::LineView>)>, w: wal::WalWriter, lines: Seq<wal::LineView>, n: nat)
    requires
        carry_positions(log, w, lines),
        n <= lines.len(),
    ensures
        ({
            let v = wal::appended(log, w, lines, n).1;
            let held = wal::held_records(lines.take(n as int));
            &&& lsn::packed(v.segment_id, v.offset) >= lsn::packed(w.segment_id, w.offset)
            &&& lie_before(held, v)
            &&& ascending(held)
            &&& forall|i: int| 0 <= i < n ==> (#[trigger] held[i]).lsn >= lsn::packed(w.segment_id, w.offset)
        }),
    decreases n,
{
    if n > 0 {
        let m = (n - 1) as nat;
        lemma_positions(log, w, lines, m);
        let u = wal::appended(log, w, lines, m).1;
        let v = wal::appended(log, w, lines, n).1;
        let before = wal::held_records(lines.take(m as int));
        let held = wal::held_records(lines.take(n as int));
        assert(wal::has_room(u, lines[m as int].len));
        assert(v == wal::moved_past(u, lines[m as int].len));
        assert(lsn::packed(u.segment_id, u.offset) <= wal::next_position(u) < lsn::packed(v.segment_id, v.offset));
        assert(held =~= before.push(lines[m as int].record->0));
    }
}

/// A log whose records carry the positions at which they were placed ascends:
/// whole transactions that are appended to one that ascends lie after all that
/// it held, each record after the one before it, and before the cursor.
pub proof fn an_appended_log_ascends(log: Seq<(u32, Seq<wal::LineView>)>, w: wal::WalWriter, txns: Seq<Seq<wal::LineView>>)
    requires
        wal::stands_at_end(log, w),
        ascending(wal::replay_segments(log, log.len(), None).committed),
        lie_before(wal::replay_segments(log, log.len(), None).committed, w),
        forall|i: int| 0 <= i < txns.len() ==> wal::whole_txn(#[trigger] txns[i]),
        carry_positions(log, w, wal::txn_lines(txns)),
    ensures
        ({
            let lines = wal::txn_lines(txns);
            let (l, v) = wal::appended(log, w, lines, lines.len());
            let committed = wal::replay_segments(l, l.len(), None).committed;
            &&& wal::stands_at_end(l, v)
            &&& committed == wal::replay_segments(log, log.len(), None).committed + wal::held_records(lines)
            &&& ascending(committed)
            &&& lie_before(committed, v)
        }),
{
    let lines = wal::txn_lines(txns);
    let (l, v) = wal::appended(log, w, lines, lines.len());
    let earlier = wal::replay_segments(log, log.len(), None).committed;
    let held = wal::held_records(lines);
    assert forall|i: int| 0 <= i < lines.len() implies wal::has_room(wal::appended(log, w, lines, i as nat).1, (#[trigger] lines[i]).len) by {}
    wal::what_is_appended_replays(log, w, txns, None);
    lemma_all_newer(held, None);
    lemma_positions(log, w, lines, lines.len());
    assert(lines.take(lines.len() as int) =~= lines);
    let committed = earlier + held;
    assert forall|i: int, j: int| 0 <= i < j < committed.len() implies (#[trigger] committed[i]).lsn < (#[trigger] committed[j]).lsn by {
        if j < earlier.len() {
            assert(earlier[i].lsn < earlier[j].lsn);
        } else if i < earlier.len() {
            assert(earlier[i].lsn < lsn::packed(w.segment_id, w.offset));
            assert(held[j - earlier.len()].lsn >= lsn::packed(w.segment_id, w.offset));
        } else {
            assert(held[i - earlier.len()].lsn < held[j - earlier.len()].lsn);
        }
    }
    assert forall|i: int| 0 <= i < committed.len() implies (#[trigger] committed[i]).lsn < lsn::packed(v.segment_id, v.offset) by {
        if i < earlier.len() {
            assert(earlier[i].lsn < lsn::packed(w.segment_id, w.offset));
        } else {
            assert(held[i - earlier.len()].lsn < lsn::packed(v.segment_id, v.offset));
        }
    }
}

/// A log that is written from its start ascends.
pub proof fn a_log_written_from_its_start_ascends(w: wal::WalWriter, txns: Seq<Seq<wal::LineView>>)
    requires
        w.offset == 0,
        forall|i: int| 0 <= i < txns.len() ==> wal::whole_txn(#[trigger] txns[i]),
        carry_positions(seq![(w.segment_id, Seq::<wal::LineView>::empty())], w, wal::txn_lines(txns)),
    ensures
        ({
            let lines = wal::txn_lines(txns);
            let (l, v) = wal::appended(seq![(w.segment_id, Seq::<wal::LineView>::empty())], w, lines, lines.len());
            let committed = wal::replay_segments(l, l.len(), None).committed;
            &&& wal::stands_at_end(l, v)
            &&& committed == wal::held_records(lines)
            &&& ascending(committed)
            &&& lie_before(committed, v)
        }),
{
    let log = seq![(w.segment_id, Seq::<wal::LineView>::empty())];
    assert(log[0] == (w.segment_id, Seq::<wal::LineView>::empty()));
    let start = wal::replay_segments(log, 0, None);
    let entered = wal::enter_segment(start, w.segment_id);
    assert(wal::replay_lines(entered, Seq::empty(), 0, None) == entered);
    assert(wal::replay_segments(log, 1, None) == entered);
    an_appended_log_ascends(log, w, txns);
    let held = wal::held_records(wal::txn_lines(txns));
    assert(entered.committed + held =~= held);
}

} // verus!
