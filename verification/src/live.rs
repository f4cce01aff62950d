//! Keeping a baked index fresh: rows written since it was built wait in a
//! short list that is scored in full, and deleted ones are masked out, until
//! the next rebuild takes them over.

use crate::bitmap;
use crate::bitmap::{bitmap_clone, bitmap_contains, bitmap_insert, bitmap_len, bitmap_new, bitmap_subtract};
use crate::change;
use crate::change::{ChangeBatch, ChangeEvent, EventView};
use crate::coarse;
use crate::flat;
use crate::grouping;
use crate::hit;
use crate::hit::{IndexError, IndexResult, SearchHit, SearchResult};
use crate::ids::{DocId, RowId};
use crate::model::DistanceMetric;
use crate::params::SearchParams;
use crate::payload::FilterMask;
use crate::scoring;
use crate::state::{copy_vector, Row};
use roaring::RoaringBitmap;
use std::collections::HashSet;
use vstd::prelude::*;

verus! {

/// When a rebuild is due.
#[derive(Clone, Copy, Debug, PartialEq, Eq)]
pub struct LiveIndexParams {
    /// The share of the baked rows that the list may reach, as the bit
    /// pattern of a 64-bit float.
    pub rebuild_threshold_fraction: u64,
    /// The length that the list may reach whatever the share.
    pub rebuild_threshold_cap: usize,
    /// The time after which a rebuild is due in any case, in nanoseconds.
    pub rebuild_safety_interval: u128,
}

/// The bit pattern of the 64-bit float nearest to 0.05.
pub const FRACTION_BITS: u64 = 0x3fa9_9999_9999_999a;

/// Six hours, in nanoseconds.
pub const SAFETY_INTERVAL: u128 = 21_600_000_000_000;

impl Default for LiveIndexParams {
    fn default() -> (r: Self)
        ensures
            r == (LiveIndexParams { rebuild_threshold_fraction: FRACTION_BITS, rebuild_threshold_cap: 5_000, rebuild_safety_interval: SAFETY_INTERVAL }),
    {
        LiveIndexParams { rebuild_threshold_fraction: FRACTION_BITS, rebuild_threshold_cap: 5_000, rebuild_safety_interval: SAFETY_INTERVAL }
    }
}

/// What has changed since the baked index was built.
pub struct LiveIndex {
    pub dim: usize,
    pub metric: DistanceMetric,
    /// How many rows there were when the index was baked.
    pub baked_row_count: u64,
    /// The rows written since, each with its vector, in order of arrival.
    pub delta: Vec<(RowId, Vec<u32>)>,
    /// The rows deleted since.
    pub tombstones: RoaringBitmap,
    pub params: LiveIndexParams,
}

/// The contents of a [`LiveIndex`].
pub struct LiveView {
    pub dim: usize,
    pub metric: DistanceMetric,
    pub baked_row_count: u64,
    pub delta: Seq<(u64, Seq<u32>)>,
    pub tombstones: Set<u32>,
    pub params: LiveIndexParams,
}

/// The contents of a list of written rows.
pub open spec fn delta_views(s: Seq<(RowId, Vec<u32>)>) -> Seq<(u64, Seq<u32>)> {
    Seq::new(s.len(), |i: int| (s[i].0.0, s[i].1@))
}

impl View for LiveIndex {
    type V = LiveView;

    open spec fn view(&self) -> LiveView {
        LiveView {
            dim: self.dim,
            metric: self.metric,
            baked_row_count: self.baked_row_count,
            delta: delta_views(self.delta@),
            tombstones: bitmap::rows_of(self.tombstones),
            params: self.params,
        }
    }
}

/// What an event adds: a written row to the list, a deleted one to the mask.
pub open spec fn fed(v: LiveView, e: EventView) -> LiveView {
    match e {
        EventView::Insert(w) => LiveView { delta: v.delta.push((w.row_id, w.vector)), ..v },
        EventView::Update(w) => LiveView { delta: v.delta.push((w.row_id, w.vector)), ..v },
        EventView::Delete { row_id, doc_id, text } => LiveView { tombstones: v.tombstones.insert(row_id as u32), ..v },
    }
}

/// What the first `n` events add.
pub open spec fn fed_all(v: LiveView, events: Seq<EventView>, n: nat) -> LiveView
    decreases n,
{
    if n == 0 { v } else { fed(fed_all(v, events, (n - 1) as nat), events[n - 1]) }
}

/// Whether every row of these events has a bitmap position.
pub open spec fn events_fit(events: Seq<EventView>) -> bool {
    forall|i: int| 0 <= i < events.len() ==> change::event_row(#[trigger] events[i]) <= u32::MAX
}

/// What a rebuild has to cover: as far as the list went, and the rows that
/// were masked, when its scan began.
pub struct RebuildStart {
    pub delta_len: usize,
    pub tombstones: RoaringBitmap,
}

/// What is left once a rebuild has taken over everything up to its start.
pub open spec fn rebuilt(v: LiveView, delta_len: nat, tombstones: Set<u32>, row_count: u64) -> LiveView {
    LiveView {
        baked_row_count: row_count,
        delta: if v.delta.len() >= delta_len { v.delta.skip(delta_len as int) } else { v.delta },
        tombstones: v.tombstones.difference(tombstones),
        ..v
    }
}

/// The search that is made of the baked index.
pub struct BakedQuery {
    pub k: usize,
    pub filter: Option<FilterMask>,
    pub params: SearchParams,
}

/// The mask of a search without the deleted rows.
pub open spec fn unmasked(filter: Option<&FilterMask>, tombstones: Set<u32>, r: Option<FilterMask>) -> bool {
    match filter {
        Some(f) => r matches Some(g) && bitmap::rows_of(g.allowed) == bitmap::rows_of(f.allowed).difference(tombstones)
            && bitmap::is_count(g.estimated_cardinality, bitmap::rows_of(g.allowed)),
        None => r is None,
    }
}

/// Whether a written row takes part in a search: it is not deleted, and the
/// mask allows it.
pub open spec fn takes_part(v: LiveView, filter: Option<FilterMask>, i: int) -> bool {
    let row = v.delta[i].0 as u32;
    !v.tombstones.contains(row) && (filter matches Some(f) ==> bitmap::rows_of(f.allowed).contains(row))
}

/// The positions, among the first `n`, of the written rows that take part.
pub open spec fn taking_part(v: LiveView, filter: Option<FilterMask>, n: nat) -> Seq<usize>
    decreases n,
{
    if n == 0 {
        Seq::empty()
    } else {
        let before = taking_part(v, filter, (n - 1) as nat);
        if takes_part(v, filter, n - 1) { before.push((n - 1) as usize) } else { before }
    }
}

/// The hits of the first `n` of these written rows: those that are still
/// live, each with its score.
pub open spec fn delta_hits(v: LiveView, at: Seq<usize>, rows: Seq<Option<Row>>, scores: Seq<u32>, n: nat) -> Seq<SearchHit>
    decreases n,
{
    if n == 0 {
        Seq::empty()
    } else {
        let before = delta_hits(v, at, rows, scores, (n - 1) as nat);
        match rows[n - 1] {
            Some(row) => before.push(SearchHit {
                id: RowId(v.delta[at[n - 1] as int].0),
                doc_id: row.doc_id,
                chunk_ord: row.chunk_ord,
                score: scores[n - 1],
                metric: v.metric,
                exact: true,
            }),
            None => before,
        }
    }
}

/// Whether a hit of the same row comes later.
pub open spec fn comes_again(hits: Seq<SearchHit>, i: int) -> bool {
    exists|j: int| i < j < hits.len() && (#[trigger] hits[j]).id == hits[i].id
}

/// From position `i` on, the last hit of each row.
pub open spec fn last_hits(hits: Seq<SearchHit>, i: int) -> Seq<SearchHit>
    decreases hits.len() - i,
{
    if i < 0 || i >= hits.len() {
        Seq::empty()
    } else if comes_again(hits, i) {
        last_hits(hits, i + 1)
    } else {
        seq![hits[i]] + last_hits(hits, i + 1)
    }
}

fn keep_last(hits: &Vec<SearchHit>) -> (r: Vec<SearchHit>)
    ensures
        r@ == last_hits(hits@, 0),
{
    broadcast use vstd::std_specs::hash::group_hash_axioms;

    let mut seen: HashSet<u64> = HashSet::new();
    let mut back: Vec<SearchHit> = Vec::new();
    let mut i: usize = hits.len();
    assert(back@.reverse() =~= last_hits(hits@, i as int));
    while i > 0
        invariant
            i <= hits@.len(),
            forall|id: u64| #[trigger] seen@.contains(id) <==> exists|j: int| i <= j < hits@.len() && (#[trigger] hits@[j]).id.0 == id,
            back@.reverse() == last_hits(hits@, i as int),
        decreases i,
    {
        i -= 1;
        let hit = hits[i];
        let ghost was = back@;
        let ghost before = seen@;
        if !seen.contains(&hit.id.0) {
            assert(!comes_again(hits@, i as int)) by {
                if comes_again(hits@, i as int) {
                    let j = choose|j: int| i < j < hits@.len() && (#[trigger] hits@[j]).id == hits@[i as int].id;
                    assert(hits@[j].id.0 == hit.id.0);
                }
            }
            back.push(hit);
            assert(back@.reverse() =~= seq![hit] + was.reverse());
        } else {
            let ghost j = choose|j: int| i + 1 <= j < hits@.len() && (#[trigger] hits@[j]).id.0 == hit.id.0;
            assert(hits@[j].id == hit.id);
            assert(comes_again(hits@, i as int));
        }
        seen.insert(hit.id.0);
        assert forall|id: u64| #[trigger] seen@.contains(id) <==> exists|j: int| i <= j < hits@.len() && (#[trigger] hits@[j]).id.0 == id by {
            if before.contains(id) {
                let j = choose|j: int| i + 1 <= j < hits@.len() && (#[trigger] hits@[j]).id.0 == id;
                assert(hits@[j].id.0 == id);
            }
            if id == hit.id.0 {
                assert(hits@[i as int].id.0 == id);
            }
            if exists|j: int| i <= j < hits@.len() && (#[trigger] hits@[j]).id.0 == id {
                let j = choose|j: int| i <= j < hits@.len() && (#[trigger] hits@[j]).id.0 == id;
                if j > i {
                    assert(hits@[j].id.0 == id);
                    assert(before.contains(id));
                }
            }
        }
    }
    let mut out: Vec<SearchHit> = Vec::new();
    while out.len() < back.len()
        invariant
            out@.len() <= back@.len(),
            forall|j: int| 0 <= j < out@.len() ==> #[trigger] out@[j] == back@.reverse()[j],
        decreases back@.len() - out@.len(),
    {
        out.push(back[back.len() - 1 - out.len()]);
    }
    assert(out@ =~= back@.reverse());
    out
}

impl LiveIndex {
    /// Whether every written row has a bitmap position.
    pub open spec fn wf(self) -> bool {
        forall|i: int| 0 <= i < self.delta@.len() ==> (#[trigger] self.delta@[i]).0.0 <= u32::MAX
    }

    /// An index that has just been baked over `row_count` rows.
    pub fn new(dim: usize, metric: DistanceMetric, row_count: u64, params: LiveIndexParams) -> (r: Self)
        ensures
            r.wf(),
            r@ == (LiveView { dim, metric, baked_row_count: row_count, delta: Seq::empty(), tombstones: Set::empty(), params }),
    {
        let r = LiveIndex { dim, metric, baked_row_count: row_count, delta: Vec::new(), tombstones: bitmap_new(), params };
        assert(r@.delta =~= Seq::<(u64, Seq<u32>)>::empty());
        r
    }

    /// How many written rows wait for the next rebuild.
    pub fn delta_len(&self) -> (r: usize)
        ensures
            r == self@.delta.len(),
    {
        self.delta.len()
    }

    /// How many deleted rows are masked out.
    pub fn tombstone_count(&self) -> (r: u64)
        ensures
            bitmap::is_count(r, self@.tombstones),
    {
        bitmap_len(&self.tombstones)
    }

    /// Takes in a transaction's changes.
    pub fn on_change(&mut self, batch: &ChangeBatch)
        requires
            old(self).wf(),
            events_fit(batch@.events),
        ensures
            final(self).wf(),
            final(self)@ == fed_all(old(self)@, batch@.events, batch@.events.len()),
    {
        let ghost start = self@;
        let ghost events = batch@.events;
        let mut i: usize = 0;
        while i < batch.events.len()
            invariant
                i <= batch.events@.len(),
                events == change::event_views(batch.events@),
                events_fit(events),
                self.wf(),
                self@ == fed_all(start, events, i as nat),
                start == old(self)@,
            decreases batch.events@.len() - i,
        {
            let ghost was = self@;
            let ghost had = self.delta@;
            assert(change::event_row(events[i as int]) <= u32::MAX);
            match &batch.events[i] {
                ChangeEvent::Insert { row_id, vector, .. } => {
                    self.delta.push((*row_id, copy_vector(vector)));
                    assert(self@.delta =~= was.delta.push((row_id.0, vector@)));
                },
                ChangeEvent::Update { row_id, vector, .. } => {
                    self.delta.push((*row_id, copy_vector(vector)));
                    assert(self@.delta =~= was.delta.push((row_id.0, vector@)));
                },
                ChangeEvent::Delete { row_id, .. } => {
                    bitmap_insert(&mut self.tombstones, row_id.to_bitmap_index());
                    assert(self@.delta =~= was.delta);
                },
            }
            i += 1;
        }
    }

    /// Whether a rebuild is due: the list has reached the threshold, at least
    /// one row and at most the cap, or the safety interval has passed.
    /// `threshold` is the share of the baked rows that the parameters give.
    pub fn should_rebuild(&self, threshold: usize, elapsed: u128) -> (r: bool)
        requires
            self.params.rebuild_threshold_cap >= 1,
        ensures
            r == (self@.delta.len() >= coarse::clamped(threshold as nat, 1, self.params.rebuild_threshold_cap as nat) || elapsed >= self.params.rebuild_safety_interval),
            elapsed >= self.params.rebuild_safety_interval ==> r,
            self@.delta.len() >= self.params.rebuild_threshold_cap ==> r,
            self@.delta.len() >= 1 && self@.delta.len() >= threshold ==> r,
            elapsed < self.params.rebuild_safety_interval && self@.delta.len() == 0 ==> !r,
            elapsed < self.params.rebuild_safety_interval && self@.delta.len() < threshold && self@.delta.len() < self.params.rebuild_threshold_cap ==> !r,
    {
        let cap: usize = self.params.rebuild_threshold_cap;
        let limit: usize = if threshold < 1 { 1 } else if threshold > cap { cap } else { threshold };
        self.delta.len() >= limit || elapsed >= self.params.rebuild_safety_interval
    }

    /// Notes how far a rebuild reaches, before its scan begins.
    pub fn begin_rebuild(&self) -> (r: RebuildStart)
        ensures
            r.delta_len == self@.delta.len(),
            bitmap::rows_of(r.tombstones) == self@.tombstones,
    {
        RebuildStart { delta_len: self.delta.len(), tombstones: bitmap_clone(&self.tombstones) }
    }

    /// Ends a rebuild: what it covers is dropped, what arrived since stays.
    pub fn finish_rebuild(&mut self, start: &RebuildStart, row_count: u64)
        requires
            old(self).wf(),
        ensures
            final(self).wf(),
            final(self)@ == rebuilt(old(self)@, start.delta_len as nat, bitmap::rows_of(start.tombstones), row_count),
    {
        let ghost was = self.delta@;
        if self.delta.len() >= start.delta_len {
            self.delta = self.delta.split_off(start.delta_len);
            assert(self.delta@ =~= was.skip(start.delta_len as int));
            assert forall|i: int| 0 <= i < self.delta@.len() implies (#[trigger] self.delta@[i]).0.0 <= u32::MAX by {
                assert(was[start.delta_len + i].0.0 <= u32::MAX);
            }
            assert(delta_views(self.delta@) =~= delta_views(was).skip(start.delta_len as int));
        }
        bitmap_subtract(&mut self.tombstones, &start.tombstones);
        self.baked_row_count = row_count;
    }

    /// The search to make of the baked index: enough results that no written
    /// row can push one out, the mask without the deleted rows, and no cap
    /// per document yet. None where no results are wanted.
    pub fn begin_search(&self, query: &Vec<u32>, k: usize, filter: Option<&FilterMask>, params: &SearchParams) -> (r: IndexResult<Option<BakedQuery>>)
        requires
            k + self.delta@.len() <= usize::MAX,
        ensures
            query@.len() != self.dim ==> flat::refused_dim(self.dim, query@, r),
            query@.len() == self.dim && k == 0 ==> (r matches Ok(q) && q is None),
            query@.len() == self.dim && k > 0 ==> (r matches Ok(Some(q)) && q.k == k + self.delta@.len()
                && unmasked(filter, self@.tombstones, q.filter)
                && q.params == (SearchParams { max_chunks_per_doc: None, ..*params })),
    {
        if query.len() != self.dim {
            return Err(IndexError::DimMismatch { expected: self.dim, got: query.len() });
        }
        if k == 0 {
            return Ok(None);
        }
        let filter = match filter {
            Some(f) => {
                let mut allowed = bitmap_clone(&f.allowed);
                bitmap_subtract(&mut allowed, &self.tombstones);
                let estimated_cardinality = bitmap_len(&allowed);
                Some(FilterMask { allowed, estimated_cardinality })
            },
            None => None,
        };
        Ok(Some(BakedQuery {
            k: k + self.delta.len(),
            filter,
            params: SearchParams {
                max_chunks_per_doc: None,
                nprobe: params.nprobe,
                beam_width: params.beam_width,
                rerank_k: params.rerank_k,
                filter_exact_threshold: params.filter_exact_threshold,
                filter_selectivity_high: params.filter_selectivity_high,
                filter_nprobe_max: params.filter_nprobe_max,
            },
        }))
    }

    /// The written rows that a search scores, by their positions in the list.
    pub fn delta_candidates(&self, filter: &Option<FilterMask>) -> (r: Vec<usize>)
        requires
            self.wf(),
        ensures
            r@ == taking_part(self@, *filter, self@.delta.len()),
            forall|i: int| 0 <= i < r@.len() ==> #[trigger] r@[i] < self@.delta.len(),
            forall|i: usize| i < self@.delta.len() ==> (#[trigger] r@.contains(i) <==> !self@.tombstones.contains(self@.delta[i as int].0 as u32)
                && (*filter is None || bitmap::rows_of((*filter)->0.allowed).contains(self@.delta[i as int].0 as u32))),
    {
        let mut out: Vec<usize> = Vec::new();
        let mut i: usize = 0;
        while i < self.delta.len()
            invariant
                i <= self.delta@.len(),
                self.wf(),
                out@ == taking_part(self@, *filter, i as nat),
                forall|j: int| 0 <= j < out@.len() ==> #[trigger] out@[j] < i,
            decreases self.delta@.len() - i,
        {
            assert(self@.delta[i as int].0 == self.delta@[i as int].0.0);
            assert(self.delta@[i as int].0.0 <= u32::MAX);
            let row = self.delta[i].0.to_bitmap_index();
            let allowed = match filter {
                Some(f) => bitmap_contains(&f.allowed, row),
                None => true,
            };
            if !bitmap_contains(&self.tombstones, row) && allowed {
                out.push(i);
            }
            i += 1;
        }
        proof { allowed_written_rows_are_scored(self@, *filter); }
        out
    }

    /// The ids of written rows.
    pub fn delta_ids(&self, at: &Vec<usize>) -> (r: Vec<RowId>)
        requires
            self.wf(),
            forall|i: int| 0 <= i < at@.len() ==> #[trigger] at@[i] < self@.delta.len(),
        ensures
            r@.len() == at@.len(),
            forall|i: int| 0 <= i < r@.len() ==> (#[trigger] r@[i]).0 == self@.delta[at@[i] as int].0 && r@[i].0 <= u32::MAX,
    {
        let mut out: Vec<RowId> = Vec::new();
        while out.len() < at.len()
            invariant
                out@.len() <= at@.len(),
                self.wf(),
                forall|i: int| 0 <= i < at@.len() ==> #[trigger] at@[i] < self@.delta.len(),
                forall|i: int| 0 <= i < out@.len() ==> (#[trigger] out@[i]).0 == self@.delta[at@[i] as int].0 && out@[i].0 <= u32::MAX,
            decreases at@.len() - out@.len(),
        {
            let i: usize = out.len();
            assert(at@[i as int] < self@.delta.len());
            assert(self.delta@[at@[i as int] as int].0.0 <= u32::MAX);
            out.push(self.delta[at[i]].0);
        }
        out
    }

    /// The results of a search: the baked hits and those of the written rows
    /// together. Where a row has both, that of the written row counts. `at`
    /// are the scored written rows, `rows` what they are now, and `scores`
    /// their scores.
    pub fn search(&self, baked: SearchResult, at: &Vec<usize>, rows: &Vec<Option<Row>>, scores: &Vec<u32>, k: usize, params: &SearchParams) -> (r: SearchResult)
        requires
            forall|i: int| 0 <= i < at@.len() ==> #[trigger] at@[i] < self@.delta.len(),
            rows@.len() == at@.len(),
            scores@.len() == at@.len(),
        ensures
            scoring::top_hits(last_hits(baked.hits@ + delta_hits(self@, at@, rows@, scores@, at@.len()), 0), k as nat, params.max_chunks_per_doc, r.hits@),
            r.truncated_by_filter == baked.truncated_by_filter,
    {
        let truncated_by_filter = baked.truncated_by_filter;
        let ghost given = baked.hits@;
        let mut merged = baked.hits;
        let mut i: usize = 0;
        assert(given + delta_hits(self@, at@, rows@, scores@, 0) =~= given);
        while i < at.len()
            invariant
                i <= at@.len(),
                forall|j: int| 0 <= j < at@.len() ==> #[trigger] at@[j] < self@.delta.len(),
                rows@.len() == at@.len(),
                scores@.len() == at@.len(),
                merged@ == given + delta_hits(self@, at@, rows@, scores@, i as nat),
            decreases at@.len() - i,
        {
            assert(at@[i as int] < self@.delta.len());
            match &rows[i] {
                Some(row) => {
                    let hit = SearchHit {
                        id: self.delta[at[i]].0,
                        doc_id: row.doc_id,
                        chunk_ord: row.chunk_ord,
                        score: scores[i],
                        metric: self.metric,
                        exact: true,
                    };
                    merged.push(hit);
                    assert(merged@ =~= given + delta_hits(self@, at@, rows@, scores@, (i + 1) as nat));
                },
                None => {},
            }
            i += 1;
        }
        let kept = keep_last(&merged);
        SearchResult { hits: scoring::top(&kept, k, params.max_chunks_per_doc), truncated_by_filter }
    }
}

/// A rebuild never loses a write: rows written, and rows deleted, after its
/// scan began are still there once it is done.
pub proof fn rebuilding_loses_no_later_write(before: LiveView, events: Seq<EventView>, row_count: u64)
    ensures
        ({
            let now = fed_all(before, events, events.len());
            let after = rebuilt(now, before.delta.len(), before.tombstones, row_count);
            &&& now.delta.len() >= before.delta.len()
            &&& now.delta.take(before.delta.len() as int) == before.delta
            &&& now.delta == before.delta + after.delta
            &&& now.tombstones == before.tombstones.union(after.tombstones)
        }),
{
    lemma_fed_grows(before, events, events.len());
    let now = fed_all(before, events, events.len());
    let after = rebuilt(now, before.delta.len(), before.tombstones, row_count);
    assert(now.delta =~= before.delta + after.delta);
    assert(now.tombstones =~= before.tombstones.union(after.tombstones));
}

proof fn lemma_fed_grows(v: LiveView, events: Seq<EventView>, n: nat)
    ensures
        fed_all(v, events, n).delta.len() >= v.delta.len(),
        fed_all(v, events, n).delta.take(v.delta.len() as int) == v.delta,
        v.tombstones.subset_of(fed_all(v, events, n).tombstones),
    decreases n,
{
    if n == 0 {
        assert(v.delta.take(v.delta.len() as int) =~= v.delta);
    } else {
        lemma_fed_grows(v, events, (n - 1) as nat);
        let was = fed_all(v, events, (n - 1) as nat);
        let now = fed_all(v, events, n);
        assert(now.delta.take(v.delta.len() as int) =~= was.delta.take(v.delta.len() as int));
    }
}

/// A deleted row never takes part in a search as a written one, and the mask
/// of a filtered search no longer allows it.
pub proof fn deleted_rows_are_masked(v: LiveView, filter: Option<&FilterMask>, effective: Option<FilterMask>, row: u32, i: int)
    requires
        v.tombstones.contains(row),
        unmasked(filter, v.tombstones, effective),
        0 <= i < v.delta.len(),
        v.delta[i].0 == row,
    ensures
        !takes_part(v, effective, i),
        effective matches Some(f) ==> !bitmap::rows_of(f.allowed).contains(row),
{
}

proof fn lemma_last_hits_from(hits: Seq<SearchHit>, i: int, w: int) -> (j: int)
    requires
        0 <= i <= hits.len(),
        0 <= w < last_hits(hits, i).len(),
    ensures
        i <= j < hits.len(),
        last_hits(hits, i)[w] == hits[j],
        !comes_again(hits, j),
    decreases hits.len() - i,
{
    if comes_again(hits, i) {
        lemma_last_hits_from(hits, i + 1, w)
    } else if w == 0 {
        i
    } else {
        lemma_last_hits_from(hits, i + 1, w - 1)
    }
}

/// Where a row has a baked hit and one of a written row, it is the latter
/// that counts.
pub proof fn written_rows_win(baked: Seq<SearchHit>, delta: Seq<SearchHit>, w: int)
    requires
        0 <= w < last_hits(baked + delta, 0).len(),
        exists|i: int| 0 <= i < delta.len() && (#[trigger] delta[i]).id == last_hits(baked + delta, 0)[w].id,
    ensures
        delta.contains(last_hits(baked + delta, 0)[w]),
{
    let all = baked + delta;
    let j = lemma_last_hits_from(all, 0, w);
    let i = choose|i: int| 0 <= i < delta.len() && (#[trigger] delta[i]).id == last_hits(all, 0)[w].id;
    if j < baked.len() {
        assert(all[baked.len() + i].id == all[j].id);
        assert(comes_again(all, j));
    } else {
        assert(delta[j - baked.len()] == all[j]);
    }
}

proof fn lemma_last_hits_distinct(hits: Seq<SearchHit>, i: int, a: int, b: int)
    requires
        0 <= i <= hits.len(),
        0 <= a < b < last_hits(hits, i).len(),
    ensures
        last_hits(hits, i)[a].id != last_hits(hits, i)[b].id,
    decreases hits.len() - i,
{
    if comes_again(hits, i) {
        lemma_last_hits_distinct(hits, i + 1, a, b);
    } else if a == 0 {
        let j = lemma_last_hits_from(hits, i + 1, b - 1);
        if hits[j].id == hits[i].id {
            assert(comes_again(hits, i));
        }
    } else {
        lemma_last_hits_distinct(hits, i + 1, a - 1, b - 1);
    }
}

/// Merged hits hold each row once.
pub proof fn no_row_counts_twice(hits: Seq<SearchHit>, a: int, b: int)
    requires
        0 <= a < b < last_hits(hits, 0).len(),
    ensures
        last_hits(hits, 0)[a].id != last_hits(hits, 0)[b].id,
{
    lemma_last_hits_distinct(hits, 0, a, b);
}

proof fn lemma_taking_part(v: LiveView, filter: Option<FilterMask>, n: nat)
    requires
        n <= v.delta.len() <= usize::MAX,
    ensures
        forall|i: int, j: int| 0 <= i < j < taking_part(v, filter, n).len() ==> taking_part(v, filter, n)[i] < taking_part(v, filter, n)[j],
        forall|i: int| 0 <= i < taking_part(v, filter, n).len() ==> (#[trigger] taking_part(v, filter, n)[i]) < n,
        forall|i: usize| i < n ==> (#[trigger] taking_part(v, filter, n).contains(i) <==> !v.tombstones.contains(v.delta[i as int].0 as u32)
            && (filter is None || bitmap::rows_of(filter->0.allowed).contains(v.delta[i as int].0 as u32))),
    decreases n,
{
    if n > 0 {
        let m = (n - 1) as nat;
        lemma_taking_part(v, filter, m);
        let before = taking_part(v, filter, m);
        let now = taking_part(v, filter, n);
        let last = m as usize;
        assert forall|i: usize| i < n implies (#[trigger] now.contains(i) <==> !v.tombstones.contains(v.delta[i as int].0 as u32)
            && (filter is None || bitmap::rows_of(filter->0.allowed).contains(v.delta[i as int].0 as u32))) by {
            if i < m {
                assert(before.contains(i) <==> now.contains(i)) by {
                    if before.contains(i) {
                        let x = choose|x: int| 0 <= x < before.len() && before[x] == i;
                        assert(now[x] == i);
                    }
                    if now.contains(i) {
                        let x = choose|x: int| 0 <= x < now.len() && now[x] == i;
                        if x < before.len() {
                            assert(before[x] == i);
                        }
                    }
                }
            } else {
                assert(!before.contains(last)) by {
                    if before.contains(last) {
                        let x = choose|x: int| 0 <= x < before.len() && before[x] == last;
                        assert(before[x] < m);
                    }
                }
                if takes_part(v, filter, m as int) {
                    assert(now[before.len() as int] == last);
                }
            }
        }
    }
}

/// The written rows that a search scores are those that are not deleted and,
/// where there is a mask, that the mask allows: all of these and no others,
/// each once, in the order in which they were written.
pub proof fn allowed_written_rows_are_scored(v: LiveView, filter: Option<FilterMask>)
    requires
        v.delta.len() <= usize::MAX,
    ensures
        ({
            let at = taking_part(v, filter, v.delta.len());
            &&& forall|i: int, j: int| 0 <= i < j < at.len() ==> at[i] < at[j]
            &&& forall|i: int| 0 <= i < at.len() ==> (#[trigger] at[i]) < v.delta.len()
            &&& forall|i: usize| i < v.delta.len() ==> (#[trigger] at.contains(i) <==> !v.tombstones.contains(v.delta[i as int].0 as u32)
                && (filter is None || bitmap::rows_of(filter->0.allowed).contains(v.delta[i as int].0 as u32)))
        }),
{
    lemma_taking_part(v, filter, v.delta.len());
}

proof fn lemma_delta_positions(v: LiveView, at: Seq<usize>, rows: Seq<Option<Row>>, scores: Seq<u32>, n: nat) -> (from: Seq<int>)
    requires
        n <= rows.len(),
    ensures
        from.len() == delta_hits(v, at, rows, scores, n).len(),
        from.len() <= n,
        forall|i: int| 0 <= i < from.len() ==> {
            let h = #[trigger] delta_hits(v, at, rows, scores, n)[i];
            &&& 0 <= from[i] < n
            &&& rows[from[i]] is Some
            &&& h.id.0 == v.delta[at[from[i]] as int].0
            &&& h.doc_id == rows[from[i]]->0.doc_id
            &&& h.chunk_ord == rows[from[i]]->0.chunk_ord
            &&& h.score == scores[from[i]]
            &&& h.metric == v.metric
            &&& h.exact
        },
        forall|w: int| 0 <= w < n && rows[w] is Some ==> #[trigger] from.contains(w),
    decreases n,
{
    if n == 0 {
        Seq::empty()
    } else {
        let before = lemma_delta_positions(v, at, rows, scores, (n - 1) as nat);
        let was = delta_hits(v, at, rows, scores, (n - 1) as nat);
        let now = delta_hits(v, at, rows, scores, n);
        let from = if rows[n - 1] is Some { before.push(n - 1) } else { before };
        assert forall|i: int| 0 <= i < from.len() implies {
            let h = #[trigger] now[i];
            &&& 0 <= from[i] < n
            &&& rows[from[i]] is Some
            &&& h.id.0 == v.delta[at[from[i]] as int].0
            &&& h.doc_id == rows[from[i]]->0.doc_id
            &&& h.chunk_ord == rows[from[i]]->0.chunk_ord
            &&& h.score == scores[from[i]]
            &&& h.metric == v.metric
            &&& h.exact
        } by {
            if i < before.len() {
                assert(now[i] == was[i]);
            }
        }
        assert forall|w: int| 0 <= w < n && rows[w] is Some implies #[trigger] from.contains(w) by {
            if w < n - 1 {
                assert(before.contains(w));
                let x = choose|x: int| 0 <= x < before.len() && before[x] == w;
                assert(from[x] == w);
            } else {
                assert(from[before.len() as int] == w);
            }
        }
        from
    }
}

proof fn lemma_last_hit_kept(hits: Seq<SearchHit>, i: int, j: int) -> (w: int)
    requires
        0 <= i <= j < hits.len(),
    ensures
        0 <= w < last_hits(hits, i).len(),
        last_hits(hits, i)[w].id == hits[j].id,
    decreases hits.len() - i,
{
    if comes_again(hits, i) {
        if j == i {
            let x = choose|x: int| i < x < hits.len() && (#[trigger] hits[x]).id == hits[i].id;
            lemma_last_hit_kept(hits, i + 1, x)
        } else {
            lemma_last_hit_kept(hits, i + 1, j)
        }
    } else if j == i {
        0
    } else {
        let w = lemma_last_hit_kept(hits, i + 1, j);
        w + 1
    }
}

proof fn lemma_last_hits_len(hits: Seq<SearchHit>, i: int)
    requires
        0 <= i <= hits.len(),
    ensures
        last_hits(hits, i).len() <= hits.len() - i,
    decreases hits.len() - i,
{
    if i < hits.len() {
        lemma_last_hits_len(hits, i + 1);
    }
}

/// Whether a mask allows a row; without a mask every row is allowed.
pub open spec fn mask_allows(filter: Option<&FilterMask>, row: u32) -> bool {
    filter matches Some(f) ==> bitmap::rows_of(f.allowed).contains(row)
}

/// What a live search answers. At most `k` rows, each once, best first. Each
/// result is a hit of the baked index, or a written row that is not deleted
/// and that the filter allows, with its score; so if the baked hits are all
/// allowed, all results are. And a written row that is not deleted, that the
/// filter allows and that is still there is among the results, unless there
/// are `k` of them or its document has as many as the cap lets through.
pub proof fn a_live_search_merges_what_the_filter_allows(
    v: LiveView,
    filter: Option<&FilterMask>,
    effective: Option<FilterMask>,
    baked: Seq<SearchHit>,
    rows: Seq<Option<Row>>,
    scores: Seq<u32>,
    k: nat,
    max: Option<u32>,
    r: Seq<SearchHit>,
)
    requires
        v.delta.len() + baked.len() <= usize::MAX,
        forall|i: int| 0 <= i < v.delta.len() ==> (#[trigger] v.delta[i]).0 <= u32::MAX,
        unmasked(filter, v.tombstones, effective),
        rows.len() == taking_part(v, effective, v.delta.len()).len(),
        scores.len() == rows.len(),
        scoring::top_hits(last_hits(baked + delta_hits(v, taking_part(v, effective, v.delta.len()), rows, scores, rows.len()), 0), k, max, r),
    ensures
        r.len() <= k,
        forall|i: int, j: int| 0 <= i < j < r.len() ==> (#[trigger] r[i]).id != (#[trigger] r[j]).id
            && hit::float_rank(r[i].score) >= hit::float_rank(r[j].score),
        forall|j: int| 0 <= j < r.len() ==> baked.contains(#[trigger] r[j]) || exists|i: int| {
            let at = taking_part(v, effective, v.delta.len());
            &&& 0 <= i < rows.len()
            &&& #[trigger] rows[i] is Some
            &&& v.delta[at[i] as int].0 == r[j].id.0
            &&& scores[i] == r[j].score
            &&& rows[i]->0.doc_id == r[j].doc_id
            &&& r[j].exact
            &&& r[j].metric == v.metric
            &&& !v.tombstones.contains(r[j].id.0 as u32)
            &&& mask_allows(filter, r[j].id.0 as u32)
        },
        (forall|i: int| 0 <= i < baked.len() ==> mask_allows(filter, (#[trigger] baked[i]).id.0 as u32)) ==>
            forall|j: int| 0 <= j < r.len() ==> mask_allows(filter, (#[trigger] r[j]).id.0 as u32),
        forall|i: int| 0 <= i < rows.len() && #[trigger] rows[i] is Some ==> {
            let id = v.delta[taking_part(v, effective, v.delta.len())[i] as int].0;
            ||| exists|j: int| 0 <= j < r.len() && (#[trigger] r[j]).id.0 == id
            ||| r.len() == k
            ||| exists|d: DocId| max is Some && (#[trigger] r.filter(grouping::of_document(d))).len() == max->0
        },
        forall|i: usize| i < v.delta.len() ==> (#[trigger] taking_part(v, effective, v.delta.len()).contains(i)
            <==> !v.tombstones.contains(v.delta[i as int].0 as u32) && mask_allows(filter, v.delta[i as int].0 as u32)),
{
    let at = taking_part(v, effective, v.delta.len());
    let delta = delta_hits(v, at, rows, scores, rows.len());
    let all = baked + delta;
    let merged = last_hits(all, 0);
    allowed_written_rows_are_scored(v, effective);
    lemma_part_len(v, effective, v.delta.len());
    let from = lemma_delta_positions(v, at, rows, scores, rows.len());
    lemma_last_hits_len(all, 0);
    let places = scoring::the_best_hits_are_the_results(merged, k, max, r);
    assert forall|i: usize| i < v.delta.len() implies (#[trigger] at.contains(i)
        <==> !v.tombstones.contains(v.delta[i as int].0 as u32) && mask_allows(filter, v.delta[i as int].0 as u32)) by {}
    assert forall|i: int| 0 <= i < at.len() implies !v.tombstones.contains(v.delta[#[trigger] at[i] as int].0 as u32)
        && mask_allows(filter, v.delta[at[i] as int].0 as u32) by {
        assert(at.contains(at[i]));
    }
    assert forall|i: int, j: int| 0 <= i < j < r.len() implies (#[trigger] r[i]).id != (#[trigger] r[j]).id
        && hit::float_rank(r[i].score) >= hit::float_rank(r[j].score) by {
        assert(scoring::ranks_before(merged, places[i], places[j]));
        if places[i] < places[j] {
            no_row_counts_twice(all, places[i], places[j]);
        } else {
            no_row_counts_twice(all, places[j], places[i]);
        }
    }
    assert forall|j: int| 0 <= j < r.len() implies baked.contains(#[trigger] r[j]) || exists|i: int| {
        &&& 0 <= i < rows.len()
        &&& #[trigger] rows[i] is Some
        &&& v.delta[at[i] as int].0 == r[j].id.0
        &&& scores[i] == r[j].score
        &&& rows[i]->0.doc_id == r[j].doc_id
        &&& r[j].exact
        &&& r[j].metric == v.metric
        &&& !v.tombstones.contains(r[j].id.0 as u32)
        &&& mask_allows(filter, r[j].id.0 as u32)
    } by {
        assert(r[j] == merged[places[j]]);
        let x = lemma_last_hits_from(all, 0, places[j]);
        if x < baked.len() {
            assert(baked[x] == r[j]);
        } else {
            let y = x - baked.len();
            assert(delta[y] == r[j]);
            assert(rows[from[y]] is Some);
            assert(at[from[y]] < v.delta.len());
        }
    }
    if forall|i: int| 0 <= i < baked.len() ==> mask_allows(filter, (#[trigger] baked[i]).id.0 as u32) {
        assert forall|j: int| 0 <= j < r.len() implies mask_allows(filter, (#[trigger] r[j]).id.0 as u32) by {
            if baked.contains(r[j]) {
                let i = choose|i: int| 0 <= i < baked.len() && baked[i] == r[j];
                assert(mask_allows(filter, baked[i].id.0 as u32));
            }
        }
    }
    assert forall|i: int| 0 <= i < rows.len() && #[trigger] rows[i] is Some implies {
        let id = v.delta[at[i] as int].0;
        ||| exists|j: int| 0 <= j < r.len() && (#[trigger] r[j]).id.0 == id
        ||| r.len() == k
        ||| exists|d: DocId| max is Some && (#[trigger] r.filter(grouping::of_document(d))).len() == max->0
    } by {
        assert(from.contains(i));
        let y = choose|y: int| 0 <= y < from.len() && from[y] == i;
        assert(delta[y].id.0 == v.delta[at[i] as int].0);
        assert(all[baked.len() + y] == delta[y]);
        let w = lemma_last_hit_kept(all, 0, baked.len() + y);
        if places.contains(w) {
            let j = choose|j: int| 0 <= j < places.len() && places[j] == w;
            assert(r[j].id == merged[w].id);
        } else {
            assert(scoring::rightly_left_out(merged, k, max, r, places, w));
            if r.len() != k {
                let d = merged[w].doc_id->0;
                let own = grouping::of_document(d);
                let j = choose|j: int| 0 <= j <= places.len() && (forall|i: int| 0 <= i < j ==> scoring::ranks_before(merged, #[trigger] places[i], w))
                    && (#[trigger] r.take(j)).filter(own).len() >= max->0;
                assert(r =~= r.take(j) + r.skip(j));
                Seq::filter_distributes_over_add(r.take(j), r.skip(j), own);
                assert(r.filter(own).len() == max->0);
            }
        }
    }
}

proof fn lemma_part_len(v: LiveView, filter: Option<FilterMask>, n: nat)
    ensures
        taking_part(v, filter, n).len() <= n,
    decreases n,
{
    if n > 0 {
        lemma_part_len(v, filter, (n - 1) as nat);
    }
}

/// Of the merged hits each row keeps one, the last: a hit stays exactly when
/// no later one is of the same row, and those that stay keep their order.
pub proof fn each_row_keeps_its_last_hit(hits: Seq<SearchHit>) -> (at: Seq<int>)
    ensures
        at.len() == last_hits(hits, 0).len(),
        forall|i: int, j: int| 0 <= i < j < at.len() ==> at[i] < at[j],
        forall|w: int| 0 <= w < at.len() ==> 0 <= #[trigger] at[w] < hits.len() && last_hits(hits, 0)[w] == hits[at[w]],
        forall|i: int| 0 <= i < hits.len() ==> (#[trigger] at.contains(i) <==> forall|j: int| i < j < hits.len() ==> (#[trigger] hits[j]).id != hits[i].id),
{
    lemma_last_hits_at(hits, 0)
}

proof fn lemma_last_hits_at(hits: Seq<SearchHit>, from: int) -> (at: Seq<int>)
    requires
        0 <= from <= hits.len(),
    ensures
        at.len() == last_hits(hits, from).len(),
        forall|i: int, j: int| 0 <= i < j < at.len() ==> at[i] < at[j],
        forall|w: int| 0 <= w < at.len() ==> from <= #[trigger] at[w] < hits.len() && last_hits(hits, from)[w] == hits[at[w]],
        forall|i: int| from <= i < hits.len() ==> (#[trigger] at.contains(i) <==> forall|j: int| i < j < hits.len() ==> (#[trigger] hits[j]).id != hits[i].id),
    decreases hits.len() - from,
{
    if from == hits.len() {
        Seq::empty()
    } else {
        let rest = lemma_last_hits_at(hits, from + 1);
        let at = if comes_again(hits, from) { rest } else { seq![from] + rest };
        assert forall|i: int| from <= i < hits.len() implies (#[trigger] at.contains(i) <==> forall|j: int| i < j < hits.len() ==> (#[trigger] hits[j]).id != hits[i].id) by {
            if i > from {
                assert(at.contains(i) <==> rest.contains(i)) by {
                    if rest.contains(i) {
                        let x = choose|x: int| 0 <= x < rest.len() && rest[x] == i;
                        assert(at[at.len() - rest.len() + x] == i);
                    }
                    if at.contains(i) {
                        let x = choose|x: int| 0 <= x < at.len() && at[x] == i;
                        assert(rest[x - (at.len() - rest.len())] == i);
                    }
                }
            } else if comes_again(hits, from) {
                let j = choose|j: int| from < j < hits.len() && (#[trigger] hits[j]).id == hits[from].id;
                assert(hits[j].id == hits[from].id);
                if at.contains(from) {
                    let x = choose|x: int| 0 <= x < at.len() && at[x] == from;
                    assert(rest[x] >= from + 1);
                }
            } else {
                assert(at[0] == from);
            }
        }
        at
    }
}

/// What changes do to a live index: every row written joins the list with its
/// vector, in order, every row deleted is masked, and nothing else happens.
/// What is returned says which entry of the list each event became.
pub proof fn changes_reach_the_live_index(v: LiveView, events: Seq<EventView>) -> (at: Seq<int>)
    ensures
        ({
            let now = fed_all(v, events, events.len());
            &&& now.dim == v.dim && now.metric == v.metric && now.baked_row_count == v.baked_row_count && now.params == v.params
            &&& now.delta.len() == v.delta.len() + at.len()
            &&& forall|i: int| 0 <= i < v.delta.len() ==> #[trigger] now.delta[i] == v.delta[i]
            &&& forall|i: int, j: int| 0 <= i < j < at.len() ==> at[i] < at[j]
            &&& forall|i: int| 0 <= i < at.len() ==> 0 <= #[trigger] at[i] < events.len() && match events[at[i]] {
                EventView::Insert(w) => now.delta[v.delta.len() + i] == (w.row_id, w.vector),
                EventView::Update(w) => now.delta[v.delta.len() + i] == (w.row_id, w.vector),
                EventView::Delete { .. } => false,
            }
            &&& forall|i: int| 0 <= i < events.len() && !(events[i] is Delete) ==> #[trigger] at.contains(i)
            &&& forall|x: u32| #[trigger] now.tombstones.contains(x) <==> v.tombstones.contains(x)
                || exists|i: int| 0 <= i < events.len() && #[trigger] events[i] is Delete && events[i]->row_id as u32 == x
        }),
{
    lemma_changes_reach(v, events, events.len())
}

proof fn lemma_changes_reach(v: LiveView, events: Seq<EventView>, n: nat) -> (at: Seq<int>)
    requires
        n <= events.len(),
    ensures
        ({
            let now = fed_all(v, events, n);
            &&& now.dim == v.dim && now.metric == v.metric && now.baked_row_count == v.baked_row_count && now.params == v.params
            &&& now.delta.len() == v.delta.len() + at.len()
            &&& forall|i: int| 0 <= i < v.delta.len() ==> #[trigger] now.delta[i] == v.delta[i]
            &&& forall|i: int, j: int| 0 <= i < j < at.len() ==> at[i] < at[j]
            &&& forall|i: int| 0 <= i < at.len() ==> 0 <= #[trigger] at[i] < n && match events[at[i]] {
                EventView::Insert(w) => now.delta[v.delta.len() + i] == (w.row_id, w.vector),
                EventView::Update(w) => now.delta[v.delta.len() + i] == (w.row_id, w.vector),
                EventView::Delete { .. } => false,
            }
            &&& forall|i: int| 0 <= i < n && !(events[i] is Delete) ==> #[trigger] at.contains(i)
            &&& forall|x: u32| #[trigger] now.tombstones.contains(x) <==> v.tombstones.contains(x)
                || exists|i: int| 0 <= i < n && #[trigger] events[i] is Delete && events[i]->row_id as u32 == x
        }),
    decreases n,
{
    if n == 0 {
        Seq::empty()
    } else {
        let m = (n - 1) as nat;
        let before = lemma_changes_reach(v, events, m);
        let was = fed_all(v, events, m);
        let now = fed_all(v, events, n);
        let e = events[m as int];
        let at = if e is Delete { before } else { before.push(m as int) };
        assert forall|i: int| 0 <= i < at.len() implies 0 <= #[trigger] at[i] < n && match events[at[i]] {
            EventView::Insert(w) => now.delta[v.delta.len() + i] == (w.row_id, w.vector),
            EventView::Update(w) => now.delta[v.delta.len() + i] == (w.row_id, w.vector),
            EventView::Delete { .. } => false,
        } by {
            if i < before.len() {
                assert(at[i] == before[i]);
                assert(now.delta[v.delta.len() + i] == was.delta[v.delta.len() + i]);
            }
        }
        assert forall|i: int| 0 <= i < v.delta.len() implies #[trigger] now.delta[i] == v.delta[i] by {
            assert(was.delta[i] == v.delta[i]);
        }
        assert forall|i: int| 0 <= i < n && !(events[i] is Delete) implies #[trigger] at.contains(i) by {
            if i < m {
                assert(before.contains(i));
                let x = choose|x: int| 0 <= x < before.len() && before[x] == i;
                assert(at[x] == i);
            } else {
                assert(at[before.len() as int] == i);
            }
        }
        assert forall|x: u32| #[trigger] now.tombstones.contains(x) <==> v.tombstones.contains(x)
            || exists|i: int| 0 <= i < n && #[trigger] events[i] is Delete && events[i]->row_id as u32 == x by {
            assert(was.tombstones.contains(x) <==> v.tombstones.contains(x)
                || exists|i: int| 0 <= i < m && #[trigger] events[i] is Delete && events[i]->row_id as u32 == x);
            if e is Delete && e->row_id as u32 == x {
                assert(events[m as int] is Delete);
            }
        }
        at
    }
}

/// A rebuild takes over just what was there when its scan began: what it
/// leaves is the rows written since, and the rows deleted since that were not
/// masked before, with the new number of rows.
pub proof fn a_rebuild_keeps_only_later_changes(before: LiveView, events: Seq<EventView>, row_count: u64)
    ensures
        ({
            let now = fed_all(before, events, events.len());
            let after = rebuilt(now, before.delta.len(), before.tombstones, row_count);
            &&& after.delta.len() == now.delta.len() - before.delta.len()
            &&& forall|i: int| 0 <= i < after.delta.len() ==> #[trigger] after.delta[i] == now.delta[before.delta.len() + i]
            &&& forall|x: u32| #[trigger] after.tombstones.contains(x) <==> now.tombstones.contains(x) && !before.tombstones.contains(x)
            &&& after.baked_row_count == row_count
            &&& after.dim == before.dim && after.metric == before.metric && after.params == before.params
        }),
{
    lemma_fed_grows(before, events, events.len());
    let at = changes_reach_the_live_index(before, events);
}

} // verus!
