//! Fetching the rows of a candidate set for scoring.

use crate::api;
use crate::api::Storage;
use crate::bitmap;
use crate::bitmap::bitmap_to_vec;
use crate::collection;
use crate::flat;
use crate::flat::row_ids;
use crate::grouping;
use crate::hit::{IndexError, IndexResult, SearchHit, SearchResult};
use crate::ids::RowId;
use crate::model::DistanceMetric;
use crate::order;
use crate::params::SearchParams;
use crate::scoring;
use crate::state::{Row, StateView};
use roaring::RoaringBitmap;
use vstd::prelude::*;

verus! {

/// Rows to score, each present if it is still live, and whether the probing
/// budget cut them short.
pub struct Shortlist {
    pub rows: Vec<Option<Row>>,
    pub truncated_by_filter: bool,
}

/// Whether `rows` are the rows of these ids, those that are live.
pub open spec fn lists(s: StateView, ids: Seq<RowId>, rows: Seq<Option<Row>>) -> bool {
    &&& rows.len() == ids.len()
    &&& forall|i: int| 0 <= i < rows.len() ==> collection::is_live_row(s, ids[i].0, #[trigger] rows[i])
}

/// The row ids of a set of positions, ascending.
pub open spec fn ids_of(rows: Set<u32>) -> Seq<RowId> {
    Seq::new(bitmap::listing(rows).len(), |i: int| RowId(bitmap::listing(rows)[i] as u64))
}

/// The row ids of a bitmap, ascending.
pub fn ids_in(rows: &RoaringBitmap) -> (r: Vec<RowId>)
    ensures
        r@ == ids_of(bitmap::rows_of(*rows)),
        forall|i: int| 0 <= i < r@.len() ==> (#[trigger] r@[i]).0 <= u32::MAX && bitmap::rows_of(*rows).contains(r@[i].0 as u32),
{
    let at = bitmap_to_vec(rows);
    proof { bitmap::listing_is(at@, bitmap::rows_of(*rows)); }
    let ids = row_ids(&at);
    assert(ids@ =~= ids_of(bitmap::rows_of(*rows)));
    assert forall|i: int| 0 <= i < ids@.len() implies (#[trigger] ids@[i]).0 <= u32::MAX && bitmap::rows_of(*rows).contains(ids@[i].0 as u32) by {
        assert(at@.contains(at@[i]));
    }
    ids
}

/// Fetches the rows of these ids.
pub fn fetch(storage: &Storage, coll: &str, ids: &Vec<RowId>, truncated_by_filter: bool) -> (r: IndexResult<Shortlist>)
    requires
        storage.wf(),
        forall|i: int| 0 <= i < ids@.len() ==> (#[trigger] ids@[i]).0 <= u32::MAX,
    ensures
        !api::is_open(storage@, coll@) ==> flat::refused_coll(coll@, r),
        api::is_open(storage@, coll@) ==> (r matches Ok(list) && lists(api::named(storage@, coll@).state, ids@, list.rows@)
            && list.truncated_by_filter == truncated_by_filter),
{
    match storage.rows_by_id(coll, ids) {
        Ok(rows) => Ok(Shortlist { rows, truncated_by_filter }),
        Err(e) => Err(IndexError::Storage(e)),
    }
}

/// The empty result.
pub open spec fn nothing(list: Shortlist) -> bool {
    list.rows@.len() == 0 && !list.truncated_by_filter
}

impl Shortlist {
    /// A shortlist of no rows.
    pub fn empty() -> (r: Self)
        ensures
            nothing(r),
    {
        Shortlist { rows: Vec::new(), truncated_by_filter: false }
    }

    /// The results of a search, given the score of each row on the list.
    pub fn finish(&self, scores: &Vec<u32>, metric: DistanceMetric, exact: bool, k: usize, params: &SearchParams) -> (r: SearchResult)
        requires
            scores@.len() == self.rows@.len(),
        ensures
            scoring::top_hits(scoring::hits_of_rows(self.rows@, scores@, metric, exact, self.rows@.len()), k as nat, params.max_chunks_per_doc, r.hits@),
            r.truncated_by_filter == self.truncated_by_filter,
    {
        SearchResult { hits: scoring::finish(&self.rows, scores, metric, exact, k, params.max_chunks_per_doc), truncated_by_filter: self.truncated_by_filter }
    }
}

proof fn lemma_hit_from(rows: Seq<Option<Row>>, scores: Seq<u32>, metric: DistanceMetric, exact: bool, n: nat, w: int) -> (i: int)
    requires
        n <= rows.len(),
        0 <= w < scoring::hits_of_rows(rows, scores, metric, exact, n).len(),
    ensures
        0 <= i < n,
        rows[i] is Some,
        scoring::hits_of_rows(rows, scores, metric, exact, n)[w] == scoring::hit_of(rows[i]->0, scores[i], metric, exact),
    decreases n,
{
    let before = scoring::hits_of_rows(rows, scores, metric, exact, (n - 1) as nat);
    if w < before.len() {
        lemma_hit_from(rows, scores, metric, exact, (n - 1) as nat, w)
    } else {
        n - 1
    }
}

/// Whether every result is among `hits`.
proof fn lemma_top_from(hits: Seq<SearchHit>, k: nat, max: Option<u32>, r: Seq<SearchHit>, j: int) -> (w: int)
    requires
        scoring::top_hits(hits, k, max, r),
        0 <= j < r.len(),
    ensures
        0 <= w < hits.len(),
        r[j] == hits[w],
{
    let ranked = choose|ranked: Seq<SearchHit>| #[trigger] scoring::ranks(hits, ranked) && r == grouping::first(grouping::grouped(ranked, max), k);
    let p = choose|p: Seq<usize>| #[trigger] order::stable_order_of(scoring::score_keys(hits), p) && ranked == scoring::reordered(hits, p);
    let g = grouping::grouped(ranked, max);
    grouping::grouping_keeps_the_order(ranked, max);
    let at = choose|at: Seq<int>| #[trigger] at.len() == g.len()
        && (forall|i: int, j: int| 0 <= i < j < at.len() ==> at[i] < at[j])
        && (forall|i: int| 0 <= i < at.len() ==> 0 <= #[trigger] at[i] < ranked.len() && g[i] == ranked[at[i]]);
    assert(r[j] == g[j]);
    assert(g[j] == ranked[at[j]]);
    p[at[j]] as int
}

/// A row that is gone by the time of the search is never a result: every
/// result is a live row of the shortlist, with the document and place that
/// the row has now.
pub proof fn results_are_live_rows(s: StateView, ids: Seq<RowId>, rows: Seq<Option<Row>>, scores: Seq<u32>, metric: DistanceMetric, exact: bool, k: nat, max: Option<u32>, r: Seq<SearchHit>, j: int)
    requires
        lists(s, ids, rows),
        scoring::top_hits(scoring::hits_of_rows(rows, scores, metric, exact, rows.len()), k, max, r),
        0 <= j < r.len(),
    ensures
        ids.contains(r[j].id),
        s.live.contains(r[j].id.0 as u32),
        s.rows.contains_key(r[j].id.0),
        r[j].exact == exact,
        r[j].metric == metric,
{
    let hits = scoring::hits_of_rows(rows, scores, metric, exact, rows.len());
    let w = lemma_top_from(hits, k, max, r, j);
    let i = lemma_hit_from(rows, scores, metric, exact, rows.len(), w);
    assert(collection::is_live_row(s, ids[i].0, rows[i]));
    assert(r[j].id.0 == ids[i].0);
    assert(ids[i] == r[j].id);
}

proof fn lemma_hits_distinct(s: StateView, ids: Seq<RowId>, rows: Seq<Option<Row>>, scores: Seq<u32>, metric: DistanceMetric, exact: bool, n: nat, a: int, b: int)
    requires
        lists(s, ids, rows),
        ids.no_duplicates(),
        n <= rows.len(),
        0 <= a < b < scoring::hits_of_rows(rows, scores, metric, exact, n).len(),
    ensures
        scoring::hits_of_rows(rows, scores, metric, exact, n)[a].id != scoring::hits_of_rows(rows, scores, metric, exact, n)[b].id,
    decreases n,
{
    let m = (n - 1) as nat;
    let before = scoring::hits_of_rows(rows, scores, metric, exact, m);
    if b < before.len() {
        lemma_hits_distinct(s, ids, rows, scores, metric, exact, m, a, b);
    } else {
        let i = lemma_hit_from(rows, scores, metric, exact, m, a);
        assert(collection::is_live_row(s, ids[i].0, rows[i]));
        assert(collection::is_live_row(s, ids[m as int].0, rows[m as int]));
        assert(ids[i] != ids[m as int]);
    }
}

/// No row is found twice: a list without repeats gives results without
/// repeats.
pub proof fn no_row_is_found_twice(s: StateView, ids: Seq<RowId>, rows: Seq<Option<Row>>, scores: Seq<u32>, metric: DistanceMetric, exact: bool, k: nat, max: Option<u32>, r: Seq<SearchHit>, i: int, j: int)
    requires
        lists(s, ids, rows),
        ids.no_duplicates(),
        scoring::top_hits(scoring::hits_of_rows(rows, scores, metric, exact, rows.len()), k, max, r),
        0 <= i < j < r.len(),
    ensures
        r[i].id != r[j].id,
{
    let hits = scoring::hits_of_rows(rows, scores, metric, exact, rows.len());
    let ranked = choose|ranked: Seq<SearchHit>| #[trigger] scoring::ranks(hits, ranked) && r == grouping::first(grouping::grouped(ranked, max), k);
    let p = choose|p: Seq<usize>| #[trigger] order::stable_order_of(scoring::score_keys(hits), p) && ranked == scoring::reordered(hits, p);
    let g = grouping::grouped(ranked, max);
    grouping::grouping_keeps_the_order(ranked, max);
    let at = choose|at: Seq<int>| #[trigger] at.len() == g.len()
        && (forall|i: int, j: int| 0 <= i < j < at.len() ==> at[i] < at[j])
        && (forall|i: int| 0 <= i < at.len() ==> 0 <= #[trigger] at[i] < ranked.len() && g[i] == ranked[at[i]]);
    assert(r[i] == g[i] && r[j] == g[j]);
    assert(at[i] < at[j]);
    let a = p[at[i]];
    let b = p[at[j]];
    assert(order::comes_first(scoring::score_keys(hits), a, b));
    assert(r[i] == hits[a as int] && r[j] == hits[b as int]);
    if a < b {
        lemma_hits_distinct(s, ids, rows, scores, metric, exact, rows.len(), a as int, b as int);
    } else {
        lemma_hits_distinct(s, ids, rows, scores, metric, exact, rows.len(), b as int, a as int);
    }
}

} // verus!
