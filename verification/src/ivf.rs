//! The inverted-file index: a query is routed to some clusters, and their
//! rows are scored exactly.

use crate::api;
use crate::api::Storage;
use crate::bitmap;
use crate::coarse;
use crate::coarse::{CoarseDistances, CoarseQuantizer, CoarseView};
use crate::collection;
use crate::flat;
use crate::hit::{IndexError, IndexResult, SearchHit};
use crate::ids::RowId;
use crate::model::DistanceMetric;
use crate::params::SearchParams;
use crate::payload::FilterMask;
use crate::scoring;
use crate::shortlist;
use crate::shortlist::{fetch, ids_in, Shortlist};
use crate::state;
use crate::state::{Row, StateView};
use vstd::prelude::*;

verus! {

/// Clustering parameters.
#[derive(Clone, Copy, Debug, PartialEq, Eq)]
pub struct IvfParams {
    pub n_clusters: usize,
    pub kmeans_iters: usize,
    pub seed: u64,
    /// Above this many clusters the quantiser has two levels.
    pub hierarchical_threshold: usize,
}

impl Default for IvfParams {
    fn default() -> (r: Self)
        ensures
            r == (IvfParams { n_clusters: 100, kmeans_iters: 20, seed: 0, hierarchical_threshold: 512 }),
    {
        IvfParams { n_clusters: 100, kmeans_iters: 20, seed: 0, hierarchical_threshold: 512 }
    }
}

/// The index: a snapshot of the rows' clusters at the time of building.
pub struct IvfIndex {
    pub dim: usize,
    pub metric: DistanceMetric,
    pub coarse: CoarseQuantizer,
}

/// Whether the estimate that resolving needs can be computed.
pub open spec fn target_fits(params: SearchParams, filter: Option<&FilterMask>, k: usize) -> bool {
    filter is Some && filter->0.estimated_cardinality > params.filter_exact_threshold && params.rerank_k is None ==> 20 * k <= usize::MAX
}

impl IvfIndex {
    /// Whether the clusters are sound.
    pub open spec fn wf(self) -> bool {
        self.coarse.wf() && coarse::leaves_in(self.coarse@) <= usize::MAX
    }

    /// The index over a quantiser.
    pub fn new(dim: usize, metric: DistanceMetric, coarse: CoarseQuantizer) -> (r: Self)
        ensures
            r == (IvfIndex { dim, metric, coarse }),
    {
        IvfIndex { dim, metric, coarse }
    }

    /// How many leaf clusters there are.
    pub fn n_clusters(&self) -> (r: usize)
        requires
            self.wf(),
        ensures
            r == coarse::leaves_in(self.coarse@),
    {
        self.coarse.n_leaves()
    }

    /// The candidate rows of a search, by ascending id, and whether the
    /// probing budget cut them short.
    pub fn resolve_candidates(&self, d: &CoarseDistances, params: &SearchParams, filter: Option<&FilterMask>, wide: bool, k: usize) -> (r: (Vec<RowId>, bool))
        requires
            self.wf(),
            !coarse::top_is_empty(self.coarse@),
            coarse::distances_fit(self.coarse@, *d),
            target_fits(*params, filter, k),
        ensures
            ({
                let (found, truncated) = coarse::resolved(self.coarse@, *d, *params, coarse::mask_of(filter), wide, k as nat);
                r.0@ == shortlist::ids_of(found) && r.1 == truncated
            }),
            forall|i: int| 0 <= i < r.0@.len() ==> (#[trigger] r.0@[i]).0 <= u32::MAX,
    {
        let (found, truncated) = self.coarse.resolve_candidates(d, params, filter, wide, k);
        (ids_in(&found), truncated)
    }

    /// The rows that a search scores, given the query's distances to the
    /// cluster centres.
    pub fn candidates(&self, storage: &Storage, coll: &str, query: &Vec<u32>, d: &CoarseDistances, k: usize, filter: Option<&FilterMask>, wide: bool, params: &SearchParams) -> (r: IndexResult<Shortlist>)
        requires
            storage.wf(),
            self.wf(),
            query@.len() == self.dim && k > 0 && !coarse::top_is_empty(self.coarse@) ==> coarse::distances_fit(self.coarse@, *d) && target_fits(*params, filter, k),
        ensures
            query@.len() != self.dim ==> flat::refused_dim(self.dim, query@, r),
            query@.len() == self.dim && (k == 0 || coarse::top_is_empty(self.coarse@)) ==> (r matches Ok(list) && shortlist::nothing(list)),
            query@.len() == self.dim && k > 0 && !coarse::top_is_empty(self.coarse@) && !api::is_open(storage@, coll@) ==> flat::refused_coll(coll@, r),
            query@.len() == self.dim && k > 0 && !coarse::top_is_empty(self.coarse@) && api::is_open(storage@, coll@) ==> ({
                let (found, truncated) = coarse::resolved(self.coarse@, *d, *params, coarse::mask_of(filter), wide, k as nat);
                r matches Ok(list) && list.truncated_by_filter == truncated
                    && shortlist::lists(api::named(storage@, coll@).state, shortlist::ids_of(found), list.rows@)
            }),
    {
        if query.len() != self.dim {
            return Err(IndexError::DimMismatch { expected: self.dim, got: query.len() });
        }
        if k == 0 || self.coarse.is_empty() {
            return Ok(Shortlist::empty());
        }
        let (ids, truncated) = self.resolve_candidates(d, params, filter, wide, k);
        fetch(storage, coll, &ids, truncated)
    }
}

proof fn lemma_same_hits(s: StateView, at: Seq<u32>, found: Seq<Option<Row>>, scanned: Seq<Row>, scores: Seq<u32>, metric: DistanceMetric, n: nat)
    requires
        collection::sound(s),
        forall|i: int| 0 <= i < at.len() ==> s.live.contains(#[trigger] at[i]),
        found.len() == at.len(),
        forall|i: int| 0 <= i < at.len() ==> collection::is_live_row(s, at[i] as u64, #[trigger] found[i]),
        flat::rows_at(s, at, scanned),
        n <= at.len(),
    ensures
        scoring::hits_of_rows(found, scores, metric, true, n) == scoring::hits_of_found(scanned, scores, metric).take(n as int),
    decreases n,
{
    let want = scoring::hits_of_found(scanned, scores, metric);
    if n == 0 {
        assert(want.take(0) =~= Seq::<SearchHit>::empty());
    } else {
        lemma_same_hits(s, at, found, scanned, scores, metric, (n - 1) as nat);
        let i = n - 1;
        assert(s.live.contains(at[i]));
        assert(s.rows.contains_key(at[i] as u64));
        assert(collection::is_live_row(s, at[i] as u64, found[i]));
        assert(state::is_row(scanned[i], at[i] as u64, s.rows[at[i] as u64]));
        assert(scoring::hit_of(found[i]->0, scores[i], metric, true) == want[i]);
        assert(want.take(n as int) =~= want.take(n - 1).push(want[i]));
    }
}

/// Probing every cluster is scanning: with every leaf probed and every parent
/// in the beam, an index over the live rows and a flat scan have the same
/// rows to rank, in the same order.
pub proof fn exhaustive_search_is_a_flat_scan(
    s: StateView,
    q: CoarseView,
    d: CoarseDistances,
    params: SearchParams,
    wide: bool,
    k: nat,
    found: Seq<Option<Row>>,
    scanned: Seq<Row>,
    scores: Seq<u32>,
    metric: DistanceMetric,
)
    requires
        collection::sound(s),
        coarse::distances_fit(q, d),
        !coarse::top_is_empty(q),
        coarse::leaves_in(q) <= usize::MAX,
        params.nprobe >= coarse::leaves_in(q),
        q matches CoarseView::Hierarchical(groups) ==> params.beam_width >= groups.len(),
        coarse::all_rows(q) == s.live,
        shortlist::lists(s, shortlist::ids_of(coarse::resolved(q, d, params, None, wide, k).0), found),
        flat::rows_at(s, bitmap::listing(flat::searched(s, None)), scanned),
    ensures
        !coarse::resolved(q, d, params, None, wide, k).1,
        found.len() == scanned.len(),
        scoring::hits_of_rows(found, scores, metric, true, found.len()) == scoring::hits_of_found(scanned, scores, metric),
{
    coarse::exhaustive_probing_finds_every_row(q, d, params.nprobe as nat, params.beam_width as nat);
    let at = bitmap::listing(s.live);
    bitmap::listing_exists(s.live);
    let ids = shortlist::ids_of(s.live);
    assert forall|i: int| 0 <= i < at.len() implies s.live.contains(#[trigger] at[i]) by {
        assert(at.contains(at[i]));
    }
    assert forall|i: int| 0 <= i < at.len() implies collection::is_live_row(s, at[i] as u64, #[trigger] found[i]) by {
        assert(ids[i].0 == at[i] as u64);
    }
    lemma_same_hits(s, at, found, scanned, scores, metric, at.len());
    let want = scoring::hits_of_found(scanned, scores, metric);
    assert(want.take(at.len() as int) =~= want);
}

} // verus!
