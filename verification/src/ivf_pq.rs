//! The quantised inverted-file index: the routed candidates are ordered by a
//! cheap approximate distance, and the first of them are scored exactly.

use crate::api;
use crate::api::Storage;
use crate::bitmap;
use crate::coarse;
use crate::coarse::{rerank_target, CoarseDistances};
use crate::flat;
use crate::grouping;
use crate::hit;
use crate::hit::{IndexError, IndexResult, SearchHit, SearchResult};
use crate::ids::RowId;
use crate::ivf;
use crate::ivf::IvfIndex;
use crate::model::DistanceMetric;
use crate::opq::OpqRotation;
use crate::order;
use crate::order::stable_order;
use crate::params::SearchParams;
use crate::payload::FilterMask;
use crate::pq::PqCodebook;
use crate::scoring;
use crate::shortlist;
use crate::shortlist::{fetch, Shortlist};
use crate::state::{Row, StateView};
use std::collections::HashMap;
use vstd::prelude::*;

verus! {

/// The index: clusters, codebooks, and the code of each row. With a rotation,
/// vectors are turned before they are clustered and coded.
pub struct IvfPqIndex {
    pub dim: usize,
    pub metric: DistanceMetric,
    pub rotation: Option<OpqRotation>,
    pub coarse: IvfIndex,
    pub codebook: PqCodebook,
    pub codes: HashMap<u64, Vec<u8>>,
}

/// The code of a row: the last one that was given for it.
pub open spec fn code_of(ids: Seq<RowId>, codes: Seq<Vec<u8>>, n: nat, id: u64) -> Option<Seq<u8>>
    decreases n,
{
    if n == 0 {
        None
    } else if ids[n - 1].0 == id {
        Some(codes[n - 1]@)
    } else {
        code_of(ids, codes, (n - 1) as nat, id)
    }
}

/// The code that a map has for a row.
pub open spec fn held(codes: Map<u64, Vec<u8>>, id: u64) -> Option<Seq<u8>> {
    if codes.contains_key(id) { Some(codes[id]@) } else { None }
}

/// Those of the first `n` rows that have a code.
pub open spec fn coded(ids: Seq<RowId>, codes: Map<u64, Vec<u8>>, n: nat) -> Seq<RowId>
    decreases n,
{
    if n == 0 {
        Seq::empty()
    } else {
        let before = coded(ids, codes, (n - 1) as nat);
        if codes.contains_key(ids[n - 1].0) { before.push(ids[n - 1]) } else { before }
    }
}

/// The rows that are fetched: nearest first by approximate distance, as many
/// as are reranked; if none are, as many as there will be results.
pub open spec fn shortlisted(ids: Seq<RowId>, distances: Seq<u32>, params: SearchParams, k: nat) -> Seq<RowId> {
    let p = order::sorted(coarse::distance_keys(distances));
    let n = if coarse::shortlist_size(params, k) == 0 { k } else { coarse::shortlist_size(params, k) };
    grouping::first(scoring::reordered(ids, p), n)
}

impl IvfPqIndex {
    /// Whether the clusters are sound.
    pub open spec fn wf(self) -> bool {
        self.coarse.wf()
    }

    /// The index of these rows: `codes[i]` is the code of row `ids[i]`.
    pub fn new(dim: usize, metric: DistanceMetric, rotation: Option<OpqRotation>, coarse: IvfIndex, codebook: PqCodebook, ids: &Vec<RowId>, codes: Vec<Vec<u8>>) -> (r: Self)
        requires
            codes@.len() == ids@.len(),
        ensures
            r.dim == dim,
            r.metric == metric,
            r.rotation == rotation,
            r.coarse == coarse,
            r.codebook == codebook,
            forall|id: u64| #[trigger] held(r.codes@, id) == code_of(ids@, codes@, ids@.len(), id),
    {
        broadcast use vstd::std_specs::hash::group_hash_axioms;

        let ghost given = codes@;
        let mut map: HashMap<u64, Vec<u8>> = HashMap::new();
        let len: usize = ids.len();
        let mut i: usize = 0;
        for code in it: codes
            invariant
                len == ids@.len(),
                it.seq() == given,
                i == it.index(),
                given.len() == ids@.len(),
                forall|id: u64| #[trigger] held(map@, id) == code_of(ids@, given, it.index() as nat, id),
        {
            let ghost was = map@;
            map.insert(ids[i].0, code);
            assert forall|id: u64| #[trigger] held(map@, id) == code_of(ids@, given, (i + 1) as nat, id) by {
                assert(held(was, id) == code_of(ids@, given, i as nat, id));
            }
            i += 1;
        }
        IvfPqIndex { dim, metric, rotation, coarse, codebook, codes: map }
    }

    /// How many leaf clusters there are.
    pub fn n_clusters(&self) -> (r: usize)
        requires
            self.wf(),
        ensures
            r == coarse::leaves_in(self.coarse.coarse@),
    {
        self.coarse.n_clusters()
    }

    /// How many subspaces a code covers.
    pub fn pq_m(&self) -> (r: usize)
        ensures
            r == self.codebook.m,
    {
        self.codebook.m()
    }

    /// Whether vectors are rotated first.
    pub fn opq_enabled(&self) -> (r: bool)
        ensures
            r == (self.rotation is Some),
    {
        self.rotation.is_some()
    }

    /// The coded candidates of a search, by ascending id, and whether the
    /// probing budget cut them short.
    pub fn candidates(&self, query: &Vec<u32>, d: &CoarseDistances, k: usize, filter: Option<&FilterMask>, wide: bool, params: &SearchParams) -> (r: IndexResult<(Vec<RowId>, bool)>)
        requires
            self.wf(),
            query@.len() == self.dim && k > 0 && coarse::leaves_in(self.coarse.coarse@) > 0 ==>
                coarse::distances_fit(self.coarse.coarse@, *d) && ivf::target_fits(*params, filter, k),
        ensures
            query@.len() != self.dim ==> flat::refused_dim(self.dim, query@, r),
            query@.len() == self.dim && (k == 0 || coarse::leaves_in(self.coarse.coarse@) == 0) ==> (r matches Ok((ids, truncated)) && ids@.len() == 0 && !truncated),
            query@.len() == self.dim && k > 0 && coarse::leaves_in(self.coarse.coarse@) > 0 ==> ({
                let (found, cut) = coarse::resolved(self.coarse.coarse@, *d, *params, coarse::mask_of(filter), wide, k as nat);
                let all = shortlist::ids_of(found);
                r matches Ok((ids, truncated)) && truncated == cut && ids@ == coded(all, self.codes@, all.len())
            }),
            r matches Ok((ids, truncated)) ==> forall|i: int| 0 <= i < ids@.len() ==> (#[trigger] ids@[i]).0 <= u32::MAX && self.codes@.contains_key(ids@[i].0),
    {
        broadcast use vstd::std_specs::hash::group_hash_axioms;

        if query.len() != self.dim {
            return Err(IndexError::DimMismatch { expected: self.dim, got: query.len() });
        }
        if k == 0 || self.coarse.n_clusters() == 0 {
            return Ok((Vec::new(), false));
        }
        let (all, truncated) = self.coarse.resolve_candidates(d, params, filter, wide, k);
        let mut ids: Vec<RowId> = Vec::new();
        let mut i: usize = 0;
        while i < all.len()
            invariant
                i <= all@.len(),
                forall|j: int| 0 <= j < all@.len() ==> (#[trigger] all@[j]).0 <= u32::MAX,
                ids@ == coded(all@, self.codes@, i as nat),
                forall|j: int| 0 <= j < ids@.len() ==> (#[trigger] ids@[j]).0 <= u32::MAX && self.codes@.contains_key(ids@[j].0),
            decreases all@.len() - i,
        {
            if self.codes.contains_key(&all[i].0) {
                ids.push(all[i]);
            }
            i += 1;
        }
        Ok((ids, truncated))
    }

    /// Whether a search scores its shortlist exactly. Where nothing is
    /// reranked, the approximate distance stands in for the score.
    pub fn reranks(params: &SearchParams, k: usize) -> (r: bool)
        requires
            params.rerank_k is None ==> 20 * k <= usize::MAX,
        ensures
            r == (coarse::shortlist_size(*params, k as nat) != 0),
    {
        rerank_target(params, k) != 0
    }

    /// The ids of the rows to fetch, given the approximate distance of each
    /// candidate: the nearest ones, nearest first.
    pub fn shortlist(ids: &Vec<RowId>, distances: &Vec<u32>, params: &SearchParams, k: usize) -> (r: Vec<RowId>)
        requires
            distances@.len() == ids@.len(),
            params.rerank_k is None ==> 20 * k <= usize::MAX,
        ensures
            r@ == shortlisted(ids@, distances@, *params, k as nat),
            forall|i: int| 0 <= i < r@.len() ==> ids@.contains(#[trigger] r@[i]),
    {
        let keys = coarse::keys_of(distances);
        let p = stable_order(&keys);
        proof { order::sorted_is(keys@, p@); }
        let target = rerank_target(params, k);
        let limit: usize = if target == 0 { k } else { target };
        let n: usize = if limit < p.len() { limit } else { p.len() };
        let mut out: Vec<RowId> = Vec::new();
        while out.len() < n
            invariant
                out@.len() <= n <= p@.len(),
                keys@.len() == ids@.len(),
                order::stable_order_of(keys@, p@),
                forall|i: int| 0 <= i < out@.len() ==> #[trigger] out@[i] == scoring::reordered(ids@, p@)[i],
            decreases n - out@.len(),
        {
            out.push(ids[p[out.len()]]);
        }
        assert(out@ =~= grouping::first(scoring::reordered(ids@, p@), limit as nat));
        assert forall|i: int| 0 <= i < out@.len() implies ids@.contains(#[trigger] out@[i]) by {
            assert(ids@[p@[i] as int] == out@[i]);
        }
        out
    }

    /// Fetches the rows of a shortlist.
    pub fn fetch_shortlist(&self, storage: &Storage, coll: &str, ids: &Vec<RowId>, truncated: bool) -> (r: IndexResult<Shortlist>)
        requires
            storage.wf(),
            forall|i: int| 0 <= i < ids@.len() ==> (#[trigger] ids@[i]).0 <= u32::MAX,
        ensures
            !api::is_open(storage@, coll@) ==> flat::refused_coll(coll@, r),
            api::is_open(storage@, coll@) ==> (r matches Ok(list) && shortlist::lists(api::named(storage@, coll@).state, ids@, list.rows@)
                && list.truncated_by_filter == truncated),
    {
        fetch(storage, coll, ids, truncated)
    }

    /// The results of a search, given the score of each row on the list: its
    /// exact score where the search reranks, the estimate that its distance
    /// gives where it does not. The results say which of the two it was.
    pub fn finish(&self, list: &Shortlist, scores: &Vec<u32>, k: usize, params: &SearchParams) -> (r: SearchResult)
        requires
            scores@.len() == list.rows@.len(),
            params.rerank_k is None ==> 20 * k <= usize::MAX,
        ensures
            scoring::top_hits(
                scoring::hits_of_rows(list.rows@, scores@, self.metric, coarse::shortlist_size(*params, k as nat) != 0, list.rows@.len()),
                k as nat,
                params.max_chunks_per_doc,
                r.hits@,
            ),
            r.truncated_by_filter == list.truncated_by_filter,
    {
        list.finish(scores, self.metric, IvfPqIndex::reranks(params, k), k, params)
    }
}

/// A result says truly how it was scored: exactly, unless reranking was
/// switched off, and then never. Results are live rows of the shortlist, and
/// no row is among them twice.
pub proof fn results_say_how_they_were_scored(s: StateView, ids: Seq<RowId>, rows: Seq<Option<Row>>, scores: Seq<u32>, metric: DistanceMetric, k: nat, params: SearchParams, r: Seq<SearchHit>, j: int)
    requires
        shortlist::lists(s, ids, rows),
        scoring::top_hits(
            scoring::hits_of_rows(rows, scores, metric, coarse::shortlist_size(params, k) != 0, rows.len()), k, params.max_chunks_per_doc, r),
        0 <= j < r.len(),
    ensures
        params.rerank_k != Some(0usize) ==> r[j].exact,
        params.rerank_k == Some(0usize) ==> !r[j].exact,
        ids.contains(r[j].id),
        s.live.contains(r[j].id.0 as u32),
        ids.no_duplicates() ==> forall|i: int| 0 <= i < r.len() && i != j ==> (#[trigger] r[i]).id != r[j].id,
{
    let exact = coarse::shortlist_size(params, k) != 0;
    shortlist::results_are_live_rows(s, ids, rows, scores, metric, exact, k, params.max_chunks_per_doc, r, j);
    if ids.no_duplicates() {
        assert forall|i: int| 0 <= i < r.len() && i != j implies (#[trigger] r[i]).id != r[j].id by {
            if i < j {
                shortlist::no_row_is_found_twice(s, ids, rows, scores, metric, exact, k, params.max_chunks_per_doc, r, i, j);
            } else {
                shortlist::no_row_is_found_twice(s, ids, rows, scores, metric, exact, k, params.max_chunks_per_doc, r, j, i);
            }
        }
    }
}

proof fn lemma_coded(ids: Seq<RowId>, codes: Map<u64, Vec<u8>>, n: nat)
    requires
        n <= ids.len(),
        ids.no_duplicates(),
    ensures
        coded(ids, codes, n).no_duplicates(),
        coded(ids, codes, n).len() <= n,
        forall|i: int| 0 <= i < coded(ids, codes, n).len() ==> exists|j: int| 0 <= j < n && ids[j] == #[trigger] coded(ids, codes, n)[i],
    decreases n,
{
    if n > 0 {
        lemma_coded(ids, codes, (n - 1) as nat);
        let before = coded(ids, codes, (n - 1) as nat);
        let all = coded(ids, codes, n);
        assert forall|i: int| 0 <= i < all.len() implies exists|j: int| 0 <= j < n && ids[j] == #[trigger] all[i] by {
            if i < before.len() {
                assert(all[i] == before[i]);
                let j = choose|j: int| 0 <= j < n - 1 && ids[j] == before[i];
                assert(ids[j] == all[i]);
            } else {
                assert(ids[n - 1] == all[i]);
            }
        }
        assert forall|a: int, b: int| 0 <= a < all.len() && 0 <= b < all.len() && a != b implies all[a] != all[b] by {
            if a < before.len() && b < before.len() {
                assert(before[a] != before[b]);
            } else {
                let (x, y) = if a < b { (a, b) } else { (b, a) };
                assert(all[x] == before[x]);
                let j = choose|j: int| 0 <= j < n - 1 && ids[j] == before[x];
                assert(ids[j] != ids[n - 1]);
            }
        }
    }
}

/// A search gives at most `k` rows, best first and none of them twice; each
/// is live and, where there is a filter, allowed by it.
pub proof fn results_are_distinct_allowed_rows(
    q: coarse::CoarseView,
    d: CoarseDistances,
    codes: Map<u64, Vec<u8>>,
    mask: Option<(Set<u32>, u64)>,
    wide: bool,
    distances: Seq<u32>,
    s: StateView,
    rows: Seq<Option<Row>>,
    scores: Seq<u32>,
    metric: DistanceMetric,
    k: nat,
    params: SearchParams,
    r: Seq<SearchHit>,
)
    requires
        ({
            let all = shortlist::ids_of(coarse::resolved(q, d, params, mask, wide, k).0);
            let ids = coded(all, codes, all.len());
            &&& distances.len() == ids.len() <= usize::MAX
            &&& shortlist::lists(s, shortlisted(ids, distances, params, k), rows)
        }),
        scoring::top_hits(
            scoring::hits_of_rows(rows, scores, metric, coarse::shortlist_size(params, k) != 0, rows.len()), k, params.max_chunks_per_doc, r),
    ensures
        r.len() <= k,
        forall|i: int, j: int| 0 <= i < j < r.len() ==> (#[trigger] r[i]).id != (#[trigger] r[j]).id
            && hit::float_rank(r[i].score) >= hit::float_rank(r[j].score),
        forall|j: int| 0 <= j < r.len() ==> s.live.contains((#[trigger] r[j]).id.0 as u32),
        mask matches Some((allowed, _)) ==> forall|j: int| 0 <= j < r.len() ==> allowed.contains((#[trigger] r[j]).id.0 as u32),
{
    let found = coarse::resolved(q, d, params, mask, wide, k).0;
    let all = shortlist::ids_of(found);
    let ids = coded(all, codes, all.len());
    let chosen = shortlisted(ids, distances, params, k);
    let exact = coarse::shortlist_size(params, k) != 0;
    bitmap::listing_exists(found);
    let listed = bitmap::listing(found);
    assert(all.no_duplicates()) by {
        assert forall|a: int, b: int| 0 <= a < all.len() && 0 <= b < all.len() && a != b implies all[a] != all[b] by {
            assert(listed[a] != listed[b]) by {
                if a < b {
                    assert(listed[a] < listed[b]);
                } else {
                    assert(listed[b] < listed[a]);
                }
            }
        }
    }
    lemma_coded(all, codes, all.len());
    let keys = coarse::distance_keys(distances);
    order::sorted_exists(keys);
    let p = order::sorted(keys);
    assert(chosen.no_duplicates()) by {
        assert forall|a: int, b: int| 0 <= a < chosen.len() && 0 <= b < chosen.len() && a != b implies chosen[a] != chosen[b] by {
            if a < b {
                assert(order::comes_first(keys, p[a], p[b]));
            } else {
                assert(order::comes_first(keys, p[b], p[a]));
            }
            assert(p[a] != p[b]);
            assert(ids[p[a] as int] != ids[p[b] as int]);
        }
    }
    scoring::results_are_ranked(scoring::hits_of_rows(rows, scores, metric, exact, rows.len()), k, params.max_chunks_per_doc, r);
    assert forall|i: int, j: int| 0 <= i < j < r.len() implies (#[trigger] r[i]).id != (#[trigger] r[j]).id
        && hit::float_rank(r[i].score) >= hit::float_rank(r[j].score) by {
        shortlist::no_row_is_found_twice(s, chosen, rows, scores, metric, exact, k, params.max_chunks_per_doc, r, i, j);
    }
    assert forall|j: int| 0 <= j < r.len() implies s.live.contains((#[trigger] r[j]).id.0 as u32) && found.contains(r[j].id.0 as u32) by {
        shortlist::results_are_live_rows(s, chosen, rows, scores, metric, exact, k, params.max_chunks_per_doc, r, j);
        let a = choose|a: int| 0 <= a < chosen.len() && chosen[a] == r[j].id;
        assert(chosen[a] == ids[p[a] as int]);
        let b = choose|b: int| 0 <= b < all.len() && all[b] == ids[p[a] as int];
        assert(listed.contains(listed[b]));
        assert(found.contains(listed[b]));
    }
    coarse::candidates_are_allowed(q, d, params, mask, wide, k);
}

} // verus!
