//! The coarse quantiser that routes a query to candidate rows: a flat list of
//! clusters, or two levels of them. Distances to the cluster centres are
//! computed outside and come in as bit patterns of 32-bit floats.

use crate::bitmap;
use crate::bitmap::{bitmap_clone, bitmap_insert, bitmap_intersect, bitmap_len, bitmap_new, bitmap_union};
use crate::hit;
use crate::hit::rank_of;
use crate::ids::RowId;
use crate::order;
use crate::order::stable_order;
use crate::params::SearchParams;
use crate::payload::FilterMask;
use crate::state::copy_vector;
use roaring::RoaringBitmap;
use vstd::prelude::*;

verus! {

/// A cluster of the lower level: its centre and its rows.
pub struct Leaf {
    pub centroid: Vec<u32>,
    pub posting_list: RoaringBitmap,
}

/// The clusters, flat or in two levels. A parent without rows has no leaves.
pub enum CoarseQuantizer {
    Flat { centroids: Vec<Vec<u32>>, posting_lists: Vec<RoaringBitmap> },
    Hierarchical { parents: Vec<Vec<u32>>, leaves_by_parent: Vec<Vec<Leaf>> },
}

/// What a quantiser routes to: the rows of each cluster.
pub enum CoarseView {
    Flat(Seq<Set<u32>>),
    Hierarchical(Seq<Seq<Set<u32>>>),
}

/// The rows of each posting list.
pub open spec fn list_views(s: Seq<RoaringBitmap>) -> Seq<Set<u32>> {
    Seq::new(s.len(), |i: int| bitmap::rows_of(s[i]))
}

/// The rows of each leaf.
pub open spec fn leaf_views(s: Seq<Leaf>) -> Seq<Set<u32>> {
    Seq::new(s.len(), |i: int| bitmap::rows_of(s[i].posting_list))
}

/// The rows of each leaf of each parent.
pub open spec fn parent_views(s: Seq<Vec<Leaf>>) -> Seq<Seq<Set<u32>>> {
    Seq::new(s.len(), |i: int| leaf_views(s[i]@))
}

impl View for CoarseQuantizer {
    type V = CoarseView;

    open spec fn view(&self) -> CoarseView {
        match self {
            CoarseQuantizer::Flat { centroids, posting_lists } => CoarseView::Flat(list_views(posting_lists@)),
            CoarseQuantizer::Hierarchical { parents, leaves_by_parent } => CoarseView::Hierarchical(parent_views(leaves_by_parent@)),
        }
    }
}

/// The distances from a query to the cluster centres.
pub enum CoarseDistances {
    Flat(Vec<u32>),
    Hierarchical { parents: Vec<u32>, leaves: Vec<Vec<u32>> },
}

/// Sort keys that put the nearest first.
pub open spec fn distance_keys(d: Seq<u32>) -> Seq<i128> {
    Seq::new(d.len(), |i: int| hit::float_rank(d[i]) as i128)
}

/// The sort keys of each parent's leaves.
pub open spec fn leaf_keys(d: Seq<Vec<u32>>) -> Seq<Seq<i128>> {
    Seq::new(d.len(), |i: int| distance_keys(d[i]@))
}

/// Whether there is a distance for each cluster.
pub open spec fn distances_fit(q: CoarseView, d: CoarseDistances) -> bool {
    match (q, d) {
        (CoarseView::Flat(lists), CoarseDistances::Flat(ds)) => ds@.len() == lists.len(),
        (CoarseView::Hierarchical(groups), CoarseDistances::Hierarchical { parents, leaves }) => {
            &&& parents@.len() == groups.len()
            &&& leaves@.len() == groups.len()
            &&& forall|p: int| 0 <= p < groups.len() ==> (#[trigger] leaves@[p])@.len() == groups[p].len()
        },
        _ => false,
    }
}

/// How many leaf clusters the first `n` parents have.
pub open spec fn leaf_count<T>(groups: Seq<Seq<T>>, n: nat) -> nat
    decreases n,
{
    if n == 0 { 0 } else { leaf_count(groups, (n - 1) as nat) + groups[n - 1].len() }
}

/// How many leaf clusters there are.
pub open spec fn leaves_in(q: CoarseView) -> nat {
    match q {
        CoarseView::Flat(lists) => lists.len(),
        CoarseView::Hierarchical(groups) => leaf_count(groups, groups.len()),
    }
}

/// A number moved into a range.
pub open spec fn clamped(n: nat, lo: nat, hi: nat) -> nat {
    if n < lo { lo } else if n > hi { hi } else { n }
}

/// The members of the groups that the first `n` of `picked` name, in order.
pub open spec fn pooled<T>(groups: Seq<Seq<T>>, picked: Seq<usize>, n: nat) -> Seq<T>
    decreases n,
{
    if n == 0 { Seq::empty() } else { pooled(groups, picked, (n - 1) as nat) + groups[picked[n - 1] as int] }
}

/// The rows of the `n` lists with the smallest keys.
pub open spec fn nearest_rows(lists: Seq<Set<u32>>, keys: Seq<i128>, n: nat) -> Set<u32> {
    Set::new(|row: u32| exists|i: int| 0 <= i < n && i < keys.len() && (#[trigger] lists[order::sorted(keys)[i] as int]).contains(row))
}

/// The candidates for a query. Flat: the rows of the `nprobe` nearest
/// clusters. Two levels: the leaves of the `beam_width` nearest parents are
/// pooled, and the `nprobe` nearest leaves of the pool give the rows.
pub open spec fn routed(q: CoarseView, d: CoarseDistances, nprobe: nat, beam_width: nat) -> Set<u32> {
    match (q, d) {
        (CoarseView::Flat(lists), CoarseDistances::Flat(ds)) => nearest_rows(lists, distance_keys(ds@), clamped(nprobe, 1, lists.len())),
        (CoarseView::Hierarchical(groups), CoarseDistances::Hierarchical { parents, leaves }) => {
            let beam = order::sorted(distance_keys(parents@));
            let width = clamped(beam_width, 1, groups.len());
            nearest_rows(
                pooled(groups, beam, width),
                pooled(leaf_keys(leaves@), beam, width),
                if nprobe < 1 { 1 } else { nprobe },
            )
        },
        _ => Set::empty(),
    }
}

/// Sort keys that put the nearest first.
pub fn keys_of(d: &Vec<u32>) -> (r: Vec<i128>)
    ensures
        r@ == distance_keys(d@),
{
    let mut keys: Vec<i128> = Vec::new();
    while keys.len() < d.len()
        invariant
            keys@.len() <= d@.len(),
            forall|i: int| 0 <= i < keys@.len() ==> #[trigger] keys@[i] == distance_keys(d@)[i],
        decreases d@.len() - keys@.len(),
    {
        keys.push(rank_of(d[keys.len()]));
    }
    assert(keys@ =~= distance_keys(d@));
    keys
}

proof fn lemma_nearest_step(lists: Seq<Set<u32>>, keys: Seq<i128>, n: nat)
    requires
        n < keys.len(),
    ensures
        nearest_rows(lists, keys, n + 1) == nearest_rows(lists, keys, n).union(lists[order::sorted(keys)[n as int] as int]),
{
    let p = order::sorted(keys);
    let now = nearest_rows(lists, keys, n + 1);
    let was = nearest_rows(lists, keys, n);
    assert forall|row: u32| now.contains(row) <==> was.contains(row) || lists[p[n as int] as int].contains(row) by {
        if now.contains(row) {
            let i = choose|i: int| 0 <= i < n + 1 && i < keys.len() && (#[trigger] lists[p[i] as int]).contains(row);
            assert(lists[p[i] as int].contains(row));
        }
        if was.contains(row) {
            let i = choose|i: int| 0 <= i < n && i < keys.len() && (#[trigger] lists[p[i] as int]).contains(row);
            assert(lists[p[i] as int].contains(row));
        }
    }
    assert(now =~= was.union(lists[p[n as int] as int]));
}

fn route_flat(posting_lists: &Vec<RoaringBitmap>, d: &Vec<u32>, nprobe: usize) -> (r: RoaringBitmap)
    requires
        d@.len() == posting_lists@.len(),
        d@.len() > 0,
    ensures
        bitmap::rows_of(r) == nearest_rows(list_views(posting_lists@), distance_keys(d@), clamped(nprobe as nat, 1, d@.len())),
{
    let keys = keys_of(d);
    let p = stable_order(&keys);
    let ghost lists = list_views(posting_lists@);
    proof { order::sorted_is(keys@, p@); }
    let n: usize = if nprobe < 1 { 1 } else if nprobe > d.len() { d.len() } else { nprobe };
    let mut out = bitmap_new();
    let mut i: usize = 0;
    assert(bitmap::rows_of(out) =~= nearest_rows(lists, keys@, 0));
    while i < n
        invariant
            i <= n <= p@.len(),
            p@ == order::sorted(keys@),
            order::stable_order_of(keys@, p@),
            keys@.len() == posting_lists@.len(),
            lists == list_views(posting_lists@),
            bitmap::rows_of(out) == nearest_rows(lists, keys@, i as nat),
        decreases n - i,
    {
        proof { lemma_nearest_step(lists, keys@, i as nat); }
        bitmap_union(&mut out, &posting_lists[p[i]]);
        i += 1;
    }
    out
}

fn route_hierarchical(leaves_by_parent: &Vec<Vec<Leaf>>, parents: &Vec<u32>, leaves: &Vec<Vec<u32>>, nprobe: usize, beam_width: usize) -> (r: RoaringBitmap)
    requires
        parents@.len() == leaves_by_parent@.len(),
        parents@.len() > 0,
        leaves@.len() == leaves_by_parent@.len(),
        forall|p: int| 0 <= p < leaves@.len() ==> (#[trigger] leaves@[p])@.len() == leaves_by_parent@[p]@.len(),
    ensures
        bitmap::rows_of(r) == ({
            let groups = parent_views(leaves_by_parent@);
            let beam = order::sorted(distance_keys(parents@));
            let width = clamped(beam_width as nat, 1, groups.len());
            nearest_rows(pooled(groups, beam, width), pooled(leaf_keys(leaves@), beam, width), if nprobe < 1 { 1 } else { nprobe as nat })
        }),
{
    let ghost groups = parent_views(leaves_by_parent@);
    let ghost kgroups = leaf_keys(leaves@);
    let parent_keys = keys_of(parents);
    let beam = stable_order(&parent_keys);
    proof { order::sorted_is(parent_keys@, beam@); }
    let width: usize = if beam_width < 1 { 1 } else if beam_width > parents.len() { parents.len() } else { beam_width };
    let mut keys: Vec<i128> = Vec::new();
    let mut from: Vec<(usize, usize)> = Vec::new();
    let mut b: usize = 0;
    while b < width
        invariant
            b <= width <= beam@.len(),
            order::stable_order_of(parent_keys@, beam@),
            parent_keys@.len() == leaves@.len(),
            leaves@.len() == leaves_by_parent@.len(),
            forall|p: int| 0 <= p < leaves@.len() ==> (#[trigger] leaves@[p])@.len() == leaves_by_parent@[p]@.len(),
            groups == parent_views(leaves_by_parent@),
            kgroups == leaf_keys(leaves@),
            keys@ == pooled(kgroups, beam@, b as nat),
            from@.len() == pooled(groups, beam@, b as nat).len(),
            from@.len() == keys@.len(),
            forall|i: int| 0 <= i < from@.len() ==> (#[trigger] from@[i]).0 < leaves_by_parent@.len()
                && from@[i].1 < leaves_by_parent@[from@[i].0 as int]@.len()
                && bitmap::rows_of(leaves_by_parent@[from@[i].0 as int]@[from@[i].1 as int].posting_list) == pooled(groups, beam@, b as nat)[i],
        decreases width - b,
    {
        let parent = beam[b];
        let ghost was_keys = keys@;
        let ghost was = pooled(groups, beam@, b as nat);
        let ghost group = groups[parent as int];
        assert(leaves@[parent as int]@.len() == leaves_by_parent@[parent as int]@.len());
        let mut li: usize = 0;
        assert(was_keys + kgroups[parent as int].take(0) =~= was_keys);
        while li < leaves_by_parent[parent].len()
            invariant
                parent < leaves_by_parent@.len(),
                leaves@.len() == leaves_by_parent@.len(),
                leaves@[parent as int]@.len() == leaves_by_parent@[parent as int]@.len(),
                li <= leaves_by_parent@[parent as int]@.len(),
                groups == parent_views(leaves_by_parent@),
                kgroups == leaf_keys(leaves@),
                group == groups[parent as int],
                keys@ == was_keys + kgroups[parent as int].take(li as int),
                from@.len() == was.len() + li,
                forall|i: int| 0 <= i < from@.len() ==> (#[trigger] from@[i]).0 < leaves_by_parent@.len()
                    && from@[i].1 < leaves_by_parent@[from@[i].0 as int]@.len()
                    && bitmap::rows_of(leaves_by_parent@[from@[i].0 as int]@[from@[i].1 as int].posting_list) == (was + group)[i],
            decreases leaves_by_parent@[parent as int]@.len() - li,
        {
            keys.push(rank_of(leaves[parent][li]));
            from.push((parent, li));
            proof {
                assert(kgroups[parent as int][li as int] == hit::float_rank(leaves@[parent as int]@[li as int]) as i128);
                assert(kgroups[parent as int].take(li + 1) =~= kgroups[parent as int].take(li as int).push(kgroups[parent as int][li as int]));
                assert((was + group)[was.len() + li] == group[li as int]);
            }
            li += 1;
        }
        assert(kgroups[parent as int].take(li as int) =~= kgroups[parent as int]);
        b += 1;
    }
    let ghost lists = pooled(groups, beam@, width as nat);
    let p = stable_order(&keys);
    proof { order::sorted_is(keys@, p@); }
    let want: usize = if nprobe < 1 { 1 } else { nprobe };
    let n: usize = if want > p.len() { p.len() } else { want };
    let mut out = bitmap_new();
    let mut i: usize = 0;
    assert(bitmap::rows_of(out) =~= nearest_rows(lists, keys@, 0));
    while i < n
        invariant
            i <= n <= p@.len(),
            p@ == order::sorted(keys@),
            order::stable_order_of(keys@, p@),
            keys@.len() == lists.len(),
            from@.len() == lists.len(),
            forall|k: int| 0 <= k < from@.len() ==> (#[trigger] from@[k]).0 < leaves_by_parent@.len()
                && from@[k].1 < leaves_by_parent@[from@[k].0 as int]@.len()
                && bitmap::rows_of(leaves_by_parent@[from@[k].0 as int]@[from@[k].1 as int].posting_list) == lists[k],
            bitmap::rows_of(out) == nearest_rows(lists, keys@, i as nat),
        decreases n - i,
    {
        let at = p[i];
        proof { lemma_nearest_step(lists, keys@, i as nat); }
        assert(from@[at as int].0 < leaves_by_parent@.len());
        let (parent, li) = from[at];
        bitmap_union(&mut out, &leaves_by_parent[parent][li].posting_list);
        i += 1;
    }
    proof {
        if n < want {
            assert(nearest_rows(lists, keys@, want as nat) =~= nearest_rows(lists, keys@, n as nat)) by {
                assert forall|row: u32| nearest_rows(lists, keys@, want as nat).contains(row) implies nearest_rows(lists, keys@, n as nat).contains(row) by {
                    let k = choose|k: int| 0 <= k < want && k < keys@.len() && (#[trigger] lists[order::sorted(keys@)[k] as int]).contains(row);
                    assert(lists[order::sorted(keys@)[k] as int].contains(row));
                }
                assert forall|row: u32| nearest_rows(lists, keys@, n as nat).contains(row) implies nearest_rows(lists, keys@, want as nat).contains(row) by {
                    let k = choose|k: int| 0 <= k < n && k < keys@.len() && (#[trigger] lists[order::sorted(keys@)[k] as int]).contains(row);
                    assert(lists[order::sorted(keys@)[k] as int].contains(row));
                }
            }
        }
    }
    out
}

impl CoarseQuantizer {
    /// Whether every cluster has its list.
    pub open spec fn wf(self) -> bool {
        match self {
            CoarseQuantizer::Flat { centroids, posting_lists } => centroids@.len() == posting_lists@.len(),
            CoarseQuantizer::Hierarchical { parents, leaves_by_parent } => parents@.len() == leaves_by_parent@.len(),
        }
    }

    /// A quantiser without clusters.
    pub fn empty() -> (r: Self)
        ensures
            r.wf(),
            r@ == CoarseView::Flat(Seq::empty()),
    {
        let r = CoarseQuantizer::Flat { centroids: Vec::new(), posting_lists: Vec::new() };
        assert(list_views(r->posting_lists@) =~= Seq::<Set<u32>>::empty());
        r
    }

    /// Whether there are no clusters at the top.
    pub fn is_empty(&self) -> (r: bool)
        requires
            self.wf(),
        ensures
            r == top_is_empty(self@),
    {
        match self {
            CoarseQuantizer::Flat { centroids, .. } => centroids.len() == 0,
            CoarseQuantizer::Hierarchical { parents, .. } => parents.len() == 0,
        }
    }

    /// How many leaf clusters there are.
    pub fn n_leaves(&self) -> (r: usize)
        requires
            self.wf(),
            leaves_in(self@) <= usize::MAX,
        ensures
            r == leaves_in(self@),
    {
        match self {
            CoarseQuantizer::Flat { centroids, .. } => centroids.len(),
            CoarseQuantizer::Hierarchical { leaves_by_parent, .. } => {
                let ghost groups = parent_views(leaves_by_parent@);
                let mut n: usize = 0;
                let mut p: usize = 0;
                while p < leaves_by_parent.len()
                    invariant
                        p <= leaves_by_parent@.len(),
                        groups == parent_views(leaves_by_parent@),
                        leaf_count(groups, groups.len()) <= usize::MAX,
                        n == leaf_count(groups, p as nat),
                    decreases leaves_by_parent@.len() - p,
                {
                    proof { lemma_leaf_count_grows(groups, (p + 1) as nat, groups.len()); }
                    n = n + leaves_by_parent[p].len();
                    p += 1;
                }
                n
            },
        }
    }

    /// The candidate rows of a query.
    pub fn route_candidates(&self, d: &CoarseDistances, nprobe: usize, beam_width: usize) -> (r: RoaringBitmap)
        requires
            self.wf(),
            !top_is_empty(self@),
            distances_fit(self@, *d),
        ensures
            bitmap::rows_of(r) == routed(self@, *d, nprobe as nat, beam_width as nat),
    {
        match (self, d) {
            (CoarseQuantizer::Flat { posting_lists, .. }, CoarseDistances::Flat(ds)) => route_flat(posting_lists, ds, nprobe),
            (CoarseQuantizer::Hierarchical { leaves_by_parent, .. }, CoarseDistances::Hierarchical { parents, leaves }) => {
                proof {
                    let groups = parent_views(leaves_by_parent@);
                    assert forall|p: int| 0 <= p < leaves@.len() implies (#[trigger] leaves@[p])@.len() == leaves_by_parent@[p]@.len() by {
                        assert(groups[p].len() == leaves_by_parent@[p]@.len());
                    }
                }
                route_hierarchical(leaves_by_parent, parents, leaves, nprobe, beam_width)
            },
            _ => bitmap_new(),
        }
    }
    /// Routes with a doubling number of probes, keeping the allowed rows,
    /// until there are `target` of them or the cap is reached. Also tells
    /// whether the cap cut the search short.
    pub fn route_with_escalation(&self, d: &CoarseDistances, start_nprobe: usize, beam_width: usize, allowed: &RoaringBitmap, target: usize, requested_cap: usize) -> (r: (RoaringBitmap, bool))
        requires
            self.wf(),
            !top_is_empty(self@),
            distances_fit(self@, *d),
            leaves_in(self@) <= usize::MAX,
        ensures
            (bitmap::rows_of(r.0), r.1) == escalation(self@, *d, start_nprobe as nat, beam_width as nat, bitmap::rows_of(*allowed), target as nat, requested_cap as nat),
    {
        let leaves = self.n_leaves();
        let n_leaves: usize = if leaves < 1 { 1 } else { leaves };
        let cap: usize = if requested_cap < 1 { 1 } else if requested_cap > n_leaves { n_leaves } else { requested_cap };
        let cap_is_exhaustive = requested_cap >= n_leaves;
        let mut nprobe: usize = if start_nprobe < 1 { 1 } else if start_nprobe > cap { cap } else { start_nprobe };
        let ghost goal = escalated(self@, *d, beam_width as nat, bitmap::rows_of(*allowed), target as nat, cap as nat, nprobe as nat);
        loop
            invariant
                self.wf(),
                !top_is_empty(self@),
                distances_fit(self@, *d),
                1 <= nprobe <= cap,
                cap_is_exhaustive == (requested_cap >= n_leaves),
                goal == escalated(self@, *d, beam_width as nat, bitmap::rows_of(*allowed), target as nat, cap as nat, nprobe as nat),
                escalation(self@, *d, start_nprobe as nat, beam_width as nat, bitmap::rows_of(*allowed), target as nat, requested_cap as nat)
                    == (goal, !cap_is_exhaustive && goal.len() < target),
            decreases cap - nprobe,
        {
            let mut candidates = self.route_candidates(d, nprobe, beam_width);
            bitmap_intersect(&mut candidates, allowed);
            let count = bitmap_len(&candidates);
            if count >= target as u64 || nprobe >= cap {
                let truncated = !cap_is_exhaustive && count < target as u64;
                return (candidates, truncated);
            }
            nprobe = if nprobe > cap - nprobe { cap } else { nprobe * 2 };
        }
    }

    /// The candidates of a search and whether the probing budget cut them
    /// short. Without a filter the query is routed plainly. A mask of at most
    /// `filter_exact_threshold` rows is itself the candidate set. A narrow
    /// filter routes with escalation from the start; a wide one, which
    /// `wide` tells, only if plain routing leaves fewer than `k` allowed rows.
    pub fn resolve_candidates(&self, d: &CoarseDistances, params: &SearchParams, filter: Option<&FilterMask>, wide: bool, k: usize) -> (r: (RoaringBitmap, bool))
        requires
            self.wf(),
            !top_is_empty(self@),
            distances_fit(self@, *d),
            leaves_in(self@) <= usize::MAX,
            filter is Some && filter->0.estimated_cardinality > params.filter_exact_threshold && params.rerank_k is None ==> 20 * k <= usize::MAX,
        ensures
            (bitmap::rows_of(r.0), r.1) == resolved(self@, *d, *params, mask_of(filter), wide, k as nat),
    {
        match filter {
            None => (self.route_candidates(d, params.nprobe, params.beam_width), false),
            Some(f) => {
                if f.estimated_cardinality <= params.filter_exact_threshold as u64 {
                    return (bitmap_clone(&f.allowed), false);
                }
                let target = rerank_target(params, k);
                let nprobe_max: usize = match params.filter_nprobe_max {
                    Some(n) => n,
                    None => match params.nprobe.checked_mul(4) {
                        Some(n) => n,
                        None => usize::MAX,
                    },
                };
                if wide {
                    let mut plain = self.route_candidates(d, params.nprobe, params.beam_width);
                    bitmap_intersect(&mut plain, &f.allowed);
                    if bitmap_len(&plain) >= k as u64 {
                        return (plain, false);
                    }
                }
                self.route_with_escalation(d, params.nprobe, params.beam_width, &f.allowed, target, nprobe_max)
            },
        }
    }
}

/// The rows of a mask and how many it is estimated to allow.
pub open spec fn mask_of(filter: Option<&FilterMask>) -> Option<(Set<u32>, u64)> {
    match filter {
        Some(f) => Some((bitmap::rows_of(f.allowed), f.estimated_cardinality)),
        None => None,
    }
}

/// How many candidates a search shortlists: what the parameters say, else
/// twenty for each result and at least two hundred.
pub open spec fn shortlist_size(params: SearchParams, k: nat) -> nat {
    match params.rerank_k {
        Some(n) => n as nat,
        None => if 20 * k > 200 { 20 * k } else { 200 },
    }
}

/// How many candidates a search shortlists.
pub fn rerank_target(params: &SearchParams, k: usize) -> (r: usize)
    requires
        params.rerank_k is None ==> 20 * k <= usize::MAX,
    ensures
        r == shortlist_size(*params, k as nat),
{
    match params.rerank_k {
        Some(n) => n,
        None => if 20 * k > 200 { 20 * k } else { 200 },
    }
}

/// How many clusters a filtered search probes at most.
pub open spec fn probe_limit(params: SearchParams) -> nat {
    match params.filter_nprobe_max {
        Some(n) => n as nat,
        None => if params.nprobe * 4 > usize::MAX { usize::MAX as nat } else { (params.nprobe * 4) as nat },
    }
}

/// The allowed candidates once probing has stopped: the number of probes
/// doubles, up to the cap, while there are fewer than `target`.
pub open spec fn escalated(q: CoarseView, d: CoarseDistances, beam_width: nat, allowed: Set<u32>, target: nat, cap: nat, nprobe: nat) -> Set<u32>
    decreases cap - nprobe,
{
    let found = routed(q, d, nprobe, beam_width).intersect(allowed);
    if found.len() >= target || nprobe >= cap {
        found
    } else {
        escalated(q, d, beam_width, allowed, target, cap, clamped(2 * nprobe, nprobe + 1, cap))
    }
}

/// What escalation comes to. The cap is held to the number of leaves; only a
/// cap below that number can cut the search short.
pub open spec fn escalation(q: CoarseView, d: CoarseDistances, start_nprobe: nat, beam_width: nat, allowed: Set<u32>, target: nat, requested_cap: nat) -> (Set<u32>, bool) {
    let leaves = if leaves_in(q) < 1 { 1 } else { leaves_in(q) };
    let cap = clamped(requested_cap, 1, leaves);
    let found = escalated(q, d, beam_width, allowed, target, cap, clamped(start_nprobe, 1, cap));
    (found, requested_cap < leaves && found.len() < target)
}

/// What the candidates of a search come to.
pub open spec fn resolved(q: CoarseView, d: CoarseDistances, params: SearchParams, mask: Option<(Set<u32>, u64)>, wide: bool, k: nat) -> (Set<u32>, bool) {
    let plain = routed(q, d, params.nprobe as nat, params.beam_width as nat);
    match mask {
        None => (plain, false),
        Some((allowed, estimate)) => {
            if estimate <= params.filter_exact_threshold {
                (allowed, false)
            } else if wide && plain.intersect(allowed).len() >= k {
                (plain.intersect(allowed), false)
            } else {
                escalation(q, d, params.nprobe as nat, params.beam_width as nat, allowed, shortlist_size(params, k), probe_limit(params))
            }
        },
    }
}

proof fn lemma_escalated_allowed(q: CoarseView, d: CoarseDistances, beam_width: nat, allowed: Set<u32>, target: nat, cap: nat, nprobe: nat)
    ensures
        escalated(q, d, beam_width, allowed, target, cap, nprobe).subset_of(allowed),
    decreases cap - nprobe,
{
    let found = routed(q, d, nprobe, beam_width).intersect(allowed);
    if found.len() < target && nprobe < cap {
        lemma_escalated_allowed(q, d, beam_width, allowed, target, cap, clamped(2 * nprobe, nprobe + 1, cap));
    }
}

/// Under a filter every candidate is a row that the filter allows.
pub proof fn candidates_are_allowed(q: CoarseView, d: CoarseDistances, params: SearchParams, mask: Option<(Set<u32>, u64)>, wide: bool, k: nat)
    ensures
        mask matches Some((allowed, _)) ==> resolved(q, d, params, mask, wide, k).0.subset_of(allowed),
{
    if let Some((allowed, _)) = mask {
        let leaves = if leaves_in(q) < 1 { 1 } else { leaves_in(q) };
        let cap = clamped(probe_limit(params), 1, leaves);
        lemma_escalated_allowed(q, d, params.beam_width as nat, allowed, shortlist_size(params, k), cap, clamped(params.nprobe as nat, 1, cap));
    }
}

/// Whether there are no clusters at the top.
pub open spec fn top_is_empty(q: CoarseView) -> bool {
    match q {
        CoarseView::Flat(lists) => lists.len() == 0,
        CoarseView::Hierarchical(groups) => groups.len() == 0,
    }
}

proof fn lemma_leaf_count_grows<T>(groups: Seq<Seq<T>>, a: nat, b: nat)
    requires
        a <= b,
    ensures
        leaf_count(groups, a) <= leaf_count(groups, b),
    decreases b,
{
    if a < b {
        lemma_leaf_count_grows(groups, a, (b - 1) as nat);
    }
}

/// A clustering of points: the cluster centres, and each point's cluster.
pub struct KmeansResult {
    pub centroids: Vec<Vec<u32>>,
    pub assignments: Vec<usize>,
}

/// Whether a clustering is one of `n` points.
pub open spec fn clusters(c: KmeansResult, n: nat) -> bool {
    &&& c.assignments@.len() == n
    &&& forall|i: int| 0 <= i < n ==> #[trigger] c.assignments@[i] < c.centroids@.len()
}

/// Whether every row has a bitmap position.
pub open spec fn rows_fit(rows: Seq<RowId>) -> bool {
    forall|i: int| 0 <= i < rows.len() ==> (#[trigger] rows[i]).0 <= u32::MAX
}

/// The rows that the first `n` assignments put in a cluster.
pub open spec fn cluster_rows(rows: Seq<RowId>, assignments: Seq<usize>, cluster: int, n: int) -> Set<u32> {
    Set::new(|row: u32| exists|i: int| 0 <= i < n && (#[trigger] rows[i]).0 == row && assignments[i] == cluster)
}

/// The rows of each cluster.
pub open spec fn cluster_lists(rows: Seq<RowId>, c: KmeansResult) -> Seq<Set<u32>> {
    Seq::new(c.centroids@.len(), |k: int| cluster_rows(rows, c.assignments@, k, rows.len() as int))
}

fn fill_lists(rows: &Vec<RowId>, c: &KmeansResult) -> (r: Vec<RoaringBitmap>)
    requires
        rows_fit(rows@),
        clusters(*c, rows@.len()),
    ensures
        r@.len() == c.centroids@.len(),
        list_views(r@) == cluster_lists(rows@, *c),
{
    let mut lists: Vec<RoaringBitmap> = Vec::new();
    while lists.len() < c.centroids.len()
        invariant
            lists@.len() <= c.centroids@.len(),
            forall|k: int| 0 <= k < lists@.len() ==> bitmap::rows_of(#[trigger] lists@[k]) == Set::<u32>::empty(),
        decreases c.centroids@.len() - lists@.len(),
    {
        lists.push(bitmap_new());
    }
    let mut i: usize = 0;
    assert forall|k: int| 0 <= k < lists@.len() implies bitmap::rows_of(#[trigger] lists@[k]) == cluster_rows(rows@, c.assignments@, k, 0) by {
        assert(cluster_rows(rows@, c.assignments@, k, 0) =~= Set::<u32>::empty());
    }
    while i < rows.len()
        invariant
            i <= rows@.len(),
            rows_fit(rows@),
            clusters(*c, rows@.len()),
            lists@.len() == c.centroids@.len(),
            forall|k: int| 0 <= k < lists@.len() ==> bitmap::rows_of(#[trigger] lists@[k]) == cluster_rows(rows@, c.assignments@, k, i as int),
        decreases rows@.len() - i,
    {
        let ghost was = lists@;
        let at = c.assignments[i];
        let row = rows[i].to_bitmap_index();
        bitmap_insert(&mut lists[at], row);
        assert forall|k: int| 0 <= k < lists@.len() implies bitmap::rows_of(#[trigger] lists@[k]) == cluster_rows(rows@, c.assignments@, k, i + 1) by {
            let old_rows = cluster_rows(rows@, c.assignments@, k, i as int);
            let new_rows = cluster_rows(rows@, c.assignments@, k, i + 1);
            assert(bitmap::rows_of(was[k]) == old_rows);
            assert forall|x: u32| new_rows.contains(x) <==> (old_rows.contains(x) || (k == at && x == row)) by {
                if new_rows.contains(x) {
                    let w = choose|w: int| 0 <= w < i + 1 && (#[trigger] rows@[w]).0 == x && c.assignments@[w] == k;
                    assert(rows@[w].0 == x);
                }
                if old_rows.contains(x) {
                    let w = choose|w: int| 0 <= w < i && (#[trigger] rows@[w]).0 == x && c.assignments@[w] == k;
                    assert(rows@[w].0 == x);
                }
                if k == at && x == row {
                    assert(rows@[i as int].0 == x);
                }
            }
            if k == at {
                assert(new_rows =~= old_rows.insert(row));
            } else {
                assert(new_rows =~= old_rows);
            }
        }
        i += 1;
    }
    assert(list_views(lists@) =~= cluster_lists(rows@, *c));
    lists
}

/// The points, among the first `n`, that are in a cluster.
pub open spec fn members(assignments: Seq<usize>, cluster: int, n: nat) -> Seq<usize>
    decreases n,
{
    if n == 0 {
        Seq::empty()
    } else {
        let before = members(assignments, cluster, (n - 1) as nat);
        if assignments[n - 1] == cluster { before.push((n - 1) as usize) } else { before }
    }
}

/// The rows at these positions.
pub open spec fn picked_rows(rows: Seq<RowId>, at: Seq<usize>) -> Seq<RowId> {
    Seq::new(at.len(), |i: int| rows[at[i] as int])
}

/// The points that are in a cluster.
pub fn members_of(assignments: &Vec<usize>, cluster: usize) -> (r: Vec<usize>)
    ensures
        r@ == members(assignments@, cluster as int, assignments@.len()),
        forall|i: int| 0 <= i < r@.len() ==> #[trigger] r@[i] < assignments@.len(),
{
    let mut out: Vec<usize> = Vec::new();
    let mut i: usize = 0;
    while i < assignments.len()
        invariant
            i <= assignments@.len(),
            out@ == members(assignments@, cluster as int, i as nat),
            forall|k: int| 0 <= k < out@.len() ==> #[trigger] out@[k] < i,
        decreases assignments@.len() - i,
    {
        if assignments[i] == cluster {
            out.push(i);
        }
        i += 1;
    }
    out
}

/// The leaves of a parent with these rows.
pub open spec fn leaf_lists(rows: Seq<RowId>, c: KmeansResult) -> Seq<Set<u32>> {
    if rows.len() == 0 { Seq::empty() } else { cluster_lists(rows, c) }
}

/// The rows of each parent.
pub open spec fn parent_rows(rows: Seq<RowId>, level1: KmeansResult, parent: int) -> Seq<RowId> {
    picked_rows(rows, members(level1.assignments@, parent, rows.len()))
}

/// What each kind of quantiser is built from.
#[derive(Clone, Copy, Debug, PartialEq, Eq)]
pub enum BuildPlan {
    /// There are no rows.
    Empty,
    /// One clustering.
    Flat { clusters: usize },
    /// A clustering into parents, and one of each parent's rows.
    Hierarchical { parents: usize, children_per_parent: usize },
}

/// Whether `r` is the square root, rounded up.
pub open spec fn is_ceil_sqrt(n: int, r: int) -> bool {
    r >= 0 && n <= r * r && (r == 0 || (r - 1) * (r - 1) < n)
}

/// The square root, rounded up.
pub fn ceil_sqrt(n: u64) -> (r: u64)
    ensures
        is_ceil_sqrt(n as int, r as int),
        r <= n,
{
    if n == 0 {
        return 0;
    }
    let mut lo: u64 = 0;
    let mut hi: u64 = 0x1_0000_0000;
    while hi - lo > 1
        invariant
            0 <= lo < hi <= 0x1_0000_0000,
            lo * lo < n <= hi * hi,
        decreases hi - lo,
    {
        let mid: u64 = lo + (hi - lo) / 2;
        assert(mid * mid <= 0xFFFF_FFFF * 0xFFFF_FFFF) by (nonlinear_arith)
            requires
                mid <= 0xFFFF_FFFF,
        ;
        if mid * mid < n {
            lo = mid;
        } else {
            hi = mid;
        }
    }
    assert(lo <= lo * lo) by (nonlinear_arith)
        requires
            lo >= 0,
    ;
    hi
}

/// Whether `c` is `n / p`, rounded up.
pub open spec fn is_ceil_div(n: int, p: int, c: int) -> bool {
    p > 0 && c * p >= n && (c - 1) * p < n
}

fn ceil_div(n: usize, p: usize) -> (r: usize)
    requires
        p > 0,
    ensures
        is_ceil_div(n as int, p as int, r as int),
{
    let q = n / p;
    proof {
        vstd::arithmetic::div_mod::lemma_fundamental_div_mod(n as int, p as int);
        vstd::arithmetic::mul::lemma_mul_is_commutative(p as int, q as int);
        vstd::arithmetic::mul::lemma_mul_is_distributive_add_other_way(p as int, q as int, 1);
        vstd::arithmetic::mul::lemma_mul_is_distributive_sub_other_way(p as int, q as int, 1);
        if n % p != 0 && p == 1 {
            assert(n % 1 == 0);
        }
        if n % p != 0 {
            assert(q < n) by (nonlinear_arith)
                requires
                    q * p + n % p == n,
                    n % p > 0,
                    p > 0,
                    q >= 0,
            ;
        }
    }
    if n % p == 0 { q } else { q + 1 }
}

/// What a quantiser is built from: nothing without rows, one clustering up to
/// the threshold, two levels above it. The number of parents is the square
/// root of the number of clusters, rounded up, and the children share the
/// clusters out among them.
pub open spec fn is_plan(rows: nat, n_clusters: nat, threshold: nat, plan: BuildPlan) -> bool {
    if rows == 0 {
        plan == BuildPlan::Empty
    } else if n_clusters <= threshold {
        plan matches BuildPlan::Flat { clusters } && clusters == n_clusters
    } else {
        plan matches BuildPlan::Hierarchical { parents, children_per_parent }
            && is_ceil_sqrt(n_clusters as int, parents as int)
            && is_ceil_div(n_clusters as int, parents as int, children_per_parent as int)
    }
}

/// What a quantiser is built from.
pub fn plan_build(rows: usize, n_clusters: usize, hierarchical_threshold: usize) -> (r: BuildPlan)
    ensures
        is_plan(rows as nat, n_clusters as nat, hierarchical_threshold as nat, r),
{
    if rows == 0 {
        return BuildPlan::Empty;
    }
    if n_clusters <= hierarchical_threshold {
        return BuildPlan::Flat { clusters: n_clusters };
    }
    let root = ceil_sqrt(n_clusters as u64);
    let parents: usize = root as usize;
    assert(parents > 0) by {
        if root == 0 {
            assert(root * root == 0);
        }
    }
    BuildPlan::Hierarchical { parents, children_per_parent: ceil_div(n_clusters, parents) }
}

/// The seed of a parent's own clustering, another one for each parent.
pub fn child_seed(seed: u64, parent: usize) -> (r: u64)
    ensures
        r as int == (seed + 1 + parent) % 0x1_0000_0000_0000_0000,
{
    seed.wrapping_add(1).wrapping_add(parent as u64)
}

impl CoarseQuantizer {
    /// A flat quantiser: the rows of each cluster.
    pub fn build_flat(rows: &Vec<RowId>, c: KmeansResult) -> (r: Self)
        requires
            rows_fit(rows@),
            clusters(c, rows@.len()),
        ensures
            r.wf(),
            r@ == CoarseView::Flat(cluster_lists(rows@, c)),
            r matches CoarseQuantizer::Flat { centroids, posting_lists } && centroids@ == c.centroids@,
    {
        let posting_lists = fill_lists(rows, &c);
        CoarseQuantizer::Flat { centroids: c.centroids, posting_lists }
    }

    /// A quantiser of two levels: `level2[p]` clusters the rows of parent
    /// `p`, in the order in which they stand in `rows`.
    pub fn build_hierarchical(rows: &Vec<RowId>, level1: KmeansResult, level2: Vec<KmeansResult>) -> (r: Self)
        requires
            rows_fit(rows@),
            clusters(level1, rows@.len()),
            level2@.len() == level1.centroids@.len(),
            forall|p: int| 0 <= p < level2@.len() ==> clusters(#[trigger] level2@[p], parent_rows(rows@, level1, p).len()),
        ensures
            r.wf(),
            r@ == CoarseView::Hierarchical(Seq::new(level2@.len(), |p: int| leaf_lists(parent_rows(rows@, level1, p), level2@[p]))),
            r matches CoarseQuantizer::Hierarchical { parents, leaves_by_parent } && parents@ == level1.centroids@
                && (forall|p: int, i: int| 0 <= p < leaves_by_parent@.len() && 0 <= i < leaves_by_parent@[p]@.len() ==>
                    (#[trigger] leaves_by_parent@[p]@[i]).centroid@ == level2@[p].centroids@[i]@),
    {
        let ghost goal = Seq::new(level2@.len(), |p: int| leaf_lists(parent_rows(rows@, level1, p), level2@[p]));
        let mut leaves_by_parent: Vec<Vec<Leaf>> = Vec::new();
        while leaves_by_parent.len() < level2.len()
            invariant
                leaves_by_parent@.len() <= level2@.len(),
                rows_fit(rows@),
                clusters(level1, rows@.len()),
                goal == Seq::new(level2@.len(), |p: int| leaf_lists(parent_rows(rows@, level1, p), level2@[p])),
                forall|p: int| 0 <= p < level2@.len() ==> clusters(#[trigger] level2@[p], parent_rows(rows@, level1, p).len()),
                forall|p: int| 0 <= p < leaves_by_parent@.len() ==> leaf_views((#[trigger] leaves_by_parent@[p])@) == goal[p],
                forall|p: int, i: int| 0 <= p < leaves_by_parent@.len() && 0 <= i < leaves_by_parent@[p]@.len() ==>
                    (#[trigger] leaves_by_parent@[p]@[i]).centroid@ == level2@[p].centroids@[i]@,
            decreases level2@.len() - leaves_by_parent@.len(),
        {
            let p: usize = leaves_by_parent.len();
            let at = members_of(&level1.assignments, p);
            let mut own: Vec<RowId> = Vec::new();
            while own.len() < at.len()
                invariant
                    own@.len() <= at@.len(),
                    rows_fit(rows@),
                    forall|i: int| 0 <= i < at@.len() ==> #[trigger] at@[i] < rows@.len(),
                    forall|i: int| 0 <= i < own@.len() ==> #[trigger] own@[i] == rows@[at@[i] as int],
                decreases at@.len() - own@.len(),
            {
                own.push(rows[at[own.len()]]);
            }
            assert(own@ =~= parent_rows(rows@, level1, p as int));
            assert forall|i: int| 0 <= i < own@.len() implies (#[trigger] own@[i]).0 <= u32::MAX by {
                assert(at@[i] < rows@.len());
            }
            let mut leaves: Vec<Leaf> = Vec::new();
            if own.len() > 0 {
                let lists = fill_lists(&own, &level2[p]);
                while leaves.len() < lists.len()
                    invariant
                        p < level2@.len(),
                        lists@.len() == level2@[p as int].centroids@.len(),
                        leaves@.len() <= lists@.len(),
                        forall|i: int| 0 <= i < leaves@.len() ==> bitmap::rows_of((#[trigger] leaves@[i]).posting_list) == bitmap::rows_of(lists@[i])
                            && leaves@[i].centroid@ == level2@[p as int].centroids@[i]@,
                    decreases lists@.len() - leaves@.len(),
                {
                    let i: usize = leaves.len();
                    leaves.push(Leaf { centroid: copy_vector(&level2[p].centroids[i]), posting_list: bitmap_clone(&lists[i]) });
                }
                assert(leaf_views(leaves@) =~= list_views(lists@));
            } else {
                assert(leaf_views(leaves@) =~= Seq::<Set<u32>>::empty());
            }
            assert(leaf_views(leaves@) == goal[p as int]);
            leaves_by_parent.push(leaves);
        }
        assert(parent_views(leaves_by_parent@) =~= goal);
        CoarseQuantizer::Hierarchical { parents: level1.centroids, leaves_by_parent }
    }
}

/// Every row that a quantiser lists.
pub open spec fn all_rows(q: CoarseView) -> Set<u32> {
    match q {
        CoarseView::Flat(lists) => Set::new(|row: u32| exists|i: int| 0 <= i < lists.len() && (#[trigger] lists[i]).contains(row)),
        CoarseView::Hierarchical(groups) => Set::new(|row: u32| exists|p: int, i: int| 0 <= p < groups.len() && 0 <= i < groups[p].len() && (#[trigger] groups[p][i]).contains(row)),
    }
}

/// Whether two distinct positions hold distinct rows.
pub open spec fn distinct(rows: Seq<RowId>) -> bool {
    forall|i: int, j: int| 0 <= i < j < rows.len() ==> (#[trigger] rows[i]).0 != (#[trigger] rows[j]).0
}

/// The posting lists of a clustering share the rows out: every row is in the
/// list of its cluster, and in no other.
pub proof fn posting_lists_partition_the_rows(rows: Seq<RowId>, c: KmeansResult, i: int)
    requires
        rows_fit(rows),
        distinct(rows),
        clusters(c, rows.len()),
        0 <= i < rows.len(),
    ensures
        forall|k: int| 0 <= k < c.centroids@.len() ==> ((#[trigger] cluster_lists(rows, c)[k]).contains(rows[i].0 as u32) <==> k == c.assignments@[i]),
        all_rows(CoarseView::Flat(cluster_lists(rows, c))).contains(rows[i].0 as u32),
{
    let row = rows[i].0 as u32;
    assert(c.assignments@[i] < c.centroids@.len());
    assert forall|k: int| 0 <= k < c.centroids@.len() implies ((#[trigger] cluster_lists(rows, c)[k]).contains(row) <==> k == c.assignments@[i]) by {
        if cluster_lists(rows, c)[k].contains(row) {
            let w = choose|w: int| 0 <= w < rows.len() && (#[trigger] rows[w]).0 == row && c.assignments@[w] == k;
            if w < i {
                assert(rows[w].0 != rows[i].0);
            } else if w > i {
                assert(rows[i].0 != rows[w].0);
            }
        } else {
            assert(rows[i].0 == row);
        }
    }
    assert(cluster_lists(rows, c)[c.assignments@[i] as int].contains(row));
}

proof fn lemma_members(assignments: Seq<usize>, cluster: int, n: nat, i: int)
    requires
        n <= assignments.len() <= usize::MAX,
        0 <= i < n,
        assignments[i] == cluster,
    ensures
        members(assignments, cluster, n).contains(i as usize),
    decreases n,
{
    let before = members(assignments, cluster, (n - 1) as nat);
    let all = members(assignments, cluster, n);
    if i == n - 1 {
        assert(all[before.len() as int] == i as usize);
    } else {
        lemma_members(assignments, cluster, (n - 1) as nat, i);
        let w = choose|w: int| 0 <= w < before.len() && before[w] == i as usize;
        assert(all[w] == i as usize);
    }
}

/// Building in two levels loses no row.
pub proof fn two_levels_list_every_row(rows: Seq<RowId>, level1: KmeansResult, level2: Seq<KmeansResult>, i: int)
    requires
        rows_fit(rows),
        clusters(level1, rows.len()),
        rows.len() <= usize::MAX,
        level2.len() == level1.centroids@.len(),
        forall|p: int| 0 <= p < level2.len() ==> clusters(#[trigger] level2[p], parent_rows(rows, level1, p).len()),
        0 <= i < rows.len(),
    ensures
        all_rows(CoarseView::Hierarchical(Seq::new(level2.len(), |p: int| leaf_lists(parent_rows(rows, level1, p), level2[p])))).contains(rows[i].0 as u32),
{
    let groups = Seq::new(level2.len(), |p: int| leaf_lists(parent_rows(rows, level1, p), level2[p]));
    let row = rows[i].0 as u32;
    let p = level1.assignments@[i] as int;
    let at = members(level1.assignments@, p, rows.len());
    lemma_members(level1.assignments@, p, rows.len(), i);
    let w = choose|w: int| 0 <= w < at.len() && at[w] == i as usize;
    let own = parent_rows(rows, level1, p);
    assert(own[w] == rows[i]);
    assert(clusters(level2[p], own.len()));
    let k = level2[p].assignments@[w] as int;
    assert(0 <= k < groups[p].len());
    assert(cluster_rows(own, level2[p].assignments@, k, own.len() as int).contains(row));
    assert(groups[p][k].contains(row));
}

/// Where the two levels put row `i`: its parent, and its leaf below it.
pub open spec fn is_home(rows: Seq<RowId>, level1: KmeansResult, level2: Seq<KmeansResult>, i: int, p: int, k: int) -> bool {
    &&& p == level1.assignments@[i]
    &&& exists|w: int| 0 <= w < parent_rows(rows, level1, p).len() && (#[trigger] parent_rows(rows, level1, p)[w]) == rows[i]
        && level2[p].assignments@[w] == k
}

proof fn lemma_members_are_members(assignments: Seq<usize>, cluster: int, n: nat)
    requires
        n <= assignments.len() <= usize::MAX,
    ensures
        forall|w: int| 0 <= w < members(assignments, cluster, n).len() ==> {
            &&& (#[trigger] members(assignments, cluster, n)[w]) < n
            &&& assignments[members(assignments, cluster, n)[w] as int] == cluster
        },
        forall|v: int, w: int| 0 <= v < w < members(assignments, cluster, n).len() ==>
            (#[trigger] members(assignments, cluster, n)[v]) < (#[trigger] members(assignments, cluster, n)[w]),
    decreases n,
{
    if n > 0 {
        lemma_members_are_members(assignments, cluster, (n - 1) as nat);
        let before = members(assignments, cluster, (n - 1) as nat);
        let all = members(assignments, cluster, n);
        assert forall|w: int| 0 <= w < all.len() implies (#[trigger] all[w]) < n && assignments[all[w] as int] == cluster by {
            if w < before.len() {
                assert(all[w] == before[w]);
            }
        }
        assert forall|v: int, w: int| 0 <= v < w < all.len() implies (#[trigger] all[v]) < (#[trigger] all[w]) by {
            assert(all[v] == before[v]);
            if w < before.len() {
                assert(all[w] == before[w]);
            }
        }
    }
}

/// Building in two levels shares the rows out: every row is in exactly one
/// leaf, the one of its cluster below its parent.
pub proof fn two_levels_partition_the_rows(rows: Seq<RowId>, level1: KmeansResult, level2: Seq<KmeansResult>, i: int) -> (home: (int, int))
    requires
        rows_fit(rows),
        distinct(rows),
        clusters(level1, rows.len()),
        rows.len() <= usize::MAX,
        level2.len() == level1.centroids@.len(),
        forall|p: int| 0 <= p < level2.len() ==> clusters(#[trigger] level2[p], parent_rows(rows, level1, p).len()),
        0 <= i < rows.len(),
    ensures
        is_home(rows, level1, level2, i, home.0, home.1),
        ({
            let groups = Seq::new(level2.len(), |p: int| leaf_lists(parent_rows(rows, level1, p), level2[p]));
            &&& 0 <= home.0 < groups.len()
            &&& 0 <= home.1 < groups[home.0].len()
            &&& forall|p: int, k: int| 0 <= p < groups.len() && 0 <= k < groups[p].len() ==>
                ((#[trigger] groups[p][k]).contains(rows[i].0 as u32) <==> p == home.0 && k == home.1)
        }),
{
    let groups = Seq::new(level2.len(), |p: int| leaf_lists(parent_rows(rows, level1, p), level2[p]));
    let row = rows[i].0 as u32;
    let home_p = level1.assignments@[i] as int;
    let at = members(level1.assignments@, home_p, rows.len());
    lemma_members(level1.assignments@, home_p, rows.len(), i);
    lemma_members_are_members(level1.assignments@, home_p, rows.len());
    let w = choose|w: int| 0 <= w < at.len() && at[w] == i as usize;
    let own = parent_rows(rows, level1, home_p);
    assert(own[w] == rows[i]);
    assert(clusters(level2[home_p], own.len()));
    let home_k = level2[home_p].assignments@[w] as int;
    assert(own.len() == at.len());
    assert(distinct(own)) by {
        assert forall|a: int, b: int| 0 <= a < b < own.len() implies (#[trigger] own[a]).0 != (#[trigger] own[b]).0 by {
            assert(at[a] < at[b]);
            assert(rows[at[a] as int].0 != rows[at[b] as int].0);
        }
    }
    assert(rows_fit(own)) by {
        assert forall|a: int| 0 <= a < own.len() implies (#[trigger] own[a]).0 <= u32::MAX by {
            assert(at[a] < rows.len());
            assert(own[a] == rows[at[a] as int]);
        }
    }
    posting_lists_partition_the_rows(own, level2[home_p], w);
    assert forall|p: int, k: int| 0 <= p < groups.len() && 0 <= k < groups[p].len() implies
        ((#[trigger] groups[p][k]).contains(row) <==> p == home_p && k == home_k) by {
        let theirs = parent_rows(rows, level1, p);
        if p == home_p {
            assert(groups[p][k] == cluster_lists(own, level2[p])[k]);
        } else if groups[p][k].contains(row) {
            let there = members(level1.assignments@, p, rows.len());
            lemma_members_are_members(level1.assignments@, p, rows.len());
            assert(groups[p][k] == cluster_rows(theirs, level2[p].assignments@, k, theirs.len() as int));
            let v = choose|v: int| 0 <= v < theirs.len() && (#[trigger] theirs[v]).0 == row && level2[p].assignments@[v] == k;
            let j = there[v] as int;
            assert(theirs[v] == rows[j]);
            assert(level1.assignments@[j] == p);
            assert(j < rows.len());
            if j < i {
                assert(rows[j].0 != rows[i].0);
            } else if i < j {
                assert(rows[i].0 != rows[j].0);
            }
        }
    }
    (home_p, home_k)
}

/// How many clusters the first `n` parents that have rows were split into.
pub open spec fn clusters_below(rows: Seq<RowId>, level1: KmeansResult, level2: Seq<KmeansResult>, n: nat) -> nat
    decreases n,
{
    if n == 0 {
        0
    } else {
        clusters_below(rows, level1, level2, (n - 1) as nat)
            + (if parent_rows(rows, level1, n - 1).len() == 0 { 0 } else { level2[n - 1].centroids@.len() })
    }
}

/// The leaves of two levels are the clusters that the parents with rows were
/// split into: at most `children` for each parent, where no parent was split
/// into more.
pub proof fn two_levels_have_the_leaves_of_their_parents(rows: Seq<RowId>, level1: KmeansResult, level2: Seq<KmeansResult>, children: nat)
    requires
        forall|p: int| 0 <= p < level2.len() ==> (#[trigger] level2[p]).centroids@.len() <= children,
    ensures
        ({
            let built = CoarseView::Hierarchical(Seq::new(level2.len(), |p: int| leaf_lists(parent_rows(rows, level1, p), level2[p])));
            &&& leaves_in(built) == clusters_below(rows, level1, level2, level2.len())
            &&& leaves_in(built) <= level2.len() * children
        }),
{
    let groups = Seq::new(level2.len(), |p: int| leaf_lists(parent_rows(rows, level1, p), level2[p]));
    lemma_leaves_below(rows, level1, level2, groups, children, level2.len());
}

proof fn lemma_leaves_below(rows: Seq<RowId>, level1: KmeansResult, level2: Seq<KmeansResult>, groups: Seq<Seq<Set<u32>>>, children: nat, n: nat)
    requires
        n <= level2.len(),
        groups == Seq::new(level2.len(), |p: int| leaf_lists(parent_rows(rows, level1, p), level2[p])),
        forall|p: int| 0 <= p < level2.len() ==> (#[trigger] level2[p]).centroids@.len() <= children,
    ensures
        leaf_count(groups, n) == clusters_below(rows, level1, level2, n),
        leaf_count(groups, n) <= n * children,
    decreases n,
{
    if n > 0 {
        lemma_leaves_below(rows, level1, level2, groups, children, (n - 1) as nat);
        assert(level2[n - 1].centroids@.len() <= children);
        assert(n * children == (n - 1) * children + children) by (nonlinear_arith)
            requires
                n > 0,
        ;
    }
}

/// How many of the first `n` points are in one of the first `parents`
/// clusters.
spec fn placed(assignments: Seq<usize>, n: nat, parents: nat) -> nat
    decreases parents,
{
    if parents == 0 { 0 } else { placed(assignments, n, (parents - 1) as nat) + members(assignments, parents - 1, n).len() }
}

proof fn lemma_placed_step(assignments: Seq<usize>, n: nat, parents: nat)
    requires
        0 < n <= assignments.len(),
    ensures
        placed(assignments, n, parents) == placed(assignments, (n - 1) as nat, parents) + (if assignments[n - 1] < parents { 1nat } else { 0 }),
    decreases parents,
{
    if parents > 0 {
        lemma_placed_step(assignments, n, (parents - 1) as nat);
    }
}

proof fn lemma_all_placed(assignments: Seq<usize>, n: nat, parents: nat)
    requires
        n <= assignments.len(),
        forall|i: int| 0 <= i < n ==> #[trigger] assignments[i] < parents,
    ensures
        placed(assignments, n, parents) == n,
    decreases n,
{
    if n == 0 {
        lemma_none_placed(assignments, parents);
    } else {
        lemma_placed_step(assignments, n, parents);
        lemma_all_placed(assignments, (n - 1) as nat, parents);
        assert(assignments[n - 1] < parents);
    }
}

proof fn lemma_none_placed(assignments: Seq<usize>, parents: nat)
    ensures
        placed(assignments, 0, parents) == 0,
    decreases parents,
{
    if parents > 0 {
        lemma_none_placed(assignments, (parents - 1) as nat);
    }
}

proof fn lemma_leaves_placed(rows: Seq<RowId>, level1: KmeansResult, level2: Seq<KmeansResult>, groups: Seq<Seq<Set<u32>>>, n: nat)
    requires
        n <= level2.len(),
        groups == Seq::new(level2.len(), |p: int| leaf_lists(parent_rows(rows, level1, p), level2[p])),
        forall|p: int| 0 <= p < level2.len() ==> (#[trigger] level2[p]).centroids@.len() <= parent_rows(rows, level1, p).len(),
    ensures
        leaf_count(groups, n) <= placed(level1.assignments@, rows.len(), n),
    decreases n,
{
    if n > 0 {
        lemma_leaves_placed(rows, level1, level2, groups, (n - 1) as nat);
        assert(level2[n - 1].centroids@.len() <= parent_rows(rows, level1, n - 1).len());
        assert(groups[n - 1] == leaf_lists(parent_rows(rows, level1, n - 1), level2[n - 1]));
    }
}

/// There are no more leaves than rows, where no parent was split into more
/// clusters than it has rows.
pub proof fn two_levels_have_no_more_leaves_than_rows(rows: Seq<RowId>, level1: KmeansResult, level2: Seq<KmeansResult>)
    requires
        clusters(level1, rows.len()),
        level2.len() == level1.centroids@.len(),
        forall|p: int| 0 <= p < level2.len() ==> (#[trigger] level2[p]).centroids@.len() <= parent_rows(rows, level1, p).len(),
    ensures
        leaves_in(CoarseView::Hierarchical(Seq::new(level2.len(), |p: int| leaf_lists(parent_rows(rows, level1, p), level2[p])))) <= rows.len(),
{
    let groups = Seq::new(level2.len(), |p: int| leaf_lists(parent_rows(rows, level1, p), level2[p]));
    lemma_leaves_placed(rows, level1, level2, groups, level2.len());
    lemma_all_placed(level1.assignments@, rows.len(), level2.len());
}

/// Probing more clusters never loses a candidate.
pub proof fn more_probes_find_no_less(lists: Seq<Set<u32>>, keys: Seq<i128>, n: nat, m: nat)
    requires
        n <= m,
    ensures
        nearest_rows(lists, keys, n).subset_of(nearest_rows(lists, keys, m)),
{
    assert forall|row: u32| nearest_rows(lists, keys, n).contains(row) implies nearest_rows(lists, keys, m).contains(row) by {
        let i = choose|i: int| 0 <= i < n && i < keys.len() && (#[trigger] lists[order::sorted(keys)[i] as int]).contains(row);
        assert(lists[order::sorted(keys)[i] as int].contains(row));
    }
}

proof fn lemma_all_nearest(lists: Seq<Set<u32>>, keys: Seq<i128>, n: nat)
    requires
        lists.len() == keys.len(),
        keys.len() <= usize::MAX,
        n >= keys.len(),
    ensures
        forall|row: u32| #[trigger] nearest_rows(lists, keys, n).contains(row) <==> exists|i: int| 0 <= i < lists.len() && (#[trigger] lists[i]).contains(row),
{
    let p = order::sorted(keys);
    order::sorted_exists(keys);
    assert forall|row: u32| #[trigger] nearest_rows(lists, keys, n).contains(row) <==> exists|i: int| 0 <= i < lists.len() && (#[trigger] lists[i]).contains(row) by {
        if nearest_rows(lists, keys, n).contains(row) {
            let i = choose|i: int| 0 <= i < n && i < keys.len() && (#[trigger] lists[p[i] as int]).contains(row);
            assert(lists[p[i] as int].contains(row));
        }
        if exists|i: int| 0 <= i < lists.len() && (#[trigger] lists[i]).contains(row) {
            let i = choose|i: int| 0 <= i < lists.len() && (#[trigger] lists[i]).contains(row);
            assert(p.contains(i as usize));
            let w = choose|w: int| 0 <= w < p.len() && p[w] == i as usize;
            assert(lists[p[w] as int].contains(row));
        }
    }
}

spec fn chosen_count<T>(groups: Seq<Seq<T>>, chosen: Set<usize>, k: nat) -> nat
    decreases k,
{
    if k == 0 {
        0
    } else {
        chosen_count(groups, chosen, (k - 1) as nat) + if chosen.contains((k - 1) as usize) { groups[k - 1].len() } else { 0 }
    }
}

proof fn lemma_chosen_insert<T>(groups: Seq<Seq<T>>, chosen: Set<usize>, x: usize, k: nat)
    requires
        k <= usize::MAX,
        !chosen.contains(x),
    ensures
        chosen_count(groups, chosen.insert(x), k) == chosen_count(groups, chosen, k) + if x < k { groups[x as int].len() } else { 0 },
    decreases k,
{
    if k > 0 {
        lemma_chosen_insert(groups, chosen, x, (k - 1) as nat);
    }
}

proof fn lemma_chosen_bounded<T>(groups: Seq<Seq<T>>, chosen: Set<usize>, k: nat)
    ensures
        chosen_count(groups, chosen, k) <= leaf_count(groups, k),
    decreases k,
{
    if k > 0 {
        lemma_chosen_bounded(groups, chosen, (k - 1) as nat);
    }
}

spec fn first_of(p: Seq<usize>, n: int) -> Set<usize> {
    Set::new(|x: usize| exists|i: int| 0 <= i < n && #[trigger] p[i] == x)
}

proof fn lemma_pooled_len<T>(groups: Seq<Seq<T>>, keys: Seq<i128>, p: Seq<usize>, n: nat)
    requires
        order::stable_order_of(keys, p),
        keys.len() == groups.len(),
        groups.len() <= usize::MAX,
        n <= p.len(),
    ensures
        pooled(groups, p, n).len() == chosen_count(groups, first_of(p, n as int), groups.len()),
    decreases n,
{
    if n == 0 {
        lemma_chosen_none(groups, first_of(p, 0), groups.len());
    } else {
        lemma_pooled_len(groups, keys, p, (n - 1) as nat);
        let x = p[n - 1];
        let before = first_of(p, n - 1);
        assert(!before.contains(x)) by {
            if before.contains(x) {
                let i = choose|i: int| 0 <= i < n - 1 && #[trigger] p[i] == x;
                assert(order::comes_first(keys, p[i], p[n - 1]));
            }
        }
        assert(first_of(p, n as int) =~= before.insert(x)) by {
            assert forall|y: usize| first_of(p, n as int).contains(y) <==> before.insert(x).contains(y) by {
                if first_of(p, n as int).contains(y) {
                    let i = choose|i: int| 0 <= i < n && #[trigger] p[i] == y;
                    assert(p[i] == y);
                }
                if before.contains(y) {
                    let i = choose|i: int| 0 <= i < n - 1 && #[trigger] p[i] == y;
                    assert(p[i] == y);
                }
                if y == x {
                    assert(p[n - 1] == y);
                }
            }
        }
        lemma_chosen_insert(groups, before, x, groups.len());
    }
}

/// What is pooled is no more than there is.
pub proof fn lemma_pool_is_no_larger<T>(groups: Seq<Seq<T>>, keys: Seq<i128>, p: Seq<usize>, n: nat)
    requires
        order::stable_order_of(keys, p),
        keys.len() == groups.len(),
        groups.len() <= usize::MAX,
        n <= p.len(),
    ensures
        pooled(groups, p, n).len() <= leaf_count(groups, groups.len()),
{
    lemma_pooled_len(groups, keys, p, n);
    lemma_chosen_bounded(groups, first_of(p, n as int), groups.len());
}

proof fn lemma_chosen_none<T>(groups: Seq<Seq<T>>, chosen: Set<usize>, k: nat)
    requires
        forall|x: usize| !chosen.contains(x),
    ensures
        chosen_count(groups, chosen, k) == 0,
    decreases k,
{
    if k > 0 {
        lemma_chosen_none(groups, chosen, (k - 1) as nat);
    }
}

proof fn lemma_pooled_holds<T>(groups: Seq<Seq<T>>, p: Seq<usize>, n: nat, i: int, x: int)
    requires
        0 <= i < n,
        0 <= x < groups[p[i] as int].len(),
    ensures
        pooled(groups, p, n).contains(groups[p[i] as int][x]),
    decreases n,
{
    let before = pooled(groups, p, (n - 1) as nat);
    let all = pooled(groups, p, n);
    if i == n - 1 {
        assert(all[before.len() + x] == groups[p[i] as int][x]);
    } else {
        lemma_pooled_holds(groups, p, (n - 1) as nat, i, x);
        let w = choose|w: int| 0 <= w < before.len() && before[w] == groups[p[i] as int][x];
        assert(all[w] == before[w]);
    }
}

proof fn lemma_pooled_from<T>(groups: Seq<Seq<T>>, p: Seq<usize>, n: nat, w: int) -> (at: (int, int))
    requires
        0 <= w < pooled(groups, p, n).len(),
    ensures
        0 <= at.0 < n,
        0 <= at.1 < groups[p[at.0] as int].len(),
        pooled(groups, p, n)[w] == groups[p[at.0] as int][at.1],
    decreases n,
{
    let before = pooled(groups, p, (n - 1) as nat);
    if w < before.len() {
        lemma_pooled_from(groups, p, (n - 1) as nat, w)
    } else {
        (n - 1, w - before.len())
    }
}

proof fn lemma_pooled_same_len<S, T>(a: Seq<Seq<S>>, b: Seq<Seq<T>>, p: Seq<usize>, n: nat)
    requires
        forall|i: int| 0 <= i < n ==> a[#[trigger] p[i] as int].len() == b[p[i] as int].len(),
    ensures
        pooled(a, p, n).len() == pooled(b, p, n).len(),
    decreases n,
{
    if n > 0 {
        lemma_pooled_same_len(a, b, p, (n - 1) as nat);
        assert(a[p[n - 1] as int].len() == b[p[n - 1] as int].len());
    }
}

/// Probing every leaf, with every parent in the beam, finds every listed row.
pub proof fn exhaustive_probing_finds_every_row(q: CoarseView, d: CoarseDistances, nprobe: nat, beam_width: nat)
    requires
        distances_fit(q, d),
        !top_is_empty(q),
        leaves_in(q) <= usize::MAX,
        nprobe >= leaves_in(q),
        q matches CoarseView::Hierarchical(groups) ==> beam_width >= groups.len() && groups.len() <= usize::MAX,
    ensures
        routed(q, d, nprobe, beam_width) == all_rows(q),
{
    match (q, d) {
        (CoarseView::Flat(lists), CoarseDistances::Flat(ds)) => {
            let keys = distance_keys(ds@);
            lemma_all_nearest(lists, keys, clamped(nprobe, 1, lists.len()));
            assert(routed(q, d, nprobe, beam_width) =~= all_rows(q));
        },
        (CoarseView::Hierarchical(groups), CoarseDistances::Hierarchical { parents, leaves }) => {
            let pkeys = distance_keys(parents@);
            let beam = order::sorted(pkeys);
            order::sorted_exists(pkeys);
            let width = clamped(beam_width, 1, groups.len());
            assert(width == groups.len());
            let lists = pooled(groups, beam, width);
            let kgroups = leaf_keys(leaves@);
            let keys = pooled(kgroups, beam, width);
            assert forall|i: int| 0 <= i < width implies groups[#[trigger] beam[i] as int].len() == kgroups[beam[i] as int].len() by {
                assert(leaves@[beam[i] as int]@.len() == groups[beam[i] as int].len());
            }
            lemma_pooled_same_len(groups, kgroups, beam, width);
            lemma_pooled_len(groups, pkeys, beam, width);
            lemma_chosen_bounded(groups, first_of(beam, width as int), groups.len());
            let n = if nprobe < 1 { 1 } else { nprobe };
            lemma_all_nearest(lists, keys, n);
            let found = routed(q, d, nprobe, beam_width);
            assert forall|row: u32| found.contains(row) <==> all_rows(q).contains(row) by {
                if found.contains(row) {
                    let w = choose|w: int| 0 <= w < lists.len() && (#[trigger] lists[w]).contains(row);
                    let (i, x) = lemma_pooled_from(groups, beam, width, w);
                    assert(groups[beam[i] as int][x].contains(row));
                }
                if all_rows(q).contains(row) {
                    let (p, x) = choose|p: int, x: int| 0 <= p < groups.len() && 0 <= x < groups[p].len() && (#[trigger] groups[p][x]).contains(row);
                    assert(beam.contains(p as usize));
                    let i = choose|i: int| 0 <= i < beam.len() && beam[i] == p as usize;
                    lemma_pooled_holds(groups, beam, width, i, x);
                    let w = choose|w: int| 0 <= w < lists.len() && lists[w] == groups[p][x];
                    assert(lists[w].contains(row));
                }
            }
            assert(found =~= all_rows(q));
        },
        _ => {},
    }
}

proof fn lemma_escalated_ends(q: CoarseView, d: CoarseDistances, beam_width: nat, allowed: Set<u32>, target: nat, cap: nat, nprobe: nat)
    requires
        nprobe <= cap,
    ensures
        ({
            let found = escalated(q, d, beam_width, allowed, target, cap, nprobe);
            &&& found.subset_of(allowed)
            &&& found.len() >= target || found == routed(q, d, cap, beam_width).intersect(allowed)
        }),
    decreases cap - nprobe,
{
    let found = routed(q, d, nprobe, beam_width).intersect(allowed);
    if !(found.len() >= target || nprobe >= cap) {
        lemma_escalated_ends(q, d, beam_width, allowed, target, cap, clamped(2 * nprobe, nprobe + 1, cap));
    }
}

/// A search that is not reported as cut short is complete: it has found as
/// many allowed rows as were wanted, or every allowed row that the quantiser
/// lists. Only allowed rows are ever found.
pub proof fn short_results_are_reported(q: CoarseView, d: CoarseDistances, start_nprobe: nat, beam_width: nat, allowed: Set<u32>, target: nat, requested_cap: nat)
    requires
        distances_fit(q, d),
        !top_is_empty(q),
        leaves_in(q) <= usize::MAX,
        q matches CoarseView::Hierarchical(groups) ==> beam_width >= groups.len() && groups.len() <= usize::MAX,
    ensures
        ({
            let (found, truncated) = escalation(q, d, start_nprobe, beam_width, allowed, target, requested_cap);
            &&& found.subset_of(allowed)
            &&& !truncated ==> found.len() >= target || found == all_rows(q).intersect(allowed)
        }),
{
    let leaves = if leaves_in(q) < 1 { 1 } else { leaves_in(q) };
    let cap = clamped(requested_cap, 1, leaves);
    lemma_escalated_ends(q, d, beam_width, allowed, target, cap, clamped(start_nprobe, 1, cap));
    if requested_cap >= leaves {
        exhaustive_probing_finds_every_row(q, d, cap, beam_width);
    }
}

} // verus!
