//! Which rows an index looks at, said of the distances and of the posting
//! lists themselves.

use crate::bitmap;
use crate::coarse;
use crate::coarse::{BuildPlan, CoarseDistances, CoarseView};
use crate::collection;
use crate::flat;
use crate::hit;
use crate::hit::SearchHit;
use crate::ids::RowId;
use crate::ivf_pq;
use crate::model::DistanceMetric;
use crate::order;
use crate::params::SearchParams;
use crate::payload::FilterMask;
use crate::scoring;
use crate::shortlist;
use crate::state;
use crate::state::{Row, StateView};
use vstd::prelude::*;

verus! {

/// Whether the first distance is the smaller one, or stands first of two that
/// are alike.
pub open spec fn nearer(d: Seq<u32>, i: int, j: int) -> bool {
    hit::float_rank(d[i]) < hit::float_rank(d[j]) || (hit::float_rank(d[i]) == hit::float_rank(d[j]) && i < j)
}

/// The smaller of two numbers.
pub open spec fn least(a: nat, b: nat) -> nat {
    if a < b { a } else { b }
}

/// How many lists are probed: as many as asked for, but one at least.
pub open spec fn one_at_least(n: nat) -> nat {
    if n == 0 { 1 } else { n }
}

proof fn lemma_nearest(d: Seq<u32>, n: nat) -> (picked: Seq<int>)
    requires
        d.len() <= usize::MAX,
        n <= d.len(),
    ensures
        picked == Seq::new(n, |i: int| order::sorted(coarse::distance_keys(d))[i] as int),
        picked.no_duplicates(),
        forall|i: int| 0 <= i < n ==> 0 <= #[trigger] picked[i] < d.len(),
        forall|i: int, j: int| 0 <= i < j < n ==> nearer(d, #[trigger] picked[i], #[trigger] picked[j]),
        forall|x: int, i: int| 0 <= x < d.len() && !picked.contains(x) && 0 <= i < n ==> #[trigger] nearer(d, picked[i], x),
{
    let keys = coarse::distance_keys(d);
    order::sorted_exists(keys);
    let p = order::sorted(keys);
    let picked = Seq::new(n, |i: int| p[i] as int);
    assert forall|i: int, j: int| 0 <= i < j < n implies nearer(d, #[trigger] picked[i], #[trigger] picked[j]) by {
        assert(order::comes_first(keys, p[i], p[j]));
    }
    assert forall|i: int, j: int| 0 <= i < n && 0 <= j < n && i != j implies picked[i] != picked[j] by {
        if i < j {
            assert(nearer(d, picked[i], picked[j]));
        } else {
            assert(nearer(d, picked[j], picked[i]));
        }
    }
    assert forall|x: int, i: int| 0 <= x < d.len() && !picked.contains(x) && 0 <= i < n implies #[trigger] nearer(d, picked[i], x) by {
        assert(p.contains(x as usize));
        let k = choose|k: int| 0 <= k < p.len() && p[k] == x as usize;
        if k < n {
            assert(picked[k] == x);
        }
        assert(order::comes_first(keys, p[i], p[k]));
    }
    picked
}

/// Probing one level takes the nearest lists, as many as are asked for (one at
/// least, and no more than there are): every list that is left out is farther
/// than each that is taken. The candidates are the rows of those lists. The
/// lists that are taken are what is returned, nearest first.
pub proof fn probing_takes_the_nearest_lists(lists: Seq<Set<u32>>, d: Vec<u32>, nprobe: nat, beam_width: nat) -> (picked: Seq<int>)
    requires
        0 < d@.len() == lists.len(),
    ensures
        picked.len() == least(one_at_least(nprobe), lists.len()),
        picked.no_duplicates(),
        forall|i: int| 0 <= i < picked.len() ==> 0 <= #[trigger] picked[i] < lists.len(),
        forall|i: int, j: int| 0 <= i < j < picked.len() ==> nearer(d@, #[trigger] picked[i], #[trigger] picked[j]),
        forall|x: int, i: int| 0 <= x < lists.len() && !picked.contains(x) && 0 <= i < picked.len() ==> #[trigger] nearer(d@, picked[i], x),
        forall|row: u32| #[trigger] coarse::routed(CoarseView::Flat(lists), CoarseDistances::Flat(d), nprobe, beam_width).contains(row) <==> exists|i: int|
            0 <= i < picked.len() && lists[#[trigger] picked[i]].contains(row),
{
    assert(d@.len() <= usize::MAX) by {
        assert(d@.len() == d.len());
    }
    let n = least(one_at_least(nprobe), lists.len());
    let picked = lemma_nearest(d@, n);
    let keys = coarse::distance_keys(d@);
    let p = order::sorted(keys);
    assert forall|row: u32| #[trigger] coarse::routed(CoarseView::Flat(lists), CoarseDistances::Flat(d), nprobe, beam_width).contains(row) <==> exists|i: int|
        0 <= i < picked.len() && lists[#[trigger] picked[i]].contains(row) by {
        if coarse::routed(CoarseView::Flat(lists), CoarseDistances::Flat(d), nprobe, beam_width).contains(row) {
            let i = choose|i: int| 0 <= i < n && i < keys.len() && (#[trigger] lists[p[i] as int]).contains(row);
            assert(lists[picked[i]].contains(row));
        }
        if exists|i: int| 0 <= i < picked.len() && lists[#[trigger] picked[i]].contains(row) {
            let i = choose|i: int| 0 <= i < picked.len() && lists[#[trigger] picked[i]].contains(row);
            assert(lists[p[i] as int].contains(row));
        }
    }
    picked
}

/// Every place in these groups: the group and the place in it.
spec fn places<T>(groups: Seq<Seq<T>>) -> Seq<Seq<(int, int)>> {
    Seq::new(groups.len(), |g: int| Seq::new(groups[g].len(), |i: int| (g, i)))
}

proof fn lemma_pool<T>(groups: Seq<Seq<T>>, p: Seq<usize>, n: nat)
    requires
        n <= p.len(),
        forall|i: int| 0 <= i < n ==> (#[trigger] p[i]) < groups.len(),
        forall|i: int, j: int| 0 <= i < j < n ==> p[i] != p[j],
    ensures
        ({
            let at = coarse::pooled(places(groups), p, n);
            &&& at.len() == coarse::pooled(groups, p, n).len()
            &&& at.no_duplicates()
            &&& forall|w: int| 0 <= w < at.len() ==> (exists|i: int| 0 <= i < n && #[trigger] p[i] == (#[trigger] at[w]).0) && 0 <= at[w].0 < groups.len() && 0 <= at[w].1
                < groups[at[w].0].len() && coarse::pooled(groups, p, n)[w] == groups[at[w].0][at[w].1]
            &&& forall|i: int, x: int| 0 <= i < n && 0 <= x < groups[p[i] as int].len() ==> #[trigger] at.contains((p[i] as int, x))
        }),
    decreases n,
{
    let at = coarse::pooled(places(groups), p, n);
    if n > 0 {
        let m = (n - 1) as nat;
        lemma_pool(groups, p, m);
        let before = coarse::pooled(places(groups), p, m);
        let g = p[n - 1] as int;
        let own = places(groups)[g];
        assert(at == before + own);
        assert forall|w: int| 0 <= w < at.len() implies (exists|i: int| 0 <= i < n && #[trigger] p[i] == (#[trigger] at[w]).0) && 0 <= at[w].0 < groups.len() && 0 <= at[w].1
            < groups[at[w].0].len() && coarse::pooled(groups, p, n)[w] == groups[at[w].0][at[w].1] by {
            if w < before.len() {
                assert(at[w] == before[w]);
                let i = choose|i: int| 0 <= i < m && #[trigger] p[i] == before[w].0;
                assert(p[i] == at[w].0);
            } else {
                assert(at[w] == own[w - before.len()]);
                assert(p[n - 1] == at[w].0);
            }
        }
        assert(at.no_duplicates()) by {
            assert forall|v: int, w: int| 0 <= v < at.len() && 0 <= w < at.len() && v != w implies at[v] != at[w] by {
                if v < before.len() && w < before.len() {
                    assert(before[v] != before[w]);
                } else if v >= before.len() && w >= before.len() {
                    assert(at[v] == own[v - before.len()]);
                    assert(at[w] == own[w - before.len()]);
                } else {
                    let (a, b) = if v < w { (v, w) } else { (w, v) };
                    assert(at[a] == before[a]);
                    assert(at[b] == own[b - before.len()]);
                    let i = choose|i: int| 0 <= i < m && #[trigger] p[i] == before[a].0;
                    assert(p[i] != p[n - 1]);
                }
            }
        }
        assert forall|i: int, x: int| 0 <= i < n && 0 <= x < groups[p[i] as int].len() implies #[trigger] at.contains((p[i] as int, x)) by {
            if i < m {
                assert(before.contains((p[i] as int, x)));
                let w = choose|w: int| 0 <= w < before.len() && before[w] == (p[i] as int, x);
                assert(at[w] == (p[i] as int, x));
            } else {
                assert(own[x] == (g, x));
                assert(at[before.len() + x] == (g, x));
            }
        }
    }
}

proof fn lemma_same_places<S, T>(a: Seq<Seq<S>>, b: Seq<Seq<T>>)
    requires
        a.len() == b.len(),
        forall|g: int| 0 <= g < a.len() ==> (#[trigger] a[g]).len() == b[g].len(),
    ensures
        places(a) == places(b),
{
    assert forall|g: int| 0 <= g < a.len() implies places(a)[g] == places(b)[g] by {
        assert(a[g].len() == b[g].len());
        assert(places(a)[g] =~= places(b)[g]);
    }
    assert(places(a) =~= places(b));
}

/// Probing two levels takes the nearest parents, as many as the beam is wide,
/// and of their leaves the nearest, as many as are asked for (one at least):
/// a parent that is left out is farther than each that is taken, and a leaf of
/// a taken parent that is left out is no nearer than any that is taken; fewer
/// leaves are taken only where that is all of them. The candidates are the
/// rows of the taken leaves. The parents and leaves are what is returned.
pub proof fn probing_two_levels_takes_the_nearest_leaves(groups: Seq<Seq<Set<u32>>>, parents: Vec<u32>, leaves: Vec<Vec<u32>>, nprobe: nat, beam_width: nat) -> (r: (
    Seq<int>,
    Seq<(int, int)>,
))
    requires
        0 < groups.len(),
        coarse::distances_fit(CoarseView::Hierarchical(groups), CoarseDistances::Hierarchical { parents, leaves }),
        coarse::leaves_in(CoarseView::Hierarchical(groups)) <= usize::MAX,
    ensures
        ({
            let (beam, picked) = r;
            let found = coarse::routed(CoarseView::Hierarchical(groups), CoarseDistances::Hierarchical { parents, leaves }, nprobe, beam_width);
            &&& beam.len() == least(one_at_least(beam_width), groups.len())
            &&& beam.no_duplicates()
            &&& forall|i: int| 0 <= i < beam.len() ==> 0 <= #[trigger] beam[i] < groups.len()
            &&& forall|x: int, i: int| 0 <= x < groups.len() && !beam.contains(x) && 0 <= i < beam.len() ==> #[trigger] nearer(parents@, beam[i], x)
            &&& picked.len() <= one_at_least(nprobe)
            &&& picked.no_duplicates()
            &&& forall|i: int| 0 <= i < picked.len() ==> beam.contains((#[trigger] picked[i]).0) && 0 <= picked[i].1 < groups[picked[i].0].len()
            &&& forall|g: int, x: int|
                #![trigger picked.contains((g, x))]
                beam.contains(g) && 0 <= x < groups[g].len() && !picked.contains((g, x)) ==> picked.len() == one_at_least(nprobe) && forall|i: int|
                    0 <= i < picked.len() ==> hit::float_rank(leaves@[(#[trigger] picked[i]).0]@[picked[i].1]) <= hit::float_rank(leaves@[g]@[x])
            &&& forall|row: u32| #[trigger] found.contains(row) <==> exists|i: int| 0 <= i < picked.len() && groups[(#[trigger] picked[i]).0][picked[i].1].contains(row)
        }),
{
    let width = least(one_at_least(beam_width), groups.len());
    assert(parents@.len() == parents.len());
    let beam = lemma_nearest(parents@, width);
    let p = order::sorted(coarse::distance_keys(parents@));
    order::sorted_exists(coarse::distance_keys(parents@));
    assert(beam.len() == width);
    assert forall|i: int, j: int| 0 <= i < j < width implies p[i] != p[j] by {
        assert(nearer(parents@, beam[i], beam[j]));
    }
    assert forall|i: int| 0 <= i < width implies (#[trigger] p[i]) < groups.len() by {
        assert(0 <= beam[i] < groups.len());
    }
    let keyed = coarse::leaf_keys(leaves@);
    assert forall|g: int| 0 <= g < groups.len() implies (#[trigger] groups[g]).len() == keyed[g].len() by {
        assert(leaves@[g]@.len() == groups[g].len());
    }
    lemma_same_places(groups, keyed);
    lemma_pool(groups, p, width);
    lemma_pool(keyed, p, width);
    let at = coarse::pooled(places(groups), p, width);
    let lists = coarse::pooled(groups, p, width);
    let keys = coarse::pooled(keyed, p, width);
    coarse::lemma_pool_is_no_larger(groups, coarse::distance_keys(parents@), p, width);
    order::sorted_exists(keys);
    let q = order::sorted(keys);
    let n = least(one_at_least(nprobe), keys.len());
    let picked = Seq::new(n, |i: int| at[q[i] as int]);
    assert forall|i: int| 0 <= i < n implies beam.contains((#[trigger] picked[i]).0) && 0 <= picked[i].1 < groups[picked[i].0].len() by {
        let w = q[i] as int;
        let b = choose|b: int| 0 <= b < width && #[trigger] p[b] == at[w].0;
        assert(beam[b] == at[w].0);
    }
    assert(picked.no_duplicates()) by {
        assert forall|i: int, j: int| 0 <= i < n && 0 <= j < n && i != j implies picked[i] != picked[j] by {
            assert(q[i] != q[j]) by {
                if i < j {
                    assert(order::comes_first(keys, q[i], q[j]));
                } else {
                    assert(order::comes_first(keys, q[j], q[i]));
                }
            }
            assert(at[q[i] as int] != at[q[j] as int]);
        }
    }
    assert forall|g: int, x: int|
        #![trigger picked.contains((g, x))]
        beam.contains(g) && 0 <= x < groups[g].len() && !picked.contains((g, x)) implies picked.len() == one_at_least(nprobe) && forall|i: int| 0 <= i < picked.len()
        ==> hit::float_rank(leaves@[(#[trigger] picked[i]).0]@[picked[i].1]) <= hit::float_rank(leaves@[g]@[x]) by {
        let b = choose|b: int| 0 <= b < beam.len() && beam[b] == g;
        assert(p[b] as int == g);
        assert(at.contains((p[b] as int, x)));
        let w = choose|w: int| 0 <= w < at.len() && at[w] == (g, x);
        assert(q.contains(w as usize));
        let k = choose|k: int| 0 <= k < q.len() && q[k] == w as usize;
        if k < n {
            assert(picked[k] == (g, x));
        }
        assert(keys[w] == keyed[g][x]);
        assert forall|i: int| 0 <= i < picked.len() implies hit::float_rank(leaves@[(#[trigger] picked[i]).0]@[picked[i].1]) <= hit::float_rank(leaves@[g]@[x]) by {
            assert(order::comes_first(keys, q[i], q[k]));
            let v = q[i] as int;
            assert(keys[v] == keyed[at[v].0][at[v].1]);
        }
    }
    let found = coarse::routed(CoarseView::Hierarchical(groups), CoarseDistances::Hierarchical { parents, leaves }, nprobe, beam_width);
    assert(width == coarse::clamped(beam_width, 1, groups.len()));
    assert forall|row: u32| #[trigger] found.contains(row) <==> exists|i: int| 0 <= i < picked.len() && groups[(#[trigger] picked[i]).0][picked[i].1].contains(row) by {
        if found.contains(row) {
            let i = choose|i: int| 0 <= i < one_at_least(nprobe) && i < keys.len() && (#[trigger] lists[q[i] as int]).contains(row);
            assert(groups[picked[i].0][picked[i].1].contains(row));
        }
        if exists|i: int| 0 <= i < picked.len() && groups[(#[trigger] picked[i]).0][picked[i].1].contains(row) {
            let i = choose|i: int| 0 <= i < picked.len() && groups[(#[trigger] picked[i]).0][picked[i].1].contains(row);
            assert(lists[q[i] as int].contains(row));
        }
    }
    (beam, picked)
}

/// How far a filtered search may go: as far as is given, or four times as many
/// lists as an unfiltered one; and how many candidates it is after: as many as
/// are given, or twenty for each result, and two hundred at least.
pub proof fn limits_are_given_or_grow_with_the_search(params: SearchParams, k: nat)
    ensures
        params.rerank_k matches Some(n) ==> coarse::shortlist_size(params, k) == n,
        params.rerank_k is None ==> coarse::shortlist_size(params, k) >= 200 && coarse::shortlist_size(params, k) >= 20 * k && (coarse::shortlist_size(params, k) == 200
            || coarse::shortlist_size(params, k) == 20 * k),
        params.filter_nprobe_max matches Some(n) ==> coarse::probe_limit(params) == n,
        params.filter_nprobe_max is None ==> coarse::probe_limit(params) == least(4 * params.nprobe as nat, usize::MAX as nat),
{
}

proof fn lemma_escalated(q: CoarseView, d: CoarseDistances, beam_width: nat, allowed: Set<u32>, target: nat, cap: nat, from: nat) -> (n: nat)
    requires
        0 < from <= cap,
    ensures
        from <= n <= cap,
        coarse::escalated(q, d, beam_width, allowed, target, cap, from) == coarse::routed(q, d, n, beam_width).intersect(allowed),
        coarse::routed(q, d, n, beam_width).intersect(allowed).len() >= target || n == cap,
        n == from || exists|m: nat| from <= m < n <= 2 * m && (#[trigger] coarse::routed(q, d, m, beam_width)).intersect(allowed).len() < target && n == least(2 * m, cap),
    decreases cap - from,
{
    let found = coarse::routed(q, d, from, beam_width).intersect(allowed);
    if found.len() >= target || from >= cap {
        from
    } else {
        let next = coarse::clamped(2 * from, from + 1, cap);
        let n = lemma_escalated(q, d, beam_width, allowed, target, cap, next);
        if n == next {
            assert(coarse::routed(q, d, from, beam_width).intersect(allowed).len() < target);
        } else {
            let m = choose|m: nat| next <= m < n <= 2 * m && (#[trigger] coarse::routed(q, d, m, beam_width)).intersect(allowed).len() < target && n == least(2 * m, cap);
            assert(coarse::routed(q, d, m, beam_width).intersect(allowed).len() < target);
        }
        n
    }
}

/// A search that widens gives the allowed rows of some number of lists,
/// between where it starts and its cap. It stops where it has as many as it is
/// after, or at the cap; and it goes on only from a number that was not
/// enough, to twice as many. It is reported as cut short exactly when the cap
/// that was asked for is below the number of lists and too few were found. The
/// number of lists is what is returned.
pub proof fn a_search_widens_until_it_has_enough(q: CoarseView, d: CoarseDistances, start: nat, beam_width: nat, allowed: Set<u32>, target: nat, requested_cap: nat) -> (n: nat)
    ensures
        ({
            let (found, cut) = coarse::escalation(q, d, start, beam_width, allowed, target, requested_cap);
            let lists = one_at_least(coarse::leaves_in(q));
            let cap = least(one_at_least(requested_cap), lists);
            let from = least(one_at_least(start), cap);
            &&& from <= n <= cap
            &&& found == coarse::routed(q, d, n, beam_width).intersect(allowed)
            &&& found.len() >= target || n == cap
            &&& n == from || exists|m: nat| from <= m < n && (#[trigger] coarse::routed(q, d, m, beam_width)).intersect(allowed).len() < target && n == least(2 * m, cap)
            &&& cut <==> requested_cap < lists && found.len() < target
        }),
{
    let lists = one_at_least(coarse::leaves_in(q));
    let cap = least(one_at_least(requested_cap), lists);
    let from = least(one_at_least(start), cap);
    assert(cap == coarse::clamped(requested_cap, 1, lists));
    assert(from == coarse::clamped(start, 1, cap));
    lemma_escalated(q, d, beam_width, allowed, target, cap, from)
}

/// Which candidates a search takes: without a filter, the rows of the probed
/// lists; with one that allows few rows, just those rows; with a wide one
/// whose probed lists hold enough allowed rows, those; otherwise it widens.
pub proof fn a_filter_decides_how_candidates_are_found(q: CoarseView, d: CoarseDistances, params: SearchParams, mask: Option<(Set<u32>, u64)>, wide: bool, k: nat)
    ensures
        ({
            let (found, cut) = coarse::resolved(q, d, params, mask, wide, k);
            let probed = coarse::routed(q, d, params.nprobe as nat, params.beam_width as nat);
            match mask {
                None => found == probed && !cut,
                Some((allowed, estimate)) => {
                    let enough = probed.intersect(allowed).len() >= k;
                    let target = coarse::shortlist_size(params, k);
                    let (wider, short) = coarse::escalation(q, d, params.nprobe as nat, params.beam_width as nat, allowed, target, coarse::probe_limit(params));
                    &&& estimate <= params.filter_exact_threshold ==> found == allowed && !cut
                    &&& estimate > params.filter_exact_threshold && wide && enough ==> found == probed.intersect(allowed) && !cut
                    &&& estimate > params.filter_exact_threshold && !(wide && enough) ==> found == wider && cut == short
                },
            }
        }),
{
}

/// How an index is laid out: nothing for no rows; one level up to the
/// threshold, with as many clusters as asked for; above it two, with the
/// fewest parents whose square is no less than that, and the fewest children
/// for each that make up for it.
pub proof fn a_plan_has_room_for_the_clusters(rows: nat, n_clusters: nat, threshold: nat, plan: BuildPlan)
    requires
        coarse::is_plan(rows, n_clusters, threshold, plan),
    ensures
        plan is Empty <==> rows == 0,
        plan is Flat <==> rows > 0 && n_clusters <= threshold,
        plan matches BuildPlan::Flat { clusters } ==> clusters == n_clusters,
        plan matches BuildPlan::Hierarchical { parents, children_per_parent } ==> {
            &&& parents * parents >= n_clusters
            &&& (parents - 1) * (parents - 1) < n_clusters
            &&& children_per_parent * parents >= n_clusters
            &&& (children_per_parent - 1) * parents < n_clusters
        },
{
}

/// The rows that a flat search scores are the live ones that the filter
/// allows, each once, ascending and as it is stored.
pub proof fn a_flat_search_scores_every_allowed_row(s: StateView, filter: Option<&FilterMask>, rows: Seq<Row>)
    requires
        flat::rows_at(s, bitmap::listing(flat::searched(s, filter)), rows),
    ensures
        forall|i: int| 0 <= i < rows.len() ==> (#[trigger] rows[i]).id.0 <= u32::MAX && s.live.contains(rows[i].id.0 as u32) && (filter matches Some(f)
            ==> bitmap::rows_of(f.allowed).contains(rows[i].id.0 as u32)) && state::is_row(rows[i], rows[i].id.0, s.rows[rows[i].id.0]),
        forall|row: u32| #[trigger] s.live.contains(row) && (filter matches Some(f) ==> bitmap::rows_of(f.allowed).contains(row)) ==> exists|i: int|
            0 <= i < rows.len() && (#[trigger] rows[i]).id.0 == row,
        forall|i: int, j: int| 0 <= i < j < rows.len() ==> (#[trigger] rows[i]).id.0 < (#[trigger] rows[j]).id.0,
{
    let set = flat::searched(s, filter);
    bitmap::listing_exists(set);
    let l = bitmap::listing(set);
    assert forall|i: int| 0 <= i < rows.len() implies (#[trigger] rows[i]).id.0 <= u32::MAX && s.live.contains(rows[i].id.0 as u32) && (filter matches Some(f)
        ==> bitmap::rows_of(f.allowed).contains(rows[i].id.0 as u32)) && state::is_row(rows[i], rows[i].id.0, s.rows[rows[i].id.0]) by {
        assert(l.contains(l[i]));
        assert(set.contains(l[i]));
    }
    assert forall|row: u32| #[trigger] s.live.contains(row) && (filter matches Some(f) ==> bitmap::rows_of(f.allowed).contains(row)) implies exists|i: int|
        0 <= i < rows.len() && (#[trigger] rows[i]).id.0 == row by {
        assert(set.contains(row));
        assert(l.contains(row));
        let i = choose|i: int| 0 <= i < l.len() && l[i] == row;
        assert(rows[i].id.0 == row);
    }
    assert forall|i: int, j: int| 0 <= i < j < rows.len() implies (#[trigger] rows[i]).id.0 < (#[trigger] rows[j]).id.0 by {
        assert(l[i] < l[j]);
    }
}

/// Candidates are fetched each once, ascending, and those that are live are
/// found.
pub proof fn candidates_are_fetched_once(s: StateView, found: Set<u32>, rows: Seq<Option<Row>>)
    requires
        collection::sound(s),
        shortlist::lists(s, shortlist::ids_of(found), rows),
    ensures
        rows.len() == found.len(),
        forall|i: int| 0 <= i < rows.len() ==> ((#[trigger] rows[i]) matches Some(row) ==> row.id.0 <= u32::MAX && found.contains(row.id.0 as u32) && s.live.contains(
            row.id.0 as u32,
        )),
        forall|row: u32| #[trigger] found.contains(row) && s.live.contains(row) ==> exists|i: int| 0 <= i < rows.len() && (#[trigger] rows[i]) is Some && rows[i]->0.id.0
            == row,
{
    bitmap::listing_exists(found);
    bitmap::lemma_listing_len(found);
    let l = bitmap::listing(found);
    let ids = shortlist::ids_of(found);
    assert forall|i: int| 0 <= i < rows.len() implies ((#[trigger] rows[i]) matches Some(row) ==> row.id.0 <= u32::MAX && found.contains(row.id.0 as u32) && s.live.contains(
        row.id.0 as u32,
    )) by {
        assert(collection::is_live_row(s, ids[i].0, rows[i]));
        assert(l.contains(l[i]));
    }
    assert forall|row: u32| #[trigger] found.contains(row) && s.live.contains(row) implies exists|i: int| 0 <= i < rows.len() && (#[trigger] rows[i]) is Some && rows[i]->0.id.0
        == row by {
        assert(l.contains(row));
        let i = choose|i: int| 0 <= i < l.len() && l[i] == row;
        assert(collection::is_live_row(s, ids[i].0, rows[i]));
        assert(s.rows.contains_key(row as u64));
    }
}

/// A shortlist holds the nearest candidates, nearest first, as many as are to
/// be reranked (or, without reranking, as many as there are to be results): a
/// candidate that is left out is farther than each on it. Their positions are
/// what is returned.
pub proof fn a_shortlist_holds_the_nearest(ids: Seq<RowId>, distances: Seq<u32>, params: SearchParams, k: nat) -> (at: Seq<int>)
    requires
        ids.len() == distances.len() <= usize::MAX,
    ensures
        ({
            let list = ivf_pq::shortlisted(ids, distances, params, k);
            &&& list.len() == at.len()
            &&& list.len() == least(if params.rerank_k == Some(0usize) { k } else { coarse::shortlist_size(params, k) }, ids.len())
            &&& at.no_duplicates()
            &&& forall|i: int| 0 <= i < at.len() ==> 0 <= #[trigger] at[i] < ids.len() && list[i] == ids[at[i]]
            &&& forall|i: int, j: int| 0 <= i < j < at.len() ==> nearer(distances, #[trigger] at[i], #[trigger] at[j])
            &&& forall|x: int, i: int| 0 <= x < ids.len() && !at.contains(x) && 0 <= i < at.len() ==> #[trigger] nearer(distances, at[i], x)
        }),
{
    order::sorted_exists(coarse::distance_keys(distances));
    let n = least(if params.rerank_k == Some(0usize) { k } else { coarse::shortlist_size(params, k) }, ids.len());
    lemma_nearest(distances, n)
}

proof fn lemma_coded_is(ids: Seq<RowId>, codes: Map<u64, Vec<u8>>, n: nat)
    requires
        n <= ids.len(),
    ensures
        ivf_pq::coded(ids, codes, n) == ids.take(n as int).filter(|id: RowId| codes.contains_key(id.0)),
    decreases n,
{
    reveal(Seq::filter);
    if n > 0 {
        lemma_coded_is(ids, codes, (n - 1) as nat);
        assert(ids.take(n as int).drop_last() =~= ids.take(n - 1));
    } else {
        assert(ids.take(0) =~= Seq::<RowId>::empty());
        assert(ivf_pq::coded(ids, codes, n) =~= ids.take(0).filter(|id: RowId| codes.contains_key(id.0)));
    }
}

/// Of the candidates, a compressed index scores those that it has a code for,
/// in their order.
pub proof fn coded_candidates_are_scored(ids: Seq<RowId>, codes: Map<u64, Vec<u8>>)
    ensures
        ivf_pq::coded(ids, codes, ids.len()) == ids.filter(|id: RowId| codes.contains_key(id.0)),
{
    lemma_coded_is(ids, codes, ids.len());
    assert(ids.take(ids.len() as int) =~= ids);
}

/// The code that is held for a row is the last one that was given for it.
pub proof fn a_row_has_its_last_code(ids: Seq<RowId>, codes: Seq<Vec<u8>>, n: nat, id: u64)
    requires
        n <= ids.len(),
        codes.len() == ids.len(),
    ensures
        ivf_pq::code_of(ids, codes, n, id) is Some <==> exists|i: int| 0 <= i < n && (#[trigger] ids[i]).0 == id,
        forall|i: int| 0 <= i < n && (#[trigger] ids[i]).0 == id && (forall|j: int| i < j < n ==> (#[trigger] ids[j]).0 != id) ==> ivf_pq::code_of(ids, codes, n, id)
            == Some(codes[i]@),
    decreases n,
{
    if n > 0 {
        if ids[n - 1].0 == id {
            assert(ids[n - 1].0 == id);
        } else {
            a_row_has_its_last_code(ids, codes, (n - 1) as nat, id);
        }
    }
}

/// A flat search without a cap returns the best of all live rows that the
/// filter allows: as many as asked for, or all of them where there are fewer;
/// each with its own score, document and place, best first; and no row that is
/// left out has a better score than one that is returned. Where the results
/// stand among the scored rows is what is returned.
pub proof fn a_flat_search_returns_the_best_rows(
    s: StateView,
    filter: Option<&FilterMask>,
    rows: Seq<Row>,
    scores: Seq<u32>,
    metric: DistanceMetric,
    k: nat,
    r: Seq<SearchHit>,
) -> (at: Seq<int>)
    requires
        flat::rows_at(s, bitmap::listing(flat::searched(s, filter)), rows),
        rows.len() <= usize::MAX,
        scoring::top_hits(scoring::hits_of_found(rows, scores, metric), k, None, r),
    ensures
        at.len() == r.len() == least(k, rows.len()),
        at.no_duplicates(),
        forall|i: int| 0 <= i < r.len() ==> 0 <= #[trigger] at[i] < rows.len() && r[i].id == rows[at[i]].id && r[i].doc_id == rows[at[i]].doc_id && r[i].chunk_ord
            == rows[at[i]].chunk_ord && r[i].score == scores[at[i]] && r[i].metric == metric && r[i].exact,
        forall|i: int| 0 <= i < r.len() ==> (#[trigger] r[i]).id.0 <= u32::MAX && s.live.contains(r[i].id.0 as u32) && (filter matches Some(f) ==> bitmap::rows_of(f.allowed).contains(
            r[i].id.0 as u32,
        )),
        forall|i: int, j: int| 0 <= i < j < r.len() ==> hit::float_rank(scores[#[trigger] at[i]]) >= hit::float_rank(scores[#[trigger] at[j]]),
        forall|w: int, i: int| 0 <= w < rows.len() && !at.contains(w) && 0 <= i < at.len() ==> hit::float_rank(scores[#[trigger] at[i]]) >= hit::float_rank(
            #[trigger] scores[w],
        ),
{
    let hits = scoring::hits_of_found(rows, scores, metric);
    let at = scoring::the_best_hits_are_the_results(hits, k, None, r);
    a_flat_search_scores_every_allowed_row(s, filter, rows);
    assert(at.no_duplicates()) by {
        assert forall|i: int, j: int| 0 <= i < at.len() && 0 <= j < at.len() && i != j implies at[i] != at[j] by {
            if i < j {
                assert(scoring::ranks_before(hits, at[i], at[j]));
            } else {
                assert(scoring::ranks_before(hits, at[j], at[i]));
            }
        }
    }
    assert forall|i: int, j: int| 0 <= i < j < r.len() implies hit::float_rank(scores[#[trigger] at[i]]) >= hit::float_rank(scores[#[trigger] at[j]]) by {
        assert(scoring::ranks_before(hits, at[i], at[j]));
    }
    assert forall|i: int| 0 <= i < r.len() implies (#[trigger] r[i]).id.0 <= u32::MAX && s.live.contains(r[i].id.0 as u32) && (filter matches Some(f) ==> bitmap::rows_of(
        f.allowed,
    ).contains(r[i].id.0 as u32)) by {
        assert(r[i] == hits[at[i]]);
        assert(rows[at[i]].id.0 <= u32::MAX);
    }
    assert forall|w: int, i: int| 0 <= w < rows.len() && !at.contains(w) && 0 <= i < at.len() implies hit::float_rank(scores[#[trigger] at[i]]) >= hit::float_rank(
        #[trigger] scores[w],
    ) by {
        assert(scoring::rightly_left_out(hits, k, None, r, at, w));
        assert(scoring::ranks_before(hits, at[i], w));
    }
    if exists|w: int| 0 <= w < rows.len() && !at.contains(w) {
        let w = choose|w: int| 0 <= w < rows.len() && !at.contains(w);
        assert(scoring::rightly_left_out(hits, k, None, r, at, w));
        lemma_few(at, rows.len());
    } else {
        lemma_covers(at, rows.len());
    }
    at
}

proof fn lemma_few(at: Seq<int>, n: nat)
    requires
        at.no_duplicates(),
        forall|i: int| 0 <= i < at.len() ==> 0 <= #[trigger] at[i] < n,
    ensures
        at.len() <= n,
{
    at.unique_seq_to_set();
    let all = vstd::set_lib::set_int_range(0, n as int);
    vstd::set_lib::lemma_int_range(0, n as int);
    assert(at.to_set().subset_of(all)) by {
        assert forall|x: int| at.to_set().contains(x) implies all.contains(x) by {
            let i = choose|i: int| 0 <= i < at.len() && at[i] == x;
            assert(0 <= at[i] < n);
        }
    }
    vstd::set_lib::lemma_len_subset(at.to_set(), all);
}

proof fn lemma_covers(at: Seq<int>, n: nat)
    requires
        at.no_duplicates(),
        forall|i: int| 0 <= i < at.len() ==> 0 <= #[trigger] at[i] < n,
        forall|w: int| 0 <= w < n ==> #[trigger] at.contains(w),
    ensures
        at.len() == n,
{
    lemma_few(at, n);
    at.unique_seq_to_set();
    let all = vstd::set_lib::set_int_range(0, n as int);
    vstd::set_lib::lemma_int_range(0, n as int);
    assert(all.subset_of(at.to_set())) by {
        assert forall|x: int| all.contains(x) implies at.to_set().contains(x) by {
            assert(at.contains(x));
        }
    }
    vstd::set_lib::lemma_len_subset(all, at.to_set());
}

} // verus!
