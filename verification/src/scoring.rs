//! The tail that every scoring path shares: rank, group, cut.

use crate::grouping;
use crate::grouping::apply_doc_grouping;
use crate::hit;
use crate::hit::{rank_of, SearchHit};
use crate::ids::DocId;
use crate::model::DistanceMetric;
use crate::order;
use crate::order::stable_order;
use crate::state::Row;
use vstd::prelude::*;

verus! {

/// Sort keys that put the highest score first.
pub open spec fn score_keys(hits: Seq<SearchHit>) -> Seq<i128> {
    Seq::new(hits.len(), |i: int| -(hit::float_rank(hits[i].score)) as i128)
}

/// A sequence in the order that `p` gives.
pub open spec fn reordered<T>(s: Seq<T>, p: Seq<usize>) -> Seq<T> {
    Seq::new(p.len(), |i: int| s[p[i] as int])
}

/// Whether `ranked` holds the hits by score, best first; those with equal
/// scores in the order in which they came.
pub open spec fn ranks(hits: Seq<SearchHit>, ranked: Seq<SearchHit>) -> bool {
    exists|p: Seq<usize>| #[trigger] order::stable_order_of(score_keys(hits), p) && ranked == reordered(hits, p)
}

/// Whether `r` are the results among `hits`: ranked by score, capped per
/// document, and at most `k`.
pub open spec fn top_hits(hits: Seq<SearchHit>, k: nat, max: Option<u32>, r: Seq<SearchHit>) -> bool {
    exists|ranked: Seq<SearchHit>| #[trigger] ranks(hits, ranked) && r == grouping::first(grouping::grouped(ranked, max), k)
}

/// Ranks hits by score, best first.
pub fn rank(hits: &Vec<SearchHit>) -> (r: Vec<SearchHit>)
    ensures
        ranks(hits@, r@),
{
    let mut keys: Vec<i128> = Vec::new();
    while keys.len() < hits.len()
        invariant
            keys@.len() <= hits@.len(),
            forall|i: int| 0 <= i < keys@.len() ==> #[trigger] keys@[i] == score_keys(hits@)[i],
        decreases hits@.len() - keys@.len(),
    {
        keys.push(-rank_of(hits[keys.len()].score));
    }
    assert(keys@ =~= score_keys(hits@));
    let p = stable_order(&keys);
    let mut out: Vec<SearchHit> = Vec::new();
    while out.len() < p.len()
        invariant
            out@.len() <= p@.len(),
            keys@ == score_keys(hits@),
            order::stable_order_of(keys@, p@),
            forall|i: int| 0 <= i < out@.len() ==> #[trigger] out@[i] == reordered(hits@, p@)[i],
        decreases p@.len() - out@.len(),
    {
        out.push(hits[p[out.len()]]);
    }
    assert(out@ =~= reordered(hits@, p@));
    out
}

/// The best `k` of the hits, capped per document.
pub fn top(hits: &Vec<SearchHit>, k: usize, max_chunks_per_doc: Option<u32>) -> (r: Vec<SearchHit>)
    ensures
        top_hits(hits@, k as nat, max_chunks_per_doc, r@),
{
    let ranked = rank(hits);
    apply_doc_grouping(&ranked, k, max_chunks_per_doc)
}

/// The hit of a row with this score.
pub open spec fn hit_of(row: Row, score: u32, metric: DistanceMetric, exact: bool) -> SearchHit {
    SearchHit { id: row.id, doc_id: row.doc_id, chunk_ord: row.chunk_ord, score, metric, exact }
}

/// The hits of the first `n` rows, those that were found; row `i` has score
/// `scores[i]`.
pub open spec fn hits_of_rows(rows: Seq<Option<Row>>, scores: Seq<u32>, metric: DistanceMetric, exact: bool, n: nat) -> Seq<SearchHit>
    decreases n,
{
    if n == 0 {
        Seq::empty()
    } else {
        let before = hits_of_rows(rows, scores, metric, exact, (n - 1) as nat);
        match rows[n - 1] {
            Some(row) => before.push(hit_of(row, scores[n - 1], metric, exact)),
            None => before,
        }
    }
}

/// The best `k` among the rows that were found, given each row's score. Rows
/// that are gone by now are left out.
pub fn finish(rows: &Vec<Option<Row>>, scores: &Vec<u32>, metric: DistanceMetric, exact: bool, k: usize, max_chunks_per_doc: Option<u32>) -> (r: Vec<SearchHit>)
    requires
        scores@.len() == rows@.len(),
    ensures
        top_hits(hits_of_rows(rows@, scores@, metric, exact, rows@.len()), k as nat, max_chunks_per_doc, r@),
{
    let mut hits: Vec<SearchHit> = Vec::new();
    let mut i: usize = 0;
    while i < rows.len()
        invariant
            i <= rows@.len(),
            scores@.len() == rows@.len(),
            hits@ == hits_of_rows(rows@, scores@, metric, exact, i as nat),
        decreases rows@.len() - i,
    {
        match &rows[i] {
            Some(row) => {
                hits.push(SearchHit { id: row.id, doc_id: row.doc_id, chunk_ord: row.chunk_ord, score: scores[i], metric, exact });
            },
            None => {},
        }
        i += 1;
    }
    top(&hits, k, max_chunks_per_doc)
}

/// The best `k` among the rows that were found, scored from their stored
/// vectors.
pub fn finish_exact(rows: &Vec<Option<Row>>, scores: &Vec<u32>, metric: DistanceMetric, k: usize, max_chunks_per_doc: Option<u32>) -> (r: Vec<SearchHit>)
    requires
        scores@.len() == rows@.len(),
    ensures
        top_hits(hits_of_rows(rows@, scores@, metric, true, rows@.len()), k as nat, max_chunks_per_doc, r@),
{
    finish(rows, scores, metric, true, k, max_chunks_per_doc)
}

/// The hits of rows with these scores.
pub open spec fn hits_of_found(rows: Seq<Row>, scores: Seq<u32>, metric: DistanceMetric) -> Seq<SearchHit> {
    Seq::new(rows.len(), |i: int| hit_of(rows[i], scores[i], metric, true))
}

/// The best `k` of these rows, given each row's score.
pub fn finish_found(rows: &Vec<Row>, scores: &Vec<u32>, metric: DistanceMetric, k: usize, max_chunks_per_doc: Option<u32>) -> (r: Vec<SearchHit>)
    requires
        scores@.len() == rows@.len(),
    ensures
        top_hits(hits_of_found(rows@, scores@, metric), k as nat, max_chunks_per_doc, r@),
{
    let mut hits: Vec<SearchHit> = Vec::new();
    while hits.len() < rows.len()
        invariant
            hits@.len() <= rows@.len(),
            scores@.len() == rows@.len(),
            forall|i: int| 0 <= i < hits@.len() ==> #[trigger] hits@[i] == hits_of_found(rows@, scores@, metric)[i],
        decreases rows@.len() - hits@.len(),
    {
        let i: usize = hits.len();
        hits.push(SearchHit { id: rows[i].id, doc_id: rows[i].doc_id, chunk_ord: rows[i].chunk_ord, score: scores[i], metric, exact: true });
    }
    assert(hits@ =~= hits_of_found(rows@, scores@, metric));
    top(&hits, k, max_chunks_per_doc)
}

/// Results come best first, never more than asked for.
pub proof fn results_are_ranked(hits: Seq<SearchHit>, k: nat, max: Option<u32>, r: Seq<SearchHit>)
    requires
        top_hits(hits, k, max, r),
    ensures
        r.len() <= k,
        forall|i: int, j: int| 0 <= i < j < r.len() ==> hit::float_rank((#[trigger] r[i]).score) >= hit::float_rank((#[trigger] r[j]).score),
{
    let ranked = choose|ranked: Seq<SearchHit>| #[trigger] ranks(hits, ranked) && r == grouping::first(grouping::grouped(ranked, max), k);
    let p = choose|p: Seq<usize>| #[trigger] order::stable_order_of(score_keys(hits), p) && ranked == reordered(hits, p);
    let g = grouping::grouped(ranked, max);
    grouping::grouping_keeps_the_order(ranked, max);
    let at = choose|at: Seq<int>| #[trigger] at.len() == g.len()
        && (forall|i: int, j: int| 0 <= i < j < at.len() ==> at[i] < at[j])
        && (forall|i: int| 0 <= i < at.len() ==> 0 <= #[trigger] at[i] < ranked.len() && g[i] == ranked[at[i]]);
    assert forall|i: int, j: int| 0 <= i < j < r.len() implies hit::float_rank((#[trigger] r[i]).score) >= hit::float_rank((#[trigger] r[j]).score) by {
        assert(r[i] == g[i] && r[j] == g[j]);
        assert(at[i] < at[j]);
        let a = p[at[i]];
        let b = p[at[j]];
        assert(order::comes_first(score_keys(hits), a, b));
    }
}

/// Whether the hit at `a` ranks before the one at `b`: it has the higher
/// score, or the same and came earlier.
pub open spec fn ranks_before(hits: Seq<SearchHit>, a: int, b: int) -> bool {
    hit::float_rank(hits[a].score) > hit::float_rank(hits[b].score)
        || (hit::float_rank(hits[a].score) == hit::float_rank(hits[b].score) && a < b)
}

/// Whether hit `w` is rightly not among the results, which are the hits at
/// `at`: there are `k` results and all of them rank before it, or there are as
/// many of its document as the cap allows, and they rank before it.
pub open spec fn rightly_left_out(hits: Seq<SearchHit>, k: nat, max: Option<u32>, r: Seq<SearchHit>, at: Seq<int>, w: int) -> bool {
    ||| r.len() == k && forall|i: int| 0 <= i < at.len() ==> ranks_before(hits, #[trigger] at[i], w)
    ||| max is Some && hits[w].doc_id is Some && exists|j: int| 0 <= j <= at.len() && (forall|i: int| 0 <= i < j ==> ranks_before(hits, #[trigger] at[i], w))
        && (#[trigger] r.take(j)).filter(grouping::of_document(hits[w].doc_id->0)).len() >= max->0
}

/// The results are the best of the hits, best first, at most `k` of them and
/// at most `max` of a document; and whatever is left out is left out for one
/// of these two reasons. The positions of the results among the hits are what
/// is returned.
pub proof fn the_best_hits_are_the_results(hits: Seq<SearchHit>, k: nat, max: Option<u32>, r: Seq<SearchHit>) -> (at: Seq<int>)
    requires
        top_hits(hits, k, max, r),
        hits.len() <= usize::MAX,
    ensures
        at.len() == r.len(),
        r.len() <= k,
        forall|i: int| 0 <= i < r.len() ==> 0 <= #[trigger] at[i] < hits.len() && r[i] == hits[at[i]],
        forall|i: int, j: int| 0 <= i < j < r.len() ==> ranks_before(hits, #[trigger] at[i], #[trigger] at[j]),
        max matches Some(m) ==> forall|d: DocId| (#[trigger] r.filter(grouping::of_document(d))).len() <= m,
        forall|w: int| 0 <= w < hits.len() && !(#[trigger] at.contains(w)) ==> rightly_left_out(hits, k, max, r, at, w),
{
    let ranked = choose|ranked: Seq<SearchHit>| #[trigger] ranks(hits, ranked) && r == grouping::first(grouping::grouped(ranked, max), k);
    let p = choose|p: Seq<usize>| #[trigger] order::stable_order_of(score_keys(hits), p) && ranked == reordered(hits, p);
    let keys = score_keys(hits);
    let g = grouping::grouped(ranked, max);
    let places = grouping::what_the_cap_leaves_out(ranked, max);
    let at = Seq::new(r.len(), |i: int| p[places[i]] as int);
    assert forall|i: int| 0 <= i < r.len() implies 0 <= #[trigger] at[i] < hits.len() && r[i] == hits[at[i]] by {
        assert(r[i] == g[i]);
        assert(g[i] == ranked[places[i]]);
    }
    assert forall|a: int, b: int| 0 <= a < b < p.len() implies ranks_before(hits, #[trigger] p[a] as int, #[trigger] p[b] as int) by {
        assert(order::comes_first(keys, p[a], p[b]));
    }
    assert forall|i: int, j: int| 0 <= i < j < r.len() implies ranks_before(hits, #[trigger] at[i], #[trigger] at[j]) by {
        assert(places[i] < places[j]);
        assert(ranks_before(hits, p[places[i]] as int, p[places[j]] as int));
    }
    if max is Some {
        assert forall|d: DocId| (#[trigger] r.filter(grouping::of_document(d))).len() <= max->0 by {
            grouping::no_document_exceeds_the_cap(ranked, k, max->0, d);
            grouping::lemma_hits_of(r, d);
        }
    }
    assert forall|w: int| 0 <= w < hits.len() && !(#[trigger] at.contains(w)) implies rightly_left_out(hits, k, max, r, at, w) by {
        assert(p.contains(w as usize));
        let x = choose|x: int| 0 <= x < p.len() && p[x] == w as usize;
        assert(ranked[x] == hits[w]);
        if places.contains(x) {
            let i = choose|i: int| 0 <= i < places.len() && places[i] == x;
            if i < r.len() {
                assert(at[i] == w);
            }
            assert(r.len() == k);
            assert forall|y: int| 0 <= y < at.len() implies ranks_before(hits, #[trigger] at[y], w) by {
                assert(places[y] < places[i]);
                assert(ranks_before(hits, p[places[y]] as int, p[x] as int));
            }
        } else {
            let j = choose|j: int| 0 <= j <= places.len() && (forall|i: int| 0 <= i < j ==> places[i] < x)
                && (#[trigger] g.take(j)).filter(grouping::of_document(ranked[x].doc_id->0)).len() >= max->0;
            let n = if j < at.len() { j } else { at.len() as int };
            assert forall|i: int| 0 <= i < n implies ranks_before(hits, #[trigger] at[i], w) by {
                assert(places[i] < x);
                assert(ranks_before(hits, p[places[i]] as int, p[x] as int));
            }
            if j <= at.len() {
                assert(r.take(j) =~= g.take(j));
            } else {
                assert(r.len() == k);
            }
        }
    }
    at
}

/// A search that has scored some rows returns the best of those that were
/// found: each result is a found row with its own score, document and place,
/// and a found row that is no result is left out rightly. The positions of the
/// results among the rows are what is returned.
pub proof fn results_are_the_best_found_rows(rows: Seq<Option<Row>>, scores: Seq<u32>, metric: DistanceMetric, exact: bool, k: nat, max: Option<u32>, r: Seq<SearchHit>) -> (at: Seq<int>)
    requires
        top_hits(hits_of_rows(rows, scores, metric, exact, rows.len()), k, max, r),
        rows.len() <= usize::MAX,
    ensures
        at.len() == r.len(),
        r.len() <= k,
        forall|i: int| 0 <= i < r.len() ==> 0 <= #[trigger] at[i] < rows.len() && rows[at[i]] is Some && r[i].id == rows[at[i]]->0.id
            && r[i].doc_id == rows[at[i]]->0.doc_id && r[i].chunk_ord == rows[at[i]]->0.chunk_ord && r[i].score == scores[at[i]]
            && r[i].metric == metric && r[i].exact == exact,
        forall|i: int, j: int| 0 <= i < j < r.len() ==> hit::float_rank(scores[#[trigger] at[i]]) > hit::float_rank(scores[#[trigger] at[j]])
            || (hit::float_rank(scores[at[i]]) == hit::float_rank(scores[at[j]]) && at[i] < at[j]),
        max matches Some(m) ==> forall|d: DocId| (#[trigger] r.filter(grouping::of_document(d))).len() <= m,
        forall|w: int| 0 <= w < rows.len() && rows[w] is Some && !(#[trigger] at.contains(w)) ==> {
            ||| r.len() == k && forall|i: int| 0 <= i < at.len() ==> hit::float_rank(scores[#[trigger] at[i]]) >= hit::float_rank(scores[w])
            ||| max is Some && rows[w]->0.doc_id is Some && r.filter(grouping::of_document(rows[w]->0.doc_id->0)).len() == max->0
                && forall|i: int| 0 <= i < at.len() && r[i].doc_id == rows[w]->0.doc_id ==> hit::float_rank(scores[#[trigger] at[i]]) >= hit::float_rank(scores[w])
        },
{
    let hits = hits_of_rows(rows, scores, metric, exact, rows.len());
    let from = lemma_found_positions(rows, scores, metric, exact, rows.len());
    let places = the_best_hits_are_the_results(hits, k, max, r);
    let at = Seq::new(r.len(), |i: int| from[places[i]]);
    assert forall|i: int| 0 <= i < r.len() implies 0 <= #[trigger] at[i] < rows.len() && rows[at[i]] is Some && r[i].id == rows[at[i]]->0.id
        && r[i].doc_id == rows[at[i]]->0.doc_id && r[i].chunk_ord == rows[at[i]]->0.chunk_ord && r[i].score == scores[at[i]]
        && r[i].metric == metric && r[i].exact == exact by {
        assert(0 <= places[i] < hits.len());
        assert(hits[places[i]].score == scores[from[places[i]]]);
    }
    assert forall|i: int, j: int| 0 <= i < j < r.len() implies hit::float_rank(scores[#[trigger] at[i]]) > hit::float_rank(scores[#[trigger] at[j]])
        || (hit::float_rank(scores[at[i]]) == hit::float_rank(scores[at[j]]) && at[i] < at[j]) by {
        assert(ranks_before(hits, places[i], places[j]));
        assert(hits[places[i]].score == scores[from[places[i]]]);
        assert(hits[places[j]].score == scores[from[places[j]]]);
        if places[i] < places[j] {
            assert(from[places[i]] < from[places[j]]);
        }
    }
    assert forall|w: int| 0 <= w < rows.len() && rows[w] is Some && !(#[trigger] at.contains(w)) implies {
        ||| r.len() == k && forall|i: int| 0 <= i < at.len() ==> hit::float_rank(scores[#[trigger] at[i]]) >= hit::float_rank(scores[w])
        ||| max is Some && rows[w]->0.doc_id is Some && r.filter(grouping::of_document(rows[w]->0.doc_id->0)).len() == max->0
            && forall|i: int| 0 <= i < at.len() && r[i].doc_id == rows[w]->0.doc_id ==> hit::float_rank(scores[#[trigger] at[i]]) >= hit::float_rank(scores[w])
    } by {
        assert(from.contains(w));
        let x = choose|x: int| 0 <= x < from.len() && from[x] == w;
        if places.contains(x) {
            let i = choose|i: int| 0 <= i < places.len() && places[i] == x;
            assert(at[i] == w);
        }
        assert(rightly_left_out(hits, k, max, r, places, x));
        assert(hits[x].score == scores[from[x]]);
        if r.len() == k && forall|i: int| 0 <= i < places.len() ==> ranks_before(hits, #[trigger] places[i], x) {
            assert forall|i: int| 0 <= i < at.len() implies hit::float_rank(scores[#[trigger] at[i]]) >= hit::float_rank(scores[w]) by {
                assert(ranks_before(hits, places[i], x));
                assert(hits[places[i]].score == scores[from[places[i]]]);
            }
        } else {
            let d = hits[x].doc_id->0;
            let own = grouping::of_document(d);
            let j = choose|j: int| 0 <= j <= places.len() && (forall|i: int| 0 <= i < j ==> ranks_before(hits, #[trigger] places[i], x))
                && (#[trigger] r.take(j)).filter(own).len() >= max->0;
            let rest = r.skip(j);
            assert(r =~= r.take(j) + rest);
            Seq::filter_distributes_over_add(r.take(j), rest, own);
            assert(r.filter(own).len() <= max->0);
            assert(rest.filter(own).len() == 0);
            rest.filter_lemma(own);
            assert forall|i: int| 0 <= i < at.len() && r[i].doc_id == rows[w]->0.doc_id implies hit::float_rank(scores[#[trigger] at[i]]) >= hit::float_rank(scores[w]) by {
                if i >= j {
                    assert(rest[i - j] == r[i]);
                    assert(own(rest[i - j]));
                    assert(rest.filter(own).contains(rest[i - j]));
                }
                assert(ranks_before(hits, places[i], x));
                assert(hits[places[i]].score == scores[from[places[i]]]);
            }
        }
    }
    at
}

/// Where the hits of the found rows come from.
proof fn lemma_found_positions(rows: Seq<Option<Row>>, scores: Seq<u32>, metric: DistanceMetric, exact: bool, n: nat) -> (from: Seq<int>)
    requires
        n <= rows.len(),
    ensures
        from.len() == hits_of_rows(rows, scores, metric, exact, n).len(),
        from.len() <= n,
        forall|i: int, j: int| 0 <= i < j < from.len() ==> from[i] < from[j],
        forall|i: int| 0 <= i < from.len() ==> {
            let h = #[trigger] hits_of_rows(rows, scores, metric, exact, n)[i];
            &&& 0 <= from[i] < n
            &&& rows[from[i]] is Some
            &&& h.id == rows[from[i]]->0.id
            &&& h.doc_id == rows[from[i]]->0.doc_id
            &&& h.chunk_ord == rows[from[i]]->0.chunk_ord
            &&& h.score == scores[from[i]]
            &&& h.metric == metric
            &&& h.exact == exact
        },
        forall|w: int| 0 <= w < n && rows[w] is Some ==> #[trigger] from.contains(w),
    decreases n,
{
    if n == 0 {
        Seq::empty()
    } else {
        let before = lemma_found_positions(rows, scores, metric, exact, (n - 1) as nat);
        let was = hits_of_rows(rows, scores, metric, exact, (n - 1) as nat);
        let now = hits_of_rows(rows, scores, metric, exact, n);
        let from = if rows[n - 1] is Some { before.push(n - 1) } else { before };
        assert forall|i: int, j: int| 0 <= i < j < from.len() implies from[i] < from[j] by {
            if j == before.len() {
                assert(was[i].metric == metric);
            }
        }
        assert forall|i: int| 0 <= i < from.len() implies {
            let h = #[trigger] now[i];
            &&& 0 <= from[i] < n
            &&& rows[from[i]] is Some
            &&& h.id == rows[from[i]]->0.id
            &&& h.doc_id == rows[from[i]]->0.doc_id
            &&& h.chunk_ord == rows[from[i]]->0.chunk_ord
            &&& h.score == scores[from[i]]
            &&& h.metric == metric
            &&& h.exact == exact
        } by {
            if i < before.len() {
                assert(now[i] == was[i]);
            }
        }
        assert forall|w: int| 0 <= w < n && rows[w] is Some implies #[trigger] from.contains(w) by {
            if w < n - 1 {
                assert(before.contains(w));
                let x = choose|x: int| 0 <= x < before.len() && before[x] == w;
                assert(from[x] == w);
            } else {
                assert(from[before.len() as int] == w);
            }
        }
        from
    }
}

} // verus!
