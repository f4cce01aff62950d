//! Capping how many hits one document may have among ranked results.

use crate::hit::SearchHit;
use crate::ids::DocId;
use std::collections::HashMap;
use vstd::prelude::*;

verus! {

/// How many of these hits belong to a document.
pub open spec fn hits_of(hits: Seq<SearchHit>, doc: DocId) -> nat
    decreases hits.len(),
{
    if hits.len() == 0 {
        0
    } else {
        hits_of(hits.drop_last(), doc) + if hits.last().doc_id == Some(doc) { 1nat } else { 0nat }
    }
}

/// Those of the ranked hits that the cap lets through: each hit whose
/// document does not have `max` of them yet. A hit without a document always
/// passes, and without a cap every hit does.
pub open spec fn grouped(ranked: Seq<SearchHit>, max: Option<u32>) -> Seq<SearchHit>
    decreases ranked.len(),
{
    if ranked.len() == 0 {
        Seq::empty()
    } else {
        let before = grouped(ranked.drop_last(), max);
        let passes = match (max, ranked.last().doc_id) {
            (Some(m), Some(d)) => hits_of(before, d) < m,
            _ => true,
        };
        if passes { before.push(ranked.last()) } else { before }
    }
}

/// The first `n` of a sequence, all of it where it is shorter.
pub open spec fn first<T>(s: Seq<T>, n: nat) -> Seq<T> {
    s.take(if n < s.len() { n as int } else { s.len() as int })
}

spec fn counted(hits: Seq<SearchHit>, counts: Map<u64, u32>, max: u32) -> bool {
    forall|d: DocId| #[trigger] hits_of(hits, d) == (if counts.contains_key(d.0) { counts[d.0] as nat } else { 0 }) && hits_of(hits, d) <= max
}

/// Caps the hits of each document and keeps the first `k`.
pub fn apply_doc_grouping(ranked: &Vec<SearchHit>, k: usize, max_chunks_per_doc: Option<u32>) -> (r: Vec<SearchHit>)
    ensures
        r@ == first(grouped(ranked@, max_chunks_per_doc), k as nat),
{
    let ghost max = max_chunks_per_doc;
    let mut out: Vec<SearchHit> = Vec::new();
    let mut counts: HashMap<u64, u32> = HashMap::new();
    let mut i: usize = 0;
    assert(grouped(ranked@.take(0), max) =~= Seq::<SearchHit>::empty());
    while i < ranked.len()
        invariant
            i <= ranked@.len(),
            max == max_chunks_per_doc,
            out@ == grouped(ranked@.take(i as int), max),
            max is Some ==> counted(out@, counts@, max->0),
        decreases ranked@.len() - i,
    {
        let hit = ranked[i];
        let ghost t = ranked@.take(i + 1);
        let ghost was = out@;
        proof {
            assert(t.drop_last() =~= ranked@.take(i as int));
            assert(t.last() == hit);
            assert(was.push(hit).drop_last() =~= was);
        }
        match (max_chunks_per_doc, hit.doc_id) {
            (Some(m), Some(d)) => {
                let count: u32 = match counts.get(&d.0) {
                    Some(c) => *c,
                    None => 0,
                };
                assert(hits_of(was, d) == count);
                if count < m {
                    counts.insert(d.0, count + 1);
                    out.push(hit);
                    assert forall|x: DocId| #[trigger] hits_of(out@, x) == (if counts@.contains_key(x.0) { counts@[x.0] as nat } else { 0 })
                        && hits_of(out@, x) <= m by {
                        assert(hits_of(out@, x) == hits_of(was, x) + if hit.doc_id == Some(x) { 1nat } else { 0nat });
                    }
                }
            },
            _ => {
                out.push(hit);
                assert forall|x: DocId| max is Some implies #[trigger] hits_of(out@, x) == hits_of(was, x) by {
                    assert(hit.doc_id is None);
                }
            },
        }
        i += 1;
    }
    assert(ranked@.take(i as int) =~= ranked@);
    out.truncate(k);
    assert(out@ =~= first(grouped(ranked@, max), k as nat));
    out
}

proof fn lemma_hits_of_prefix(s: Seq<SearchHit>, n: int, doc: DocId)
    requires
        0 <= n <= s.len(),
    ensures
        hits_of(s.take(n), doc) <= hits_of(s, doc),
    decreases s.len(),
{
    if n < s.len() {
        lemma_hits_of_prefix(s.drop_last(), n, doc);
        assert(s.drop_last().take(n) =~= s.take(n));
    } else {
        assert(s.take(n) =~= s);
    }
}

proof fn lemma_grouped_capped(ranked: Seq<SearchHit>, max: u32, doc: DocId)
    ensures
        hits_of(grouped(ranked, Some(max)), doc) <= max,
    decreases ranked.len(),
{
    if ranked.len() > 0 {
        lemma_grouped_capped(ranked.drop_last(), max, doc);
        let before = grouped(ranked.drop_last(), Some(max));
        assert(before.push(ranked.last()).drop_last() =~= before);
    }
}

/// With a cap, no document ever has more hits among the results than it.
pub proof fn no_document_exceeds_the_cap(ranked: Seq<SearchHit>, k: nat, max: u32, doc: DocId)
    ensures
        hits_of(first(grouped(ranked, Some(max)), k), doc) <= max,
{
    let g = grouped(ranked, Some(max));
    lemma_grouped_capped(ranked, max, doc);
    lemma_hits_of_prefix(g, if k < g.len() { k as int } else { g.len() as int }, doc);
}

/// Without a cap, grouping changes nothing.
pub proof fn no_cap_keeps_everything(ranked: Seq<SearchHit>)
    ensures
        grouped(ranked, None) == ranked,
    decreases ranked.len(),
{
    if ranked.len() > 0 {
        no_cap_keeps_everything(ranked.drop_last());
        assert(ranked =~= ranked.drop_last().push(ranked.last()));
    } else {
        assert(grouped(ranked, None) =~= ranked);
    }
}

/// Grouping only leaves hits out: those that stay keep their order.
pub proof fn grouping_keeps_the_order(ranked: Seq<SearchHit>, max: Option<u32>)
    ensures
        exists|at: Seq<int>| #[trigger] at.len() == grouped(ranked, max).len()
            && (forall|i: int, j: int| 0 <= i < j < at.len() ==> at[i] < at[j])
            && (forall|i: int| 0 <= i < at.len() ==> 0 <= #[trigger] at[i] < ranked.len() && grouped(ranked, max)[i] == ranked[at[i]]),
    decreases ranked.len(),
{
    if ranked.len() == 0 {
        let at = Seq::<int>::empty();
        assert(at.len() == grouped(ranked, max).len());
    } else {
        grouping_keeps_the_order(ranked.drop_last(), max);
        let before = grouped(ranked.drop_last(), max);
        let at = choose|at: Seq<int>| #[trigger] at.len() == before.len()
            && (forall|i: int, j: int| 0 <= i < j < at.len() ==> at[i] < at[j])
            && (forall|i: int| 0 <= i < at.len() ==> 0 <= #[trigger] at[i] < ranked.drop_last().len() && before[i] == ranked.drop_last()[at[i]]);
        let all = grouped(ranked, max);
        if all.len() == before.len() {
            assert(at.len() == all.len());
            assert forall|i: int| 0 <= i < at.len() implies 0 <= #[trigger] at[i] < ranked.len() && all[i] == ranked[at[i]] by {
                assert(ranked.drop_last()[at[i]] == ranked[at[i]]);
            }
        } else {
            let next = at.push(ranked.len() - 1);
            assert(next.len() == all.len());
            assert forall|i: int| 0 <= i < next.len() implies 0 <= #[trigger] next[i] < ranked.len() && all[i] == ranked[next[i]] by {
                if i < at.len() {
                    assert(ranked.drop_last()[at[i]] == ranked[at[i]]);
                }
            }
            assert forall|i: int, j: int| 0 <= i < j < next.len() implies next[i] < next[j] by {
                if j == at.len() {
                    assert(at[i] < ranked.drop_last().len());
                }
            }
        }
    }
}

/// Whether a hit belongs to a document.
pub open spec fn of_document(doc: DocId) -> spec_fn(SearchHit) -> bool {
    |h: SearchHit| h.doc_id == Some(doc)
}

/// Whether a hit belongs to no document.
pub open spec fn of_no_document() -> spec_fn(SearchHit) -> bool {
    |h: SearchHit| h.doc_id is None
}

/// Counting a document's hits is counting those that belong to it.
pub proof fn lemma_hits_of(hits: Seq<SearchHit>, doc: DocId)
    ensures
        hits_of(hits, doc) == hits.filter(of_document(doc)).len(),
    decreases hits.len(),
{
    reveal(Seq::filter);
    if hits.len() > 0 {
        lemma_hits_of(hits.drop_last(), doc);
    }
}

/// A cap leaves each document its best hits, as many as the cap allows or as
/// there are, and leaves out no hit without a document: of the ranked hits of
/// a document the first `max` stay and no others, all of them where there are
/// fewer.
pub proof fn each_document_keeps_its_best(ranked: Seq<SearchHit>, max: u32, doc: DocId)
    ensures
        ({
            let own = ranked.filter(of_document(doc));
            grouped(ranked, Some(max)).filter(of_document(doc)) == own.take(if own.len() < max { own.len() as int } else { max as int })
        }),
        grouped(ranked, Some(max)).filter(of_no_document()) == ranked.filter(of_no_document()),
    decreases ranked.len(),
{
    reveal(Seq::filter);
    let g = grouped(ranked, Some(max));
    let own = ranked.filter(of_document(doc));
    if ranked.len() == 0 {
        assert(own.take(0) =~= Seq::<SearchHit>::empty());
        assert(g.filter(of_document(doc)) =~= Seq::<SearchHit>::empty());
        assert(g.filter(of_no_document()) =~= ranked.filter(of_no_document()));
    } else {
        each_document_keeps_its_best(ranked.drop_last(), max, doc);
        let before = grouped(ranked.drop_last(), Some(max));
        let had = ranked.drop_last().filter(of_document(doc));
        let h = ranked.last();
        lemma_hits_of(before, doc);
        assert(before.push(h).drop_last() =~= before);
        assert(before.push(h).filter(of_document(doc)) == if h.doc_id == Some(doc) { before.filter(of_document(doc)).push(h) } else { before.filter(of_document(doc)) });
        assert(before.push(h).filter(of_no_document()) == if h.doc_id is None { before.filter(of_no_document()).push(h) } else { before.filter(of_no_document()) });
        if h.doc_id == Some(doc) {
            assert(own == had.push(h));
            if had.len() < max {
                assert(own.take(own.len() as int) =~= had.take(had.len() as int).push(h));
            } else {
                assert(own.take(max as int) =~= had.take(max as int));
            }
        }
    }
}

/// Where the hits stand that the cap lets through, and why another is left
/// out: `max` hits of its document come before it and stay.
pub proof fn what_the_cap_leaves_out(ranked: Seq<SearchHit>, max: Option<u32>) -> (at: Seq<int>)
    ensures
        at.len() == grouped(ranked, max).len(),
        forall|i: int, j: int| 0 <= i < j < at.len() ==> at[i] < at[j],
        forall|i: int| 0 <= i < at.len() ==> 0 <= #[trigger] at[i] < ranked.len() && grouped(ranked, max)[i] == ranked[at[i]],
        forall|w: int| 0 <= w < ranked.len() && !(#[trigger] at.contains(w)) ==> max is Some && ranked[w].doc_id is Some
            && exists|j: int| 0 <= j <= at.len() && (forall|i: int| 0 <= i < j ==> at[i] < w)
                && (#[trigger] grouped(ranked, max).take(j)).filter(of_document(ranked[w].doc_id->0)).len() >= max->0,
    decreases ranked.len(),
{
    let g = grouped(ranked, max);
    if ranked.len() == 0 {
        Seq::empty()
    } else {
        let front = ranked.drop_last();
        let before = grouped(front, max);
        let at = what_the_cap_leaves_out(front, max);
        let last = ranked.len() - 1;
        let next = if g.len() == before.len() { at } else { at.push(last) };
        assert(g.len() == before.len() || g == before.push(ranked.last()));
        assert forall|i: int| 0 <= i < next.len() implies 0 <= #[trigger] next[i] < ranked.len() && g[i] == ranked[next[i]] by {
            if i < at.len() {
                assert(next[i] == at[i]);
                assert(front[at[i]] == ranked[at[i]]);
            }
        }
        assert forall|i: int, j: int| 0 <= i < j < next.len() implies next[i] < next[j] by {
            if j == at.len() {
                assert(at[i] < front.len());
            }
        }
        assert forall|w: int| 0 <= w < ranked.len() && !(#[trigger] next.contains(w)) implies max is Some && ranked[w].doc_id is Some
            && exists|j: int| 0 <= j <= next.len() && (forall|i: int| 0 <= i < j ==> next[i] < w)
                && (#[trigger] g.take(j)).filter(of_document(ranked[w].doc_id->0)).len() >= max->0 by {
            if w < last {
                if at.contains(w) {
                    let x = choose|x: int| 0 <= x < at.len() && at[x] == w;
                    assert(next[x] == w);
                }
                assert(front[w] == ranked[w]);
                let j = choose|j: int| 0 <= j <= at.len() && (forall|i: int| 0 <= i < j ==> at[i] < w)
                    && (#[trigger] before.take(j)).filter(of_document(front[w].doc_id->0)).len() >= max->0;
                assert(g.take(j) =~= before.take(j));
                assert forall|i: int| 0 <= i < j implies next[i] < w by {
                    assert(next[i] == at[i]);
                }
            } else {
                assert(next == at) by {
                    if g.len() != before.len() {
                        assert(next[at.len() as int] == last);
                    }
                }
                let d = ranked[w].doc_id->0;
                lemma_hits_of(before, d);
                let j = at.len() as int;
                assert(g.take(j) =~= before);
                assert forall|i: int| 0 <= i < j implies next[i] < w by {
                    assert(at[i] < front.len());
                }
            }
        }
        next
    }
}

} // verus!
