//! The exact index: every search looks at the stored rows afresh.

use crate::api;
use crate::api::Storage;
use crate::bitmap;
use crate::bitmap::bitmap_to_vec;
use crate::collection;
use crate::error::StorageResult;
use crate::hit::{IndexError, IndexResult, SearchResult};
use crate::ids::RowId;
use crate::model::DistanceMetric;
use crate::params::SearchParams;
use crate::payload::FilterMask;
use crate::scoring;
use crate::scoring::finish_found;
use crate::state;
use crate::state::{Row, StateView};
use crate::wal;
use vstd::prelude::*;

verus! {

/// How many rows a scan reads at a time.
pub const SCAN_PAGE_SIZE: usize = 10_000;

/// Whether `rows` are the stored rows at these positions.
pub open spec fn rows_at(s: StateView, at: Seq<u32>, rows: Seq<Row>) -> bool {
    &&& rows.len() == at.len()
    &&& forall|i: int| 0 <= i < rows.len() ==> state::is_row(#[trigger] rows[i], at[i] as u64, s.rows[at[i] as u64])
}

/// Whether `rows` are all live rows, by ascending id.
pub open spec fn all_live(s: StateView, rows: Seq<Row>) -> bool {
    rows_at(s, bitmap::listing(s.live), rows)
}

proof fn lemma_rest(s: StateView, n: int, after: Option<u64>)
    requires
        0 <= n <= bitmap::listing(s.live).len(),
        after == (if n == 0 { None } else { Some(bitmap::listing(s.live)[n - 1] as u64) }),
    ensures
        bitmap::listing(collection::live_after(s, after)) == bitmap::listing(s.live).skip(n),
{
    let all = bitmap::listing(s.live);
    let rest = all.skip(n);
    let want = collection::live_after(s, after);
    bitmap::listing_exists(s.live);
    assert forall|v: u32| #[trigger] want.contains(v) <==> rest.contains(v) by {
        if want.contains(v) {
            assert(s.live.contains(v));
            let k = choose|k: int| 0 <= k < all.len() && all[k] == v;
            if k < n - 1 {
                assert(all[k] < all[n - 1]);
            }
            assert(rest[k - n] == v);
        }
        if rest.contains(v) {
            let k = choose|k: int| 0 <= k < rest.len() && rest[k] == v;
            assert(all[n + k] == v);
            assert(all.contains(v));
            if n > 0 {
                assert(all[n - 1] < all[n + k]);
            }
        }
    }
    bitmap::listing_is(rest, want);
}

/// All live rows of a collection, by ascending id, read page by page.
pub fn scan_all(storage: &Storage, coll: &str) -> (r: StorageResult<Vec<Row>>)
    requires
        storage.wf(),
    ensures
        !api::is_open(storage@, coll@) ==> api::refused_as_unknown(storage@, storage@, coll@, r),
        api::is_open(storage@, coll@) ==> (r matches Ok(rows) && all_live(api::named(storage@, coll@).state, rows@)),
{
    let ghost s = api::named(storage@, coll@).state;
    let ghost all = bitmap::listing(s.live);
    let mut out: Vec<Row> = Vec::new();
    let mut cursor: Option<RowId> = None;
    proof { bitmap::listing_exists(s.live); }
    loop
        invariant
            storage.wf(),
            s == api::named(storage@, coll@).state,
            all == bitmap::listing(s.live),
            bitmap::lists_ascending(all, s.live),
            out@.len() <= all.len(),
            rows_at(s, all.take(out@.len() as int), out@),
            cursor == (if out@.len() == 0 { None } else { Some(RowId(all[out@.len() - 1] as u64)) }),
            out@.len() > 0 ==> api::is_open(storage@, coll@),
        decreases all.len() - out@.len(),
    {
        let mut page = match storage.scan(coll, cursor, SCAN_PAGE_SIZE) {
            Ok(page) => page,
            Err(e) => return Err(e),
        };
        let page_len: usize = page.len();
        let ghost n = out@.len() as int;
        let ghost was = out@;
        let ghost got = page@;
        proof {
            lemma_rest(s, n, wal::opt_row(cursor));
            assert(collection::pages(s, all.skip(n), SCAN_PAGE_SIZE as nat, got));
        }
        if page_len > 0 {
            cursor = Some(page[page_len - 1].id);
        }
        out.append(&mut page);
        proof {
            assert(out@ =~= was + got);
            let now = all.take(n + page_len);
            assert forall|i: int| 0 <= i < out@.len() implies state::is_row(#[trigger] out@[i], now[i] as u64, s.rows[now[i] as u64]) by {
                if i < n {
                    assert(out@[i] == was[i]);
                    assert(now[i] == all.take(n)[i]);
                } else {
                    assert(out@[i] == got[i - n]);
                    assert(now[i] == all.skip(n)[i - n]);
                }
            }
            if page_len > 0 {
                assert(state::is_row(got[page_len - 1], all.skip(n)[page_len - 1] as u64, s.rows[all.skip(n)[page_len - 1] as u64]));
                assert(all.skip(n)[page_len - 1] == all[n + page_len - 1]);
            }
        }
        if page_len < SCAN_PAGE_SIZE {
            assert(all.take(out@.len() as int) =~= all);
            return Ok(out);
        }
    }
}

/// The rows that a search looks at: the live ones, and of those only what the
/// filter allows.
pub open spec fn searched(s: StateView, filter: Option<&FilterMask>) -> Set<u32> {
    match filter {
        Some(f) => s.live.intersect(bitmap::rows_of(f.allowed)),
        None => s.live,
    }
}

/// Whether `r` refuses a query of the wrong dimension.
pub open spec fn refused_dim<T>(dim: usize, query: Seq<u32>, r: IndexResult<T>) -> bool {
    r matches Err(IndexError::DimMismatch { expected, got }) && expected == dim && got == query.len()
}

/// Whether `r` refuses to search an unknown collection.
pub open spec fn refused_coll<T>(coll: Seq<char>, r: IndexResult<T>) -> bool {
    r matches Err(IndexError::Storage(e)) && e@ == api::not_found(coll)
}

/// The exact index over one collection.
#[derive(Clone, Copy, Debug)]
pub struct FlatIndex {
    pub dim: usize,
    pub metric: DistanceMetric,
}

/// The row ids of bitmap positions.
pub fn row_ids(at: &Vec<u32>) -> (r: Vec<RowId>)
    ensures
        r@.len() == at@.len(),
        forall|i: int| 0 <= i < at@.len() ==> #[trigger] r@[i] == RowId(at@[i] as u64),
{
    let mut out: Vec<RowId> = Vec::new();
    while out.len() < at.len()
        invariant
            out@.len() <= at@.len(),
            forall|i: int| 0 <= i < out@.len() ==> #[trigger] out@[i] == RowId(at@[i] as u64),
        decreases at@.len() - out@.len(),
    {
        out.push(RowId(at[out.len()] as u64));
    }
    out
}

/// Whether `kept` are, in order, those of the first `n` positions that the
/// set holds.
spec fn keeps(all: Seq<u32>, n: int, set: Set<u32>, kept: Seq<u32>) -> bool {
    &&& forall|i: int, j: int| 0 <= i < j < kept.len() ==> kept[i] < kept[j]
    &&& forall|v: u32| #[trigger] kept.contains(v) <==> set.contains(v) && all.take(n).contains(v)
}

proof fn lemma_keep(all: Seq<u32>, n: int, set: Set<u32>, kept: Seq<u32>, rows: Set<u32>) -> (next: Seq<u32>)
    requires
        bitmap::lists_ascending(all, rows),
        0 <= n < all.len(),
        keeps(all, n, set, kept),
    ensures
        next == (if set.contains(all[n]) { kept.push(all[n]) } else { kept }),
        keeps(all, n + 1, set, next),
{
    let next = if set.contains(all[n]) { kept.push(all[n]) } else { kept };
    let was = all.take(n);
    let now = all.take(n + 1);
    assert(now =~= was.push(all[n]));
    assert forall|i: int, j: int| 0 <= i < j < next.len() implies next[i] < next[j] by {
        if j == kept.len() {
            assert(kept.contains(kept[i]));
            let k = choose|k: int| 0 <= k < was.len() && was[k] == kept[i];
            assert(all[k] < all[n]);
        }
    }
    assert forall|v: u32| #[trigger] next.contains(v) <==> set.contains(v) && now.contains(v) by {
        if next.contains(v) {
            let i = choose|i: int| 0 <= i < next.len() && next[i] == v;
            if i < kept.len() {
                assert(kept.contains(v));
                let k = choose|k: int| 0 <= k < was.len() && was[k] == v;
                assert(now[k] == v);
            } else {
                assert(now[n] == v);
            }
        }
        if set.contains(v) && now.contains(v) {
            let k = choose|k: int| 0 <= k < now.len() && now[k] == v;
            if k < n {
                assert(was[k] == v);
                assert(kept.contains(v));
                let i = choose|i: int| 0 <= i < kept.len() && kept[i] == v;
                assert(next[i] == v);
            } else {
                assert(next[kept.len() as int] == v);
            }
        }
    }
    next
}

proof fn lemma_kept(all: Seq<u32>, set: Set<u32>, kept: Seq<u32>, rows: Set<u32>)
    requires
        bitmap::lists_ascending(all, rows),
        keeps(all, all.len() as int, set, kept),
    ensures
        kept == bitmap::listing(rows.intersect(set)),
        kept == bitmap::listing(set.intersect(rows)),
{
    assert(all.take(all.len() as int) =~= all);
    assert(bitmap::lists_ascending(kept, rows.intersect(set)));
    bitmap::listing_is(kept, rows.intersect(set));
    assert(rows.intersect(set) =~= set.intersect(rows));
}

fn keep_allowed(rows: Vec<Row>, f: &FilterMask, Ghost(s): Ghost<StateView>) -> (r: Vec<Row>)
    requires
        all_live(s, rows@),
    ensures
        rows_at(s, bitmap::listing(s.live.intersect(bitmap::rows_of(f.allowed))), r@),
{
    let ghost all = bitmap::listing(s.live);
    let ghost set = bitmap::rows_of(f.allowed);
    let ghost mut kept = Seq::<u32>::empty();
    let ghost given = rows@;
    let mut out: Vec<Row> = Vec::new();
    proof { bitmap::listing_exists(s.live); }
    for row in it: rows
        invariant
            it.seq() == given,
            all == bitmap::listing(s.live),
            set == bitmap::rows_of(f.allowed),
            bitmap::lists_ascending(all, s.live),
            rows_at(s, all, given),
            keeps(all, it.index() as int, set, kept),
            rows_at(s, kept, out@),
    {
        proof {
            let n = it.index() as int;
            assert(state::is_row(given[n], all[n] as u64, s.rows[all[n] as u64]));
            kept = lemma_keep(all, n, set, kept, s.live);
        }
        if f.contains(row.id) {
            out.push(row);
        }
    }
    proof { lemma_kept(all, set, kept, s.live); }
    out
}

fn keep_found(rows: Vec<Option<Row>>, Ghost(s): Ghost<StateView>, Ghost(at): Ghost<Seq<u32>>, Ghost(allowed): Ghost<Set<u32>>) -> (r: Vec<Row>)
    requires
        collection::sound(s),
        bitmap::lists_ascending(at, allowed),
        rows@.len() == at.len(),
        forall|i: int| 0 <= i < at.len() ==> collection::is_live_row(s, at[i] as u64, #[trigger] rows@[i]),
    ensures
        rows_at(s, bitmap::listing(s.live.intersect(allowed)), r@),
{
    let ghost mut kept = Seq::<u32>::empty();
    let ghost given = rows@;
    let mut out: Vec<Row> = Vec::new();
    for row in it: rows
        invariant
            it.seq() == given,
            collection::sound(s),
            bitmap::lists_ascending(at, allowed),
            given.len() == at.len(),
            forall|i: int| 0 <= i < at.len() ==> collection::is_live_row(s, at[i] as u64, #[trigger] given[i]),
            keeps(at, it.index() as int, s.live, kept),
            rows_at(s, kept, out@),
    {
        proof {
            let n = it.index() as int;
            assert(collection::is_live_row(s, at[n] as u64, given[n]));
            kept = lemma_keep(at, n, s.live, kept, allowed);
        }
        match row {
            Some(row) => out.push(row),
            None => {},
        }
    }
    proof { lemma_kept(at, s.live, kept, allowed); }
    out
}

impl FlatIndex {
    /// An exact index.
    pub fn new(dim: usize, metric: DistanceMetric) -> (r: Self)
        ensures
            r == (FlatIndex { dim, metric }),
    {
        FlatIndex { dim, metric }
    }

    /// The rows that a search scores: every live row that the filter allows,
    /// by ascending id. A mask of at most `filter_exact_threshold` rows is
    /// fetched row by row, without a scan; the rows are the same either way.
    pub fn candidates(&self, storage: &Storage, coll: &str, query: &Vec<u32>, k: usize, filter: Option<&FilterMask>, params: &SearchParams) -> (r: IndexResult<Vec<Row>>)
        requires
            storage.wf(),
        ensures
            query@.len() != self.dim ==> refused_dim(self.dim, query@, r),
            query@.len() == self.dim && k == 0 ==> (r matches Ok(rows) && rows@.len() == 0),
            query@.len() == self.dim && k > 0 && !api::is_open(storage@, coll@) ==> refused_coll(coll@, r),
            query@.len() == self.dim && k > 0 && api::is_open(storage@, coll@) ==> (r matches Ok(rows)
                && rows_at(api::named(storage@, coll@).state, bitmap::listing(searched(api::named(storage@, coll@).state, filter)), rows@)),
    {
        if query.len() != self.dim {
            return Err(IndexError::DimMismatch { expected: self.dim, got: query.len() });
        }
        if k == 0 {
            return Ok(Vec::new());
        }
        let ghost s = api::named(storage@, coll@).state;
        match filter {
            Some(f) if f.estimated_cardinality <= params.filter_exact_threshold as u64 => {
                let at = bitmap_to_vec(&f.allowed);
                let ids = row_ids(&at);
                match storage.rows_by_id(coll, &ids) {
                    Ok(rows) => {
                        proof { api::open_is_sound(*storage, coll@); }
                        Ok(keep_found(rows, Ghost(s), Ghost(at@), Ghost(bitmap::rows_of(f.allowed))))
                    },
                    Err(e) => Err(IndexError::Storage(e)),
                }
            },
            _ => match scan_all(storage, coll) {
                Ok(rows) => match filter {
                    Some(f) => Ok(keep_allowed(rows, f, Ghost(s))),
                    None => Ok(rows),
                },
                Err(e) => Err(IndexError::Storage(e)),
            },
        }
    }

    /// The results of a search: the best `k` of the rows, given each one's
    /// score.
    pub fn search(&self, rows: &Vec<Row>, scores: &Vec<u32>, k: usize, params: &SearchParams) -> (r: SearchResult)
        requires
            scores@.len() == rows@.len(),
        ensures
            scoring::top_hits(scoring::hits_of_found(rows@, scores@, self.metric), k as nat, params.max_chunks_per_doc, r.hits@),
            !r.truncated_by_filter,
    {
        SearchResult { hits: finish_found(rows, scores, self.metric, k, params.max_chunks_per_doc), truncated_by_filter: false }
    }
}

} // verus!
