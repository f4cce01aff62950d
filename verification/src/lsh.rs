//! Locality-sensitive hashing: several hash tables, each keyed by the signs
//! of a vector's products with that table's hyperplanes.

use crate::api;
use crate::api::Storage;
use crate::bitmap;
use crate::bitmap::{bitmap_insert, bitmap_intersect, bitmap_new, bitmap_union};
use crate::coarse;
use crate::flat;
use crate::hit::{IndexError, IndexResult};
use crate::ids::RowId;
use crate::model::DistanceMetric;
use crate::payload::FilterMask;
use crate::shortlist;
use crate::shortlist::{fetch, ids_in, Shortlist};
use roaring::RoaringBitmap;
use std::collections::HashMap;
use vstd::prelude::*;

verus! {

/// Why hashing parameters are refused.
#[derive(Clone, Copy, Debug, PartialEq, Eq)]
pub enum LshError {
    /// A bucket signature has to fit 32 bits, and there has to be one.
    NumHyperplanesOutOfRange(usize),
}

/// Hashing parameters.
#[derive(Clone, Copy, Debug, PartialEq, Eq)]
pub struct LshParams {
    pub num_tables: usize,
    pub num_hyperplanes: usize,
    pub seed: u64,
}

impl Default for LshParams {
    fn default() -> (r: Self)
        ensures
            r == (LshParams { num_tables: 8, num_hyperplanes: 20, seed: 0 }),
    {
        LshParams { num_tables: 8, num_hyperplanes: 20, seed: 0 }
    }
}

/// Whether a signature of that many hyperplanes fits.
pub open spec fn fits(params: LshParams) -> bool {
    1 <= params.num_hyperplanes <= 32
}

/// How many tables there are: at least one.
pub open spec fn tables_of(params: LshParams) -> nat {
    if params.num_tables < 1 { 1 } else { params.num_tables as nat }
}

impl LshParams {
    /// Refuses parameters whose signature does not fit.
    pub fn check(&self) -> (r: Result<(), LshError>)
        ensures
            fits(*self) ==> r is Ok,
            !fits(*self) ==> r == Err::<(), LshError>(LshError::NumHyperplanesOutOfRange(self.num_hyperplanes)),
    {
        if self.num_hyperplanes == 0 || self.num_hyperplanes > 32 {
            return Err(LshError::NumHyperplanesOutOfRange(self.num_hyperplanes));
        }
        Ok(())
    }

    /// How many tables there are.
    pub fn table_count(&self) -> (r: usize)
        ensures
            r == tables_of(*self),
    {
        if self.num_tables < 1 { 1 } else { self.num_tables }
    }
}

/// What a bit counts.
pub open spec fn weight(i: nat) -> nat
    decreases i,
{
    if i == 0 { 1 } else { 2 * weight((i - 1) as nat) }
}

/// The key of the first `n` signs: bit `i` is set where sign `i` is.
pub open spec fn signature(signs: Seq<bool>, n: nat) -> nat
    decreases n,
{
    if n == 0 { 0 } else { signature(signs, (n - 1) as nat) + if signs[n - 1] { weight((n - 1) as nat) } else { 0 } }
}

proof fn lemma_signature_bound(signs: Seq<bool>, n: nat)
    ensures
        signature(signs, n) < weight(n),
    decreases n,
{
    if n > 0 {
        lemma_signature_bound(signs, (n - 1) as nat);
    }
}

proof fn lemma_weight_grows(a: nat, b: nat)
    requires
        a <= b,
    ensures
        weight(a) <= weight(b),
    decreases b,
{
    if a < b {
        lemma_weight_grows(a, (b - 1) as nat);
    }
}

/// The bucket of a vector: one bit for each hyperplane, set where the product
/// with it is not negative.
pub fn bucket_key(signs: &Vec<bool>) -> (r: u32)
    requires
        signs@.len() <= 32,
    ensures
        r == signature(signs@, signs@.len()),
{
    let mut key: u64 = 0;
    let mut bit: u64 = 1;
    let mut i: usize = 0;
    proof {
        assert(weight(32) == 0x1_0000_0000) by {
            reveal_with_fuel(weight, 33);
        }
    }
    while i < signs.len()
        invariant
            i <= signs@.len() <= 32,
            weight(32) == 0x1_0000_0000,
            key == signature(signs@, i as nat),
            bit == weight(i as nat),
            bit <= 0x1_0000_0000,
        decreases signs@.len() - i,
    {
        proof {
            lemma_signature_bound(signs@, i as nat);
            lemma_weight_grows((i + 1) as nat, 32);
        }
        if signs[i] {
            key = key + bit;
        }
        bit = bit * 2;
        i += 1;
    }
    proof {
        lemma_signature_bound(signs@, signs@.len());
        lemma_weight_grows(signs@.len(), 32);
    }
    key as u32
}

/// Two vectors share a bucket exactly where all their signs agree.
pub proof fn buckets_tell_signs_apart(a: Seq<bool>, b: Seq<bool>)
    requires
        a.len() == b.len(),
    ensures
        signature(a, a.len()) == signature(b, b.len()) <==> a == b,
{
    if signature(a, a.len()) == signature(b, b.len()) {
        lemma_signs(a, b, a.len());
        assert(a =~= b);
    }
}

proof fn lemma_signs(a: Seq<bool>, b: Seq<bool>, n: nat)
    requires
        n <= a.len(),
        n <= b.len(),
        signature(a, n) == signature(b, n),
    ensures
        forall|i: int| 0 <= i < n ==> a[i] == b[i],
    decreases n,
{
    if n > 0 {
        lemma_signature_bound(a, (n - 1) as nat);
        lemma_signature_bound(b, (n - 1) as nat);
        lemma_signs(a, b, (n - 1) as nat);
    }
}

/// A hash table: its hyperplanes, and the rows of each bucket.
pub struct HashTable {
    pub hyperplanes: Vec<Vec<u32>>,
    pub buckets: HashMap<u32, RoaringBitmap>,
}

/// The rows of a bucket.
pub open spec fn rows_in(buckets: Map<u32, RoaringBitmap>, key: u32) -> Set<u32> {
    if buckets.contains_key(key) { bitmap::rows_of(buckets[key]) } else { Set::empty() }
}

/// The rows, among the first `n`, that have this key.
pub open spec fn keyed(rows: Seq<RowId>, keys: Seq<u32>, key: u32, n: int) -> Set<u32> {
    Set::new(|row: u32| exists|i: int| 0 <= i < n && (#[trigger] rows[i]).0 == row && keys[i] == key)
}

/// Whether the buckets hold each row under its key, and nothing else.
pub open spec fn hashes(buckets: Map<u32, RoaringBitmap>, rows: Seq<RowId>, keys: Seq<u32>) -> bool {
    forall|key: u32| #[trigger] rows_in(buckets, key) == keyed(rows, keys, key, rows.len() as int)
}

fn fill(rows: &Vec<RowId>, keys: &Vec<u32>) -> (r: HashMap<u32, RoaringBitmap>)
    requires
        coarse::rows_fit(rows@),
        keys@.len() == rows@.len(),
    ensures
        hashes(r@, rows@, keys@),
{
    broadcast use vstd::std_specs::hash::group_hash_axioms;

    let mut buckets: HashMap<u32, RoaringBitmap> = HashMap::new();
    let mut i: usize = 0;
    assert forall|key: u32| #[trigger] rows_in(buckets@, key) == keyed(rows@, keys@, key, 0) by {
        assert(keyed(rows@, keys@, key, 0) =~= Set::<u32>::empty());
    }
    while i < rows.len()
        invariant
            i <= rows@.len(),
            coarse::rows_fit(rows@),
            keys@.len() == rows@.len(),
            forall|key: u32| #[trigger] rows_in(buckets@, key) == keyed(rows@, keys@, key, i as int),
        decreases rows@.len() - i,
    {
        let ghost was = buckets@;
        let key = keys[i];
        let mut bucket = match buckets.remove(&key) {
            Some(b) => b,
            None => bitmap_new(),
        };
        assert(bitmap::rows_of(bucket) == rows_in(was, key));
        let row = rows[i].to_bitmap_index();
        bitmap_insert(&mut bucket, row);
        buckets.insert(key, bucket);
        assert forall|x: u32| #[trigger] rows_in(buckets@, x) == keyed(rows@, keys@, x, i + 1) by {
            let before = keyed(rows@, keys@, x, i as int);
            let after = keyed(rows@, keys@, x, i + 1);
            assert(rows_in(was, x) == before);
            assert forall|v: u32| after.contains(v) <==> before.contains(v) || (x == key && v == row) by {
                if after.contains(v) {
                    let w = choose|w: int| 0 <= w < i + 1 && (#[trigger] rows@[w]).0 == v && keys@[w] == x;
                    assert(rows@[w].0 == v);
                }
                if before.contains(v) {
                    let w = choose|w: int| 0 <= w < i && (#[trigger] rows@[w]).0 == v && keys@[w] == x;
                    assert(rows@[w].0 == v);
                }
                if x == key && v == row {
                    assert(rows@[i as int].0 == v);
                }
            }
            if x == key {
                assert(after =~= before.insert(row));
            } else {
                assert(after =~= before);
            }
        }
        i += 1;
    }
    buckets
}

/// The hash index: several tables over one set of rows.
pub struct LshIndex {
    pub dim: usize,
    pub metric: DistanceMetric,
    pub tables: Vec<HashTable>,
}

/// The rows that share the query's bucket in one of the first `n` tables.
pub open spec fn matched(tables: Seq<HashTable>, keys: Seq<u32>, n: nat) -> Set<u32>
    decreases n,
{
    if n == 0 {
        Set::empty()
    } else {
        matched(tables, keys, (n - 1) as nat).union(rows_in(tables[n - 1].buckets@, keys[n - 1]))
    }
}

/// The candidates of a query: the matched rows that the filter allows.
pub open spec fn candidate_rows(tables: Seq<HashTable>, keys: Seq<u32>, filter: Option<&FilterMask>) -> Set<u32> {
    let all = matched(tables, keys, tables.len());
    match filter {
        Some(f) => all.intersect(bitmap::rows_of(f.allowed)),
        None => all,
    }
}

impl LshIndex {
    /// The index of these rows: `keys[t][i]` is the bucket of row `i` in
    /// table `t`, whose hyperplanes are `hyperplanes[t]`.
    pub fn build(dim: usize, metric: DistanceMetric, params: &LshParams, rows: &Vec<RowId>, hyperplanes: Vec<Vec<Vec<u32>>>, keys: &Vec<Vec<u32>>) -> (r: IndexResult<Self>)
        requires
            fits(*params) ==> coarse::rows_fit(rows@) && hyperplanes@.len() == tables_of(*params) && keys@.len() == tables_of(*params)
                && (forall|t: int| 0 <= t < keys@.len() ==> (#[trigger] keys@[t])@.len() == rows@.len()),
        ensures
            !fits(*params) ==> (r matches Err(IndexError::Lsh(e)) && e == LshError::NumHyperplanesOutOfRange(params.num_hyperplanes)),
            fits(*params) ==> (r matches Ok(index) && index.dim == dim && index.metric == metric && index.tables@.len() == tables_of(*params)
                && (forall|t: int| 0 <= t < index.tables@.len() ==> hashes((#[trigger] index.tables@[t]).buckets@, rows@, keys@[t]@)
                    && index.tables@[t].hyperplanes == hyperplanes@[t])),
    {
        match params.check() {
            Ok(()) => {},
            Err(e) => return Err(IndexError::Lsh(e)),
        }
        let ghost given = hyperplanes@;
        let mut tables: Vec<HashTable> = Vec::new();
        for planes in it: hyperplanes
            invariant
                it.seq() == given,
                given.len() == keys@.len(),
                coarse::rows_fit(rows@),
                forall|t: int| 0 <= t < keys@.len() ==> (#[trigger] keys@[t])@.len() == rows@.len(),
                tables@.len() == it.index(),
                forall|t: int| 0 <= t < tables@.len() ==> hashes((#[trigger] tables@[t]).buckets@, rows@, keys@[t]@) && tables@[t].hyperplanes == given[t],
        {
            let t: usize = tables.len();
            let buckets = fill(rows, &keys[t]);
            tables.push(HashTable { hyperplanes: planes, buckets });
        }
        Ok(LshIndex { dim, metric, tables })
    }

    /// How many tables there are.
    pub fn num_tables(&self) -> (r: usize)
        ensures
            r == self.tables@.len(),
    {
        self.tables.len()
    }

    fn matching(&self, keys: &Vec<u32>, filter: Option<&FilterMask>) -> (r: RoaringBitmap)
        requires
            keys@.len() == self.tables@.len(),
        ensures
            bitmap::rows_of(r) == candidate_rows(self.tables@, keys@, filter),
    {
        broadcast use vstd::std_specs::hash::group_hash_axioms;

        let mut out = bitmap_new();
        let mut t: usize = 0;
        while t < self.tables.len()
            invariant
                t <= self.tables@.len(),
                keys@.len() == self.tables@.len(),
                bitmap::rows_of(out) == matched(self.tables@, keys@, t as nat),
            decreases self.tables@.len() - t,
        {
            match self.tables[t].buckets.get(&keys[t]) {
                Some(bucket) => bitmap_union(&mut out, bucket),
                None => {
                    assert(matched(self.tables@, keys@, t as nat).union(Set::<u32>::empty()) =~= matched(self.tables@, keys@, t as nat));
                },
            }
            t += 1;
        }
        match filter {
            Some(f) => bitmap_intersect(&mut out, &f.allowed),
            None => {},
        }
        out
    }

    /// The rows that a search scores, given the query's bucket in each table.
    pub fn candidates(&self, storage: &Storage, coll: &str, query: &Vec<u32>, keys: &Vec<u32>, k: usize, filter: Option<&FilterMask>) -> (r: IndexResult<Shortlist>)
        requires
            storage.wf(),
            query@.len() == self.dim && k > 0 ==> keys@.len() == self.tables@.len(),
        ensures
            query@.len() != self.dim ==> flat::refused_dim(self.dim, query@, r),
            query@.len() == self.dim && k == 0 ==> (r matches Ok(list) && shortlist::nothing(list)),
            query@.len() == self.dim && k > 0 && !api::is_open(storage@, coll@) ==> flat::refused_coll(coll@, r),
            query@.len() == self.dim && k > 0 && api::is_open(storage@, coll@) ==> (r matches Ok(list) && !list.truncated_by_filter
                && shortlist::lists(api::named(storage@, coll@).state, shortlist::ids_of(candidate_rows(self.tables@, keys@, filter)), list.rows@)),
    {
        if query.len() != self.dim {
            return Err(IndexError::DimMismatch { expected: self.dim, got: query.len() });
        }
        if k == 0 {
            return Ok(Shortlist::empty());
        }
        let found = self.matching(keys, filter);
        let ids = ids_in(&found);
        fetch(storage, coll, &ids, false)
    }
}

proof fn lemma_matched_grows(tables: Seq<HashTable>, keys: Seq<u32>, t: int, n: nat)
    requires
        0 <= t < n,
    ensures
        rows_in(tables[t].buckets@, keys[t]).subset_of(matched(tables, keys, n)),
    decreases n,
{
    if t < n - 1 {
        lemma_matched_grows(tables, keys, t, (n - 1) as nat);
    }
}

/// A row whose key is the query's in some table is a candidate: a vector
/// always finds itself.
pub proof fn same_bucket_is_a_candidate(tables: Seq<HashTable>, query_keys: Seq<u32>, rows: Seq<RowId>, row_keys: Seq<u32>, t: int, i: int)
    requires
        coarse::rows_fit(rows),
        0 <= t < tables.len(),
        0 <= i < rows.len(),
        hashes(tables[t].buckets@, rows, row_keys),
        row_keys[i] == query_keys[t],
    ensures
        candidate_rows(tables, query_keys, None).contains(rows[i].0 as u32),
{
    let row = rows[i].0 as u32;
    assert(rows[i].0 == row);
    assert(keyed(rows, row_keys, query_keys[t], rows.len() as int).contains(row));
    assert(rows_in(tables[t].buckets@, query_keys[t]).contains(row));
    lemma_matched_grows(tables, query_keys, t, tables.len());
}

/// More tables never mean fewer candidates.
pub proof fn more_tables_find_no_less(tables: Seq<HashTable>, keys: Seq<u32>, n: nat, m: nat)
    requires
        n <= m <= tables.len(),
    ensures
        matched(tables, keys, n).subset_of(matched(tables, keys, m)),
    decreases m,
{
    if n < m {
        more_tables_find_no_less(tables, keys, n, (m - 1) as nat);
    }
}

} // verus!
