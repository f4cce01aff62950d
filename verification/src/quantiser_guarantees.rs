//! What hashing and quantising keep of a vector, said of its signs and
//! components.

use crate::bitmap;
use crate::coarse;
use crate::coarse::CoarseView;
use crate::hit;
use crate::ids::RowId;
use crate::kmeans;
use crate::lsh;
use crate::lsh::{HashTable, LshParams};
use crate::opq;
use crate::payload::FilterMask;
use crate::pq;
use crate::pq::{PqCodebook, PqError, PqParams};
use vstd::prelude::*;

verus! {

/// A row is a candidate exactly when some table has it in the query's bucket
/// and the filter allows it.
pub proof fn a_candidate_shares_a_bucket(tables: Seq<HashTable>, keys: Seq<u32>, filter: Option<&FilterMask>, row: u32)
    ensures
        lsh::candidate_rows(tables, keys, filter).contains(row) <==> (exists|t: int| 0 <= t < tables.len() && (#[trigger] tables[t]).buckets@.contains_key(keys[t])
            && bitmap::rows_of(tables[t].buckets@[keys[t]]).contains(row)) && (filter matches Some(f) ==> bitmap::rows_of(f.allowed).contains(row)),
{
    lemma_matched(tables, keys, tables.len(), row);
}

proof fn lemma_matched(tables: Seq<HashTable>, keys: Seq<u32>, n: nat, row: u32)
    requires
        n <= tables.len(),
    ensures
        lsh::matched(tables, keys, n).contains(row) <==> exists|t: int| 0 <= t < n && (#[trigger] tables[t]).buckets@.contains_key(keys[t]) && bitmap::rows_of(
            tables[t].buckets@[keys[t]],
        ).contains(row),
    decreases n,
{
    if n > 0 {
        lemma_matched(tables, keys, (n - 1) as nat, row);
        assert(tables[n - 1].buckets@.contains_key(keys[n - 1]) == tables[n - 1].buckets@.contains_key(keys[n - 1]));
    }
}

/// A bucket holds the rows that hash to it, and no others.
pub proof fn a_bucket_holds_the_rows_that_hash_to_it(table: HashTable, rows: Seq<RowId>, keys: Seq<u32>, key: u32, row: u32)
    requires
        lsh::hashes(table.buckets@, rows, keys),
    ensures
        (table.buckets@.contains_key(key) && bitmap::rows_of(table.buckets@[key]).contains(row)) <==> exists|i: int| 0 <= i < rows.len() && (#[trigger] rows[i]).0 == row
            && keys[i] == key,
{
    assert(lsh::rows_in(table.buckets@, key) == lsh::keyed(rows, keys, key, rows.len() as int));
    assert(lsh::keyed(rows, keys, key, rows.len() as int).contains(row) <==> exists|i: int| 0 <= i < rows.len() && (#[trigger] rows[i]).0 == row && keys[i] == key);
    assert(lsh::rows_in(table.buckets@, key).contains(row) <==> table.buckets@.contains_key(key) && bitmap::rows_of(table.buckets@[key]).contains(row));
}

/// The first sign is the lowest bit of a bucket's key, and each later one
/// counts twice as much as the one before.
pub proof fn signs_are_the_bits_of_the_key(signs: Seq<bool>)
    ensures
        signs.len() == 0 ==> lsh::signature(signs, signs.len()) == 0,
        signs.len() > 0 ==> lsh::signature(signs, signs.len()) == (if signs[0] { 1int } else { 0 }) + 2 * lsh::signature(signs.skip(1), (signs.len() - 1) as nat),
{
    if signs.len() > 0 {
        lemma_lowest_bit(signs, signs.len());
    }
}

proof fn lemma_lowest_bit(signs: Seq<bool>, n: nat)
    requires
        0 < n <= signs.len(),
    ensures
        lsh::signature(signs, n) == (if signs[0] { 1int } else { 0 }) + 2 * lsh::signature(signs.skip(1), (n - 1) as nat),
    decreases n,
{
    if n == 1 {
        assert(lsh::signature(signs, 0) == 0);
        assert(lsh::signature(signs.skip(1), 0) == 0);
        assert(lsh::weight(0) == 1);
    } else {
        lemma_lowest_bit(signs, (n - 1) as nat);
        assert(signs.skip(1)[n - 2] == signs[n - 1]);
        assert(lsh::weight((n - 1) as nat) == 2 * lsh::weight((n - 2) as nat));
    }
}

/// A layout of product quantisation is accepted exactly when the number of
/// subspaces divides the dimension and a subcode fits one byte; then the
/// subspaces make up the dimension. Otherwise the refusal says which does not
/// hold, the dimension first, and which numbers would divide it.
pub proof fn a_layout_is_accepted_where_it_divides(dim: usize, params: PqParams, r: Result<usize, PqError>)
    requires
        pq::checks(dim, params, r),
        dim > 0,
    ensures
        r is Ok <==> params.m > 0 && dim as int % params.m as int == 0 && 1 <= params.ksub <= 256,
        r matches Ok(dsub) ==> dsub * params.m == dim,
        !(params.m > 0 && dim as int % params.m as int == 0) ==> r matches Err(PqError::MDoesNotDivideDim { .. }),
        r matches Err(PqError::MDoesNotDivideDim { m, dim: d, suggested }) ==> m == params.m && d == dim && forall|x: usize| #[trigger] suggested@.contains(x) <==> 2 <= x
            <= dim && dim as int % x as int == 0,
        r matches Err(PqError::KsubOutOfRange(n)) ==> n == params.ksub && (n == 0 || n > 256),
{
}

/// A vector is cut into parts that stand side by side: component `j` of part
/// `i` is component `i * dsub + j` of the vector.
pub proof fn parts_stand_side_by_side(v: Seq<u32>, dsub: nat, m: nat, i: int, j: int)
    requires
        m * dsub == v.len(),
        0 <= i < m,
        0 <= j < dsub,
    ensures
        pq::cut(v, dsub, m).len() == m,
        pq::cut(v, dsub, m)[i].len() == dsub,
        pq::cut(v, dsub, m)[i][j] == v[i * dsub + j],
{
    assert(0 <= i * dsub && i * dsub + dsub <= m * dsub) by (nonlinear_arith)
        requires
            0 <= i < m,
    ;
}

proof fn lemma_joined(s: Seq<Seq<u32>>, each: nat, n: nat, i: int, j: int)
    requires
        n <= s.len(),
        forall|k: int| 0 <= k < n ==> (#[trigger] s[k]).len() == each,
        0 <= i < n,
        0 <= j < each,
    ensures
        pq::joined(s, n).len() == n * each,
        0 <= i * each + j < n * each,
        pq::joined(s, n)[i * each + j] == s[i][j],
    decreases n,
{
    let m = (n - 1) as nat;
    assert(n * each == m * each + each) by (nonlinear_arith)
        requires
            n == m + 1,
    ;
    if m == 0 {
        assert(pq::joined(s, 0).len() == 0);
        assert(s[0].len() == each);
        assert(pq::joined(s, n) =~= s[0]);
        assert(i * each == 0) by (nonlinear_arith)
            requires
                i == 0,
        ;
        assert(0 * each == 0);
    } else if i < m {
        lemma_joined(s, each, m, i, j);
        assert(s[m as int].len() == each);
    } else {
        lemma_joined(s, each, m, 0, j);
        assert(s[m as int].len() == each);
        assert(i * each == m * each);
    }
}

/// What a code decodes to is the centroid that each byte picks, side by side.
pub proof fn decoding_takes_the_picked_centroids(book: PqCodebook, code: Seq<u8>, i: int, j: int)
    requires
        book.wf(),
        pq::codes(book, code),
        0 <= i < book.m,
        0 <= j < book.dsub,
    ensures
        pq::joined(pq::picked(book, code), code.len()).len() == book.m * book.dsub,
        pq::joined(pq::picked(book, code), code.len())[i * book.dsub + j] == book.codebooks@[i]@[code[i] as int]@[j],
{
    let parts = pq::picked(book, code);
    assert forall|k: int| 0 <= k < code.len() implies (#[trigger] parts[k]).len() == book.dsub by {
        assert(code[k] < book.codebooks@[k]@.len());
        assert(book.codebooks@[k]@[code[k] as int]@.len() == book.dsub);
    }
    lemma_joined(parts, book.dsub as nat, code.len(), i, j);
}

/// The nearest of some distances is one that none is below, and the first of
/// those.
pub proof fn nothing_is_nearer_than_the_nearest(d: Seq<u32>, i: int, j: int)
    requires
        kmeans::is_nearest(d, i),
        0 <= j < d.len(),
    ensures
        0 <= i < d.len(),
        hit::float_rank(d[i]) <= hit::float_rank(d[j]),
        hit::float_rank(d[i]) == hit::float_rank(d[j]) ==> i <= j,
{
}

/// A number that is kept between two others is one of the three, and lies
/// between.
pub proof fn a_clamped_number_lies_between(n: nat, lo: nat, hi: nat)
    requires
        lo <= hi,
    ensures
        lo <= coarse::clamped(n, lo, hi) <= hi,
        lo <= n <= hi ==> coarse::clamped(n, lo, hi) == n,
        n < lo ==> coarse::clamped(n, lo, hi) == lo,
        n > hi ==> coarse::clamped(n, lo, hi) == hi,
{
}

/// The members of a cluster are the points that are assigned to it, in order.
pub proof fn members_are_assigned_to_their_cluster(assignments: Seq<usize>, cluster: int, n: nat)
    requires
        n <= assignments.len() <= usize::MAX,
    ensures
        forall|i: usize| #[trigger] coarse::members(assignments, cluster, n).contains(i) <==> i < n && assignments[i as int] == cluster,
        forall|v: int, w: int| 0 <= v < w < coarse::members(assignments, cluster, n).len() ==> coarse::members(assignments, cluster, n)[v] < coarse::members(
            assignments,
            cluster,
            n,
        )[w],
    decreases n,
{
    let all = coarse::members(assignments, cluster, n);
    if n > 0 {
        let m = (n - 1) as nat;
        members_are_assigned_to_their_cluster(assignments, cluster, m);
        let before = coarse::members(assignments, cluster, m);
        assert forall|i: usize| #[trigger] all.contains(i) <==> i < n && assignments[i as int] == cluster by {
            if all.contains(i) {
                let w = choose|w: int| 0 <= w < all.len() && all[w] == i;
                if w < before.len() {
                    assert(before[w] == i);
                    assert(before.contains(i));
                }
            }
            if i < n && assignments[i as int] == cluster {
                if i < m {
                    assert(before.contains(i));
                    let w = choose|w: int| 0 <= w < before.len() && before[w] == i;
                    assert(all[w] == i);
                } else {
                    assert(all[all.len() - 1] == i);
                }
            }
        }
        assert forall|v: int, w: int| 0 <= v < w < all.len() implies all[v] < all[w] by {
            assert(before[v] == all[v]);
            assert(before.contains(before[v]));
        }
    }
}

/// A rotation is kept column by column.
pub proof fn a_rotation_is_kept_by_columns(dim: int, row: int, column: int)
    requires
        0 <= row < dim,
        0 <= column < dim,
    ensures
        opq::entry_at(dim, row, column) / dim == column,
        opq::entry_at(dim, row, column) % dim == row,
{
    vstd::arithmetic::div_mod::lemma_fundamental_div_mod_converse(opq::entry_at(dim, row, column), dim, column, row);
}

/// A quantiser has as many leaves as its parents have together.
pub proof fn leaves_add_up(groups: Seq<Seq<Set<u32>>>, more: Seq<Set<u32>>, lists: Seq<Set<u32>>)
    ensures
        coarse::leaves_in(CoarseView::Flat(lists)) == lists.len(),
        coarse::leaves_in(CoarseView::Hierarchical(Seq::empty())) == 0,
        coarse::leaves_in(CoarseView::Hierarchical(groups.push(more))) == coarse::leaves_in(CoarseView::Hierarchical(groups)) + more.len(),
{
    lemma_leaf_prefix(groups, more, groups.len());
}

proof fn lemma_leaf_prefix(groups: Seq<Seq<Set<u32>>>, more: Seq<Set<u32>>, n: nat)
    requires
        n <= groups.len(),
    ensures
        coarse::leaf_count(groups.push(more), n) == coarse::leaf_count(groups, n),
    decreases n,
{
    if n > 0 {
        lemma_leaf_prefix(groups, more, (n - 1) as nat);
    }
}

/// A layout of hashing fits where a bucket's key fits four bytes and is made
/// of one sign at least; there is one table at least.
pub proof fn hashing_fits_four_bytes(params: LshParams)
    ensures
        lsh::fits(params) <==> params.num_hyperplanes >= 1 && params.num_hyperplanes <= 32,
        params.num_tables == 0 ==> lsh::tables_of(params) == 1,
        params.num_tables > 0 ==> lsh::tables_of(params) == params.num_tables,
{
}

} // verus!
