//! Row sets. A set of row positions is a `roaring::RoaringBitmap`; this file
//! states what its operations do to the set of positions it holds.

use roaring::RoaringBitmap;
use vstd::prelude::*;

verus! {

/// The bitmap type of the `roaring` crate.
#[verifier::external_type_specification]
#[verifier::external_body]
pub struct ExRoaringBitmap(roaring::RoaringBitmap);

/// The positions that a bitmap holds.
pub uninterp spec fn rows_of(b: RoaringBitmap) -> Set<u32>;

/// Every position that a row can have is below the number of `u32` values.
pub open spec fn position_count() -> nat {
    0x1_0000_0000
}

/// `RoaringBitmap::new`: the bitmap holds nothing.
#[verifier::external_body]
pub(crate) fn bitmap_new() -> (r: RoaringBitmap)
    ensures
        rows_of(r) == Set::<u32>::empty(),
{
    RoaringBitmap::new()
}

/// `RoaringBitmap::insert`: the position is added; the result says whether it
/// was absent before.
#[verifier::external_body]
pub(crate) fn bitmap_insert(b: &mut RoaringBitmap, v: u32) -> (r: bool)
    ensures
        rows_of(*final(b)) == rows_of(*old(b)).insert(v),
        r == !rows_of(*old(b)).contains(v),
{
    b.insert(v)
}

/// `RoaringBitmap::remove`: the position is taken out; the result says whether
/// it was present before.
#[verifier::external_body]
pub(crate) fn bitmap_remove(b: &mut RoaringBitmap, v: u32) -> (r: bool)
    ensures
        rows_of(*final(b)) == rows_of(*old(b)).remove(v),
        r == rows_of(*old(b)).contains(v),
{
    b.remove(v)
}

/// `RoaringBitmap::contains`: membership.
#[verifier::external_body]
pub(crate) fn bitmap_contains(b: &RoaringBitmap, v: u32) -> (r: bool)
    ensures
        r == rows_of(*b).contains(v),
{
    b.contains(v)
}

/// `RoaringBitmap::is_empty`: whether no position is held.
#[verifier::external_body]
pub(crate) fn bitmap_is_empty(b: &RoaringBitmap) -> (r: bool)
    ensures
        r == (rows_of(*b) == Set::<u32>::empty()),
{
    b.is_empty()
}

/// Whether `rows` has finitely many members, `n` of them.
pub open spec fn is_count(n: u64, rows: Set<u32>) -> bool {
    rows.finite() && n == rows.len()
}

/// `RoaringBitmap::len`: the number of positions held, which is finite and at
/// most the number of `u32` values.
#[verifier::external_body]
pub(crate) fn bitmap_len(b: &RoaringBitmap) -> (r: u64)
    ensures
        is_count(r, rows_of(*b)),
        r <= position_count(),
{
    b.len()
}

/// `RoaringBitmap`'s `Clone`: the copy holds the same positions.
#[verifier::external_body]
pub(crate) fn bitmap_clone(b: &RoaringBitmap) -> (r: RoaringBitmap)
    ensures
        rows_of(r) == rows_of(*b),
{
    b.clone()
}

/// `RoaringBitmap`'s `|=`: union.
#[verifier::external_body]
pub(crate) fn bitmap_union(b: &mut RoaringBitmap, other: &RoaringBitmap)
    ensures
        rows_of(*final(b)) == rows_of(*old(b)).union(rows_of(*other)),
{
    *b |= other;
}

/// `RoaringBitmap`'s `&=`: intersection.
#[verifier::external_body]
pub(crate) fn bitmap_intersect(b: &mut RoaringBitmap, other: &RoaringBitmap)
    ensures
        rows_of(*final(b)) == rows_of(*old(b)).intersect(rows_of(*other)),
{
    *b &= other;
}

/// `RoaringBitmap`'s `-=`: difference.
#[verifier::external_body]
pub(crate) fn bitmap_subtract(b: &mut RoaringBitmap, other: &RoaringBitmap)
    ensures
        rows_of(*final(b)) == rows_of(*old(b)).difference(rows_of(*other)),
{
    *b -= other;
}

/// Whether `s` lists the members of `rows` once each, in ascending order.
pub open spec fn lists_ascending(s: Seq<u32>, rows: Set<u32>) -> bool {
    &&& forall|i: int, j: int| 0 <= i < j < s.len() ==> s[i] < s[j]
    &&& forall|v: u32| #[trigger] rows.contains(v) <==> s.contains(v)
}

/// The members of `rows`, ascending.
pub open spec fn listing(rows: Set<u32>) -> Seq<u32> {
    choose|s: Seq<u32>| lists_ascending(s, rows)
}

/// A listing is the only one of its set.
pub proof fn listing_is(s: Seq<u32>, rows: Set<u32>)
    requires
        lists_ascending(s, rows),
    ensures
        s == listing(rows),
{
    ascending_listing_unique(s, listing(rows), rows);
}

/// `RoaringBitmap::iter`, collected: every held position once, ascending.
#[verifier::external_body]
pub(crate) fn bitmap_to_vec(b: &RoaringBitmap) -> (r: Vec<u32>)
    ensures
        lists_ascending(r@, rows_of(*b)),
{
    b.iter().collect()
}

/// Two ascending listings of one set are the same sequence.
pub proof fn ascending_listing_unique(a: Seq<u32>, b: Seq<u32>, rows: Set<u32>)
    requires
        lists_ascending(a, rows),
        lists_ascending(b, rows),
    ensures
        a == b,
    decreases a.len(),
{
    if a.len() == 0 {
        if b.len() > 0 {
            assert(b.contains(b[0]));
            assert(rows.contains(b[0]));
            assert(a.contains(b[0]));
        }
        assert(a =~= b);
    } else {
        assert(a.contains(a.last()));
        assert(rows.contains(a.last()));
        assert(b.contains(a.last()));
        assert(b.contains(b.last()));
        assert(rows.contains(b.last()));
        assert(a.contains(b.last()));
        assert(a.last() == b.last());
        let rest = rows.remove(a.last());
        assert(lists_ascending(a.drop_last(), rest)) by {
            lemma_listing_drop_last(a, rows);
        }
        assert(lists_ascending(b.drop_last(), rest)) by {
            lemma_listing_drop_last(b, rows);
        }
        ascending_listing_unique(a.drop_last(), b.drop_last(), rest);
        assert(a =~= a.drop_last().push(a.last()));
        assert(b =~= b.drop_last().push(b.last()));
    }
}

proof fn lemma_listing_drop_last(a: Seq<u32>, rows: Set<u32>)
    requires
        lists_ascending(a, rows),
        a.len() > 0,
    ensures
        lists_ascending(a.drop_last(), rows.remove(a.last())),
{
    let rest = rows.remove(a.last());
    let d = a.drop_last();
    assert forall|v: u32| #[trigger] rest.contains(v) <==> d.contains(v) by {
        if rest.contains(v) {
            assert(rows.contains(v));
            assert(a.contains(v));
            let i = choose|i: int| 0 <= i < a.len() && a[i] == v;
            assert(d[i] == v);
        }
        if d.contains(v) {
            let i = choose|i: int| 0 <= i < d.len() && d[i] == v;
            assert(a[i] == v);
            assert(a.contains(v));
            assert(rows.contains(v));
            assert(a[i] < a[a.len() - 1]);
        }
    }
}

spec fn below(rows: Set<u32>, n: nat) -> Set<u32> {
    Set::new(|v: u32| rows.contains(v) && v < n)
}

proof fn lemma_listing_below(rows: Set<u32>, n: nat)
    requires
        n <= position_count(),
    ensures
        exists|s: Seq<u32>| lists_ascending(s, below(rows, n)),
    decreases n,
{
    let want = below(rows, n);
    if n == 0 {
        assert(lists_ascending(Seq::<u32>::empty(), want));
    } else {
        let fewer = (n - 1) as nat;
        let smaller = below(rows, fewer);
        lemma_listing_below(rows, fewer);
        let s = choose|s: Seq<u32>| lists_ascending(s, smaller);
        let last = (n - 1) as u32;
        let t = if rows.contains(last) { s.push(last) } else { s };
        assert forall|i: int, j: int| 0 <= i < j < t.len() implies t[i] < t[j] by {
            if j == s.len() {
                assert(s.contains(t[i]));
                assert(smaller.contains(t[i]));
            }
        }
        assert forall|v: u32| #[trigger] want.contains(v) <==> t.contains(v) by {
            if want.contains(v) && v < last {
                assert(smaller.contains(v));
                let i = choose|i: int| 0 <= i < s.len() && s[i] == v;
                assert(t[i] == v);
            } else if want.contains(v) {
                assert(t[s.len() as int] == v);
            }
            if t.contains(v) {
                let i = choose|i: int| 0 <= i < t.len() && t[i] == v;
                if i < s.len() {
                    assert(s.contains(v));
                    assert(smaller.contains(v));
                }
            }
        }
        assert(lists_ascending(t, want));
    }
}

/// Every set of positions has its listing.
pub proof fn listing_exists(rows: Set<u32>)
    ensures
        lists_ascending(listing(rows), rows),
{
    let n = position_count();
    lemma_listing_below(rows, n);
    assert(below(rows, n) =~= rows);
}

/// Every set of positions is finite.
pub proof fn lemma_listing_len(rows: Set<u32>)
    ensures
        rows.finite(),
        listing(rows).len() == rows.len(),
{
    listing_exists(rows);
    let l = listing(rows);
    assert(l.no_duplicates()) by {
        assert forall|i: int, j: int| 0 <= i < l.len() && 0 <= j < l.len() && i != j implies l[i] != l[j] by {
            if i < j {
                assert(l[i] < l[j]);
            } else {
                assert(l[j] < l[i]);
            }
        }
    }
    l.unique_seq_to_set();
    assert(l.to_set() =~= rows);
    vstd::seq_lib::seq_to_set_is_finite(l);
}

} // verus!
