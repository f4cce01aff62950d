//! Stable ordering by integer keys.

use vstd::prelude::*;

verus! {

/// Whether position `a` comes before position `b` when positions are ordered
/// by key, and by position where keys are equal.
pub open spec fn comes_first(keys: Seq<i128>, a: usize, b: usize) -> bool {
    keys[a as int] < keys[b as int] || (keys[a as int] == keys[b as int] && a < b)
}

/// Whether `p` lists the positions `lo..hi` once each, in key order.
pub open spec fn orders_range(keys: Seq<i128>, p: Seq<usize>, lo: int, hi: int) -> bool {
    &&& p.len() == hi - lo
    &&& forall|i: int| 0 <= i < p.len() ==> lo <= (#[trigger] p[i]) < hi
    &&& forall|k: usize| lo <= k < hi ==> #[trigger] p.contains(k)
    &&& forall|i: int, j: int| 0 <= i < j < p.len() ==> comes_first(keys, #[trigger] p[i], #[trigger] p[j])
}

/// Whether `p` is the stable order of the keys: every position once, smaller
/// keys first, equal keys in their original order.
pub open spec fn stable_order_of(keys: Seq<i128>, p: Seq<usize>) -> bool {
    orders_range(keys, p, 0, keys.len() as int)
}

fn merge(keys: &Vec<i128>, a: &Vec<usize>, b: &Vec<usize>, Ghost(lo): Ghost<int>, Ghost(mid): Ghost<int>, Ghost(hi): Ghost<int>) -> (r: Vec<usize>)
    requires
        0 <= lo <= mid <= hi <= keys@.len(),
        orders_range(keys@, a@, lo, mid),
        orders_range(keys@, b@, mid, hi),
    ensures
        orders_range(keys@, r@, lo, hi),
{
    let mut out: Vec<usize> = Vec::new();
    let mut i: usize = 0;
    let mut j: usize = 0;
    while i < a.len() || j < b.len()
        invariant
            0 <= lo <= mid <= hi <= keys@.len(),
            orders_range(keys@, a@, lo, mid),
            orders_range(keys@, b@, mid, hi),
            i <= a@.len(),
            j <= b@.len(),
            out@.len() == i + j,
            forall|x: int| 0 <= x < out@.len() ==> lo <= (#[trigger] out@[x]) < hi,
            forall|x: int, y: int| 0 <= x < y < out@.len() ==> comes_first(keys@, #[trigger] out@[x], #[trigger] out@[y]),
            forall|x: int, y: int| 0 <= x < out@.len() && i <= y < a@.len() ==> comes_first(keys@, #[trigger] out@[x], #[trigger] a@[y]),
            forall|x: int, y: int| 0 <= x < out@.len() && j <= y < b@.len() ==> comes_first(keys@, #[trigger] out@[x], #[trigger] b@[y]),
            forall|x: int| 0 <= x < i ==> out@.contains(#[trigger] a@[x]),
            forall|x: int| 0 <= x < j ==> out@.contains(#[trigger] b@[x]),
        decreases a@.len() - i + b@.len() - j,
    {
        let take_left = if i >= a.len() {
            false
        } else if j >= b.len() {
            true
        } else {
            keys[a[i]] <= keys[b[j]]
        };
        let ghost was = out@;
        if take_left {
            let v = a[i];
            proof {
                assert forall|y: int| j <= y < b@.len() implies comes_first(keys@, v, #[trigger] b@[y]) by {
                    assert(comes_first(keys@, b@[j as int], b@[y]) || y == j);
                }
                assert forall|x: int| 0 <= x < was.len() implies comes_first(keys@, #[trigger] was[x], v) by {
                    assert(comes_first(keys@, was[x], a@[i as int]));
                }
            }
            out.push(v);
            i += 1;
        } else {
            let v = b[j];
            proof {
                assert forall|y: int| i <= y < a@.len() implies comes_first(keys@, v, #[trigger] a@[y]) by {
                    assert(comes_first(keys@, a@[i as int], a@[y]) || y == i);
                }
                assert forall|x: int| 0 <= x < was.len() implies comes_first(keys@, #[trigger] was[x], v) by {
                    assert(comes_first(keys@, was[x], b@[j as int]));
                }
            }
            out.push(v);
            j += 1;
        }
        proof {
            assert forall|x: int| 0 <= x < out@.len() implies lo <= (#[trigger] out@[x]) < hi by {
                if x < was.len() {
                    assert(out@[x] == was[x]);
                }
            }
            assert forall|x: int| 0 <= x < i implies out@.contains(#[trigger] a@[x]) by {
                if was.contains(a@[x]) {
                    let k = choose|k: int| 0 <= k < was.len() && was[k] == a@[x];
                    assert(out@[k] == a@[x]);
                } else {
                    assert(out@[was.len() as int] == a@[x]);
                }
            }
            assert forall|x: int| 0 <= x < j implies out@.contains(#[trigger] b@[x]) by {
                if was.contains(b@[x]) {
                    let k = choose|k: int| 0 <= k < was.len() && was[k] == b@[x];
                    assert(out@[k] == b@[x]);
                } else {
                    assert(out@[was.len() as int] == b@[x]);
                }
            }
        }
    }
    proof {
        assert forall|k: usize| lo <= k < hi implies #[trigger] out@.contains(k) by {
            if k < mid {
                assert(a@.contains(k));
                let x = choose|x: int| 0 <= x < a@.len() && a@[x] == k;
                assert(out@.contains(a@[x]));
            } else {
                assert(b@.contains(k));
                let x = choose|x: int| 0 <= x < b@.len() && b@[x] == k;
                assert(out@.contains(b@[x]));
            }
        }
    }
    out
}

fn sort_range(keys: &Vec<i128>, lo: usize, hi: usize) -> (r: Vec<usize>)
    requires
        lo <= hi <= keys@.len(),
    ensures
        orders_range(keys@, r@, lo as int, hi as int),
    decreases hi - lo,
{
    if hi - lo == 0 {
        Vec::new()
    } else if hi - lo == 1 {
        let mut out: Vec<usize> = Vec::new();
        out.push(lo);
        assert(out@[0] == lo);
        out
    } else {
        let mid = lo + (hi - lo) / 2;
        let a = sort_range(keys, lo, mid);
        let b = sort_range(keys, mid, hi);
        merge(keys, &a, &b, Ghost(lo as int), Ghost(mid as int), Ghost(hi as int))
    }
}

/// The stable order of the keys.
pub fn stable_order(keys: &Vec<i128>) -> (r: Vec<usize>)
    ensures
        stable_order_of(keys@, r@),
{
    sort_range(keys, 0, keys.len())
}

/// The stable order of a list of keys is unique.
pub proof fn stable_order_unique(keys: Seq<i128>, p: Seq<usize>, q: Seq<usize>)
    requires
        stable_order_of(keys, p),
        stable_order_of(keys, q),
    ensures
        p == q,
{
    assert forall|i: int| 0 <= i < p.len() implies p[i] == q[i] by {
        lemma_same_prefix(keys, p, q, i);
    }
    assert(p =~= q);
}

proof fn lemma_same_prefix(keys: Seq<i128>, p: Seq<usize>, q: Seq<usize>, i: int)
    requires
        stable_order_of(keys, p),
        stable_order_of(keys, q),
        0 <= i < p.len(),
    ensures
        p[i] == q[i],
    decreases i,
{
    assert forall|j: int| 0 <= j < i implies p[j] == q[j] by {
        lemma_same_prefix(keys, p, q, j);
    }
    // Both are the first position that the common prefix leaves over.
    assert(q.contains(p[i]));
    let a = choose|a: int| 0 <= a < q.len() && q[a] == p[i];
    assert(p.contains(q[i]));
    let b = choose|b: int| 0 <= b < p.len() && p[b] == q[i];
    if a < i {
        assert(p[a] == q[a]);
        assert(comes_first(keys, p[a], p[i]));
    }
    if b < i {
        assert(p[b] == q[b]);
        assert(comes_first(keys, q[b], q[i]));
    }
    if a > i && b > i {
        assert(comes_first(keys, q[i], q[a]));
        assert(comes_first(keys, p[i], p[b]));
    }
}

/// The keys of an ordered map grow strictly along its iterator.
pub proof fn lemma_increasing(keys: Seq<u64>, i: int, j: int)
    requires
        vstd::std_specs::btree::increasing_seq(keys),
        0 <= i < j < keys.len(),
    ensures
        keys[i] < keys[j],
{
    broadcast use vstd::std_specs::btree::group_btree_axioms;

    assert(vstd::laws_cmp::obeys_cmp::<u64>());
    assert(vstd::std_specs::cmp::OrdSpec::cmp_spec(&keys[i], &keys[j]) is Less);
}

/// The positions of the keys in their stable order.
pub open spec fn sorted(keys: Seq<i128>) -> Seq<usize> {
    choose|p: Seq<usize>| stable_order_of(keys, p)
}

/// A stable order of the keys is the only one.
pub proof fn sorted_is(keys: Seq<i128>, p: Seq<usize>)
    requires
        stable_order_of(keys, p),
    ensures
        p == sorted(keys),
{
    stable_order_unique(keys, p, sorted(keys));
}

proof fn lemma_order_exists(keys: Seq<i128>, hi: int)
    requires
        0 <= hi <= keys.len(),
        keys.len() <= usize::MAX,
    ensures
        exists|p: Seq<usize>| orders_range(keys, p, 0, hi),
    decreases hi,
{
    if hi == 0 {
        assert(orders_range(keys, Seq::<usize>::empty(), 0, 0));
    } else {
        lemma_order_exists(keys, hi - 1);
        let below = hi - 1;
        let p = choose|p: Seq<usize>| orders_range(keys, p, 0, below);
        let last = (hi - 1) as usize;
        let at = lemma_insertion_point(keys, p, last, p.len() as int);
        let q = p.insert(at, last);
        assert forall|i: int| 0 <= i < q.len() implies 0 <= (#[trigger] q[i]) < hi by {
            if i < at {
                assert(q[i] == p[i]);
            } else if i > at {
                assert(q[i] == p[i - 1]);
            }
        }
        assert forall|k: usize| 0 <= k < hi implies #[trigger] q.contains(k) by {
            if k == last {
                assert(q[at] == k);
            } else {
                assert(p.contains(k));
                let x = choose|x: int| 0 <= x < p.len() && p[x] == k;
                assert(if x < at { q[x] == k } else { q[x + 1] == k });
            }
        }
        assert forall|i: int, j: int| 0 <= i < j < q.len() implies comes_first(keys, #[trigger] q[i], #[trigger] q[j]) by {
            let a = if i < at { i } else { i - 1 };
            let b = if j < at { j } else { j - 1 };
            assert(i != at ==> q[i] == p[a]);
            assert(j != at ==> q[j] == p[b]);
            if i != at && j != at {
                assert(comes_first(keys, p[a], p[b]));
            } else if i == at {
                assert(comes_first(keys, last, p[b]));
            } else {
                assert(comes_first(keys, p[a], last));
            }
        }
        assert(orders_range(keys, q, 0, hi));
    }
}

proof fn lemma_insertion_point(keys: Seq<i128>, p: Seq<usize>, v: usize, n: int) -> (at: int)
    requires
        0 <= n <= p.len(),
        orders_range(keys, p, 0, v as int),
        v < keys.len(),
        forall|i: int| n <= i < p.len() ==> comes_first(keys, v, #[trigger] p[i]),
    ensures
        0 <= at <= p.len(),
        forall|i: int| 0 <= i < at ==> comes_first(keys, #[trigger] p[i], v),
        forall|i: int| at <= i < p.len() ==> comes_first(keys, v, #[trigger] p[i]),
    decreases n,
{
    if n == 0 {
        0
    } else if comes_first(keys, p[n - 1], v) {
        assert forall|i: int| 0 <= i < n implies comes_first(keys, #[trigger] p[i], v) by {
            if i < n - 1 {
                assert(comes_first(keys, p[i], p[n - 1]));
            }
        }
        n
    } else {
        lemma_insertion_point(keys, p, v, n - 1)
    }
}

/// Every list of keys has its stable order.
pub proof fn sorted_exists(keys: Seq<i128>)
    requires
        keys.len() <= usize::MAX,
    ensures
        stable_order_of(keys, sorted(keys)),
{
    let n = keys.len() as int;
    lemma_order_exists(keys, n);
    let p = choose|p: Seq<usize>| orders_range(keys, p, 0, n);
    assert(stable_order_of(keys, p));
}

} // verus!
