//! Inverted indexes: from a value to the rows that hold it.

use crate::bitmap;
use crate::bitmap::{bitmap_insert, bitmap_is_empty, bitmap_new, bitmap_remove, bitmap_clone, bitmap_union};
use roaring::RoaringBitmap;
use std::collections::BTreeMap;
use vstd::prelude::*;

verus! {

/// Whether values of `K` are ordered as an ordered map needs.
pub open spec fn ordered_key<K: Ord>() -> bool {
    vstd::laws_cmp::obeys_cmp::<K>()
}

/// One end of a range of values.
#[derive(Clone, Copy, PartialEq, Eq, Debug, Structural)]
pub enum RangeEnd<K> {
    /// The value itself is in the range.
    Included(K),
    /// The range stops short of the value.
    Excluded(K),
    /// The range has no end on this side.
    Unbounded,
}

/// Rows by value. A value that no row holds has no bitmap.
pub struct Postings<K> {
    map: BTreeMap<K, RoaringBitmap>,
}

impl<K> Postings<K> {
    /// The rows that hold `k`.
    pub closed spec fn at(self, k: K) -> Set<u32> {
        if self.map@.contains_key(k) {
            bitmap::rows_of(self.map@[k])
        } else {
            Set::empty()
        }
    }
}

impl<K: Ord + Copy> Postings<K> {
    /// An index without rows.
    pub fn new() -> (r: Self)
        ensures
            forall|k: K| #[trigger] r.at(k) == Set::<u32>::empty(),
    {
        Postings { map: BTreeMap::new() }
    }

    /// Notes that `row` holds `k`.
    pub fn add_row(&mut self, k: K, row: u32)
        requires
            ordered_key::<K>(),
        ensures
            forall|q: K| #[trigger] final(self).at(q) == (if q == k { old(self).at(q).insert(row) } else { old(self).at(q) }),
    {
        let mut rows = match self.map.remove(&k) {
            Some(b) => b,
            None => bitmap_new(),
        };
        bitmap_insert(&mut rows, row);
        self.map.insert(k, rows);
    }

    /// Notes that `row` no longer holds `k`.
    pub fn remove_row(&mut self, k: K, row: u32)
        requires
            ordered_key::<K>(),
        ensures
            forall|q: K| #[trigger] final(self).at(q) == (if q == k { old(self).at(q).remove(row) } else { old(self).at(q) }),
    {
        match self.map.remove(&k) {
            Some(b) => {
                let mut rows = b;
                bitmap_remove(&mut rows, row);
                if !bitmap_is_empty(&rows) {
                    self.map.insert(k, rows);
                }
            },
            None => {
                assert(old(self).at(k).remove(row) =~= old(self).at(k));
            },
        }
    }

    /// The rows that hold `k`.
    pub fn rows_at(&self, k: K) -> (r: RoaringBitmap)
        requires
            ordered_key::<K>(),
        ensures
            bitmap::rows_of(r) == self.at(k),
    {
        match self.map.get(&k) {
            Some(b) => bitmap_clone(b),
            None => bitmap_new(),
        }
    }
}

/// Whether `v` lies between the two ends.
pub open spec fn in_range_i64(v: i64, lo: RangeEnd<i64>, hi: RangeEnd<i64>) -> bool {
    &&& match lo {
        RangeEnd::Included(a) => a <= v,
        RangeEnd::Excluded(a) => a < v,
        RangeEnd::Unbounded => true,
    }
    &&& match hi {
        RangeEnd::Included(b) => v <= b,
        RangeEnd::Excluded(b) => v < b,
        RangeEnd::Unbounded => true,
    }
}

/// Whether `v` lies between the two ends.
pub open spec fn in_range_u64(v: u64, lo: RangeEnd<u64>, hi: RangeEnd<u64>) -> bool {
    &&& match lo {
        RangeEnd::Included(a) => a <= v,
        RangeEnd::Excluded(a) => a < v,
        RangeEnd::Unbounded => true,
    }
    &&& match hi {
        RangeEnd::Included(b) => v <= b,
        RangeEnd::Excluded(b) => v < b,
        RangeEnd::Unbounded => true,
    }
}

fn within_i64(v: i64, lo: RangeEnd<i64>, hi: RangeEnd<i64>) -> (r: bool)
    ensures
        r == in_range_i64(v, lo, hi),
{
    let above = match lo {
        RangeEnd::Included(a) => a <= v,
        RangeEnd::Excluded(a) => a < v,
        RangeEnd::Unbounded => true,
    };
    let below = match hi {
        RangeEnd::Included(b) => v <= b,
        RangeEnd::Excluded(b) => v < b,
        RangeEnd::Unbounded => true,
    };
    above && below
}

fn within_u64(v: u64, lo: RangeEnd<u64>, hi: RangeEnd<u64>) -> (r: bool)
    ensures
        r == in_range_u64(v, lo, hi),
{
    let above = match lo {
        RangeEnd::Included(a) => a <= v,
        RangeEnd::Excluded(a) => a < v,
        RangeEnd::Unbounded => true,
    };
    let below = match hi {
        RangeEnd::Included(b) => v <= b,
        RangeEnd::Excluded(b) => v < b,
        RangeEnd::Unbounded => true,
    };
    above && below
}

impl Postings<i64> {
    /// The rows that hold a value within the ends.
    pub fn rows_in_range(&self, lo: RangeEnd<i64>, hi: RangeEnd<i64>) -> (r: RoaringBitmap)
        ensures
            forall|row: u32| #[trigger] bitmap::rows_of(r).contains(row) <==> exists|v: i64|
                in_range_i64(v, lo, hi) && #[trigger] self.at(v).contains(row),
    {
        let mut acc = bitmap_new();
        let ghost s = vstd::std_specs::iter::IteratorSpec::remaining(&self.map.iter());
        for (k, rows) in it: self.map.iter()
            invariant
                it.seq() == s,
                forall|row: u32| #[trigger] bitmap::rows_of(acc).contains(row) <==> exists|j: int|
                    0 <= j < it.index() && in_range_i64(*(#[trigger] s[j]).0, lo, hi)
                        && bitmap::rows_of(*s[j].1).contains(row),
        {
            if within_i64(*k, lo, hi) {
                bitmap_union(&mut acc, rows);
            }
        }
        proof {
            assert forall|row: u32| #[trigger] bitmap::rows_of(acc).contains(row) <==> exists|v: i64|
                in_range_i64(v, lo, hi) && #[trigger] self.at(v).contains(row) by {
                if bitmap::rows_of(acc).contains(row) {
                    let j = choose|j: int| 0 <= j < s.len() && in_range_i64(*(#[trigger] s[j]).0, lo, hi)
                        && bitmap::rows_of(*s[j].1).contains(row);
                    assert(self.map@.contains_key(*s[j].0));
                    assert(self.at(*s[j].0).contains(row));
                }
                if exists|v: i64| in_range_i64(v, lo, hi) && #[trigger] self.at(v).contains(row) {
                    let v = choose|v: i64| in_range_i64(v, lo, hi) && #[trigger] self.at(v).contains(row);
                    assert(self.map@.contains_key(v));
                    assert(s.contains((&v, &self.map@[v])));
                    let j = choose|j: int| 0 <= j < s.len() && s[j] == (&v, &self.map@[v]);
                    assert(*s[j].0 == v);
                }
            }
        }
        acc
    }
}

impl Postings<u64> {
    /// The rows that hold a value within the ends.
    pub fn rows_in_range(&self, lo: RangeEnd<u64>, hi: RangeEnd<u64>) -> (r: RoaringBitmap)
        ensures
            forall|row: u32| #[trigger] bitmap::rows_of(r).contains(row) <==> exists|v: u64|
                in_range_u64(v, lo, hi) && #[trigger] self.at(v).contains(row),
    {
        let mut acc = bitmap_new();
        let ghost s = vstd::std_specs::iter::IteratorSpec::remaining(&self.map.iter());
        for (k, rows) in it: self.map.iter()
            invariant
                it.seq() == s,
                forall|row: u32| #[trigger] bitmap::rows_of(acc).contains(row) <==> exists|j: int|
                    0 <= j < it.index() && in_range_u64(*(#[trigger] s[j]).0, lo, hi)
                        && bitmap::rows_of(*s[j].1).contains(row),
        {
            if within_u64(*k, lo, hi) {
                bitmap_union(&mut acc, rows);
            }
        }
        proof {
            assert forall|row: u32| #[trigger] bitmap::rows_of(acc).contains(row) <==> exists|v: u64|
                in_range_u64(v, lo, hi) && #[trigger] self.at(v).contains(row) by {
                if bitmap::rows_of(acc).contains(row) {
                    let j = choose|j: int| 0 <= j < s.len() && in_range_u64(*(#[trigger] s[j]).0, lo, hi)
                        && bitmap::rows_of(*s[j].1).contains(row);
                    assert(self.map@.contains_key(*s[j].0));
                    assert(self.at(*s[j].0).contains(row));
                }
                if exists|v: u64| in_range_u64(v, lo, hi) && #[trigger] self.at(v).contains(row) {
                    let v = choose|v: u64| in_range_u64(v, lo, hi) && #[trigger] self.at(v).contains(row);
                    assert(self.map@.contains_key(v));
                    assert(s.contains((&v, &self.map@[v])));
                    let j = choose|j: int| 0 <= j < s.len() && s[j] == (&v, &self.map@[v]);
                    assert(*s[j].0 == v);
                }
            }
        }
        acc
    }
}

} // verus!
