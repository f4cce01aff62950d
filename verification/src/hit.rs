//! Search results.

use crate::error::StorageError;
use crate::ids::{DocId, RowId};
use crate::lsh::LshError;
use crate::model::DistanceMetric;
use crate::pq::PqError;
use vstd::prelude::*;

verus! {

/// One search result. The score is always higher-is-better, whatever the
/// metric; it is held as the bit pattern of a 32-bit float. `exact` tells a
/// score computed from the stored vector from an approximation.
#[derive(Clone, Copy, Debug, PartialEq)]
pub struct SearchHit {
    pub id: RowId,
    pub doc_id: Option<DocId>,
    pub chunk_ord: Option<u32>,
    pub score: u32,
    pub metric: DistanceMetric,
    pub exact: bool,
}

/// The outcome of a search. `truncated_by_filter` tells "there are not that
/// many matching rows" from "the probing budget ran out first".
#[derive(Debug, PartialEq)]
pub struct SearchResult {
    pub hits: Vec<SearchHit>,
    pub truncated_by_filter: bool,
}

/// Why an index call failed.
#[derive(Debug, PartialEq)]
pub enum IndexError {
    DimMismatch { expected: usize, got: usize },
    Storage(StorageError),
    Pq(PqError),
    Lsh(LshError),
}

/// Results that fail with an [`IndexError`].
pub type IndexResult<T> = Result<T, IndexError>;

/// Where a float stands among the floats, given its bit pattern. Both zeros
/// stand at the same place.
pub open spec fn float_rank(bits: u32) -> int {
    if bits < 0x8000_0000 { bits as int } else { 0x8000_0000 - bits }
}

/// Where a float stands among the floats.
pub fn rank_of(bits: u32) -> (r: i128)
    ensures
        r == float_rank(bits),
{
    if bits < 0x8000_0000 { bits as i128 } else { 0x8000_0000i128 - bits as i128 }
}

/// Ranks order floats as numbers do. Among those without a sign a larger
/// pattern is a larger number; among those with one, a larger pattern is a
/// smaller number; one with a sign is below one without, but for the zeros,
/// which are equal.
pub proof fn ranks_order_floats(a: u32, b: u32)
    ensures
        a < 0x8000_0000 && b < 0x8000_0000 ==> (float_rank(a) < float_rank(b) <==> a < b),
        a >= 0x8000_0000 && b >= 0x8000_0000 ==> (float_rank(a) < float_rank(b) <==> b < a),
        a >= 0x8000_0000 && b < 0x8000_0000 && (a != 0x8000_0000 || b != 0) ==> float_rank(a) < float_rank(b),
        float_rank(a) == float_rank(b) <==> a == b || ((a == 0 || a == 0x8000_0000) && (b == 0 || b == 0x8000_0000)),
{
}

} // verus!
