//! Search parameters.

use vstd::prelude::*;

verus! {

/// Search-time knobs. Not every index uses every one.
#[derive(Clone, Debug)]
pub struct SearchParams {
    /// How many chunks of one document may be among the results.
    pub max_chunks_per_doc: Option<u32>,
    /// How many leaf clusters are scanned.
    pub nprobe: usize,
    /// How many parent clusters are expanded, in a two-level quantiser.
    pub beam_width: usize,
    /// How many shortlisted candidates are reranked exactly: a default that
    /// grows with the number of results if absent, none at all if zero.
    pub rerank_k: Option<usize>,
    /// The mask size up to which a filtered search scans just the mask.
    pub filter_exact_threshold: usize,
    /// The share of live rows from which a filter counts as wide, as the bit
    /// pattern of a 64-bit float.
    pub filter_selectivity_high: u64,
    /// How many clusters a filtered search probes at most: four times as
    /// many as `nprobe` if absent.
    pub filter_nprobe_max: Option<usize>,
}

/// The bit pattern of the 64-bit float nearest to 0.6.
pub const SELECTIVITY_HIGH_BITS: u64 = 0x3fe3_3333_3333_3333;

/// The defaults.
pub open spec fn default_params() -> SearchParams {
    SearchParams {
        max_chunks_per_doc: Some(3),
        nprobe: 8,
        beam_width: 8,
        rerank_k: None,
        filter_exact_threshold: 20_000,
        filter_selectivity_high: SELECTIVITY_HIGH_BITS,
        filter_nprobe_max: None,
    }
}

impl Default for SearchParams {
    fn default() -> (r: Self)
        ensures
            r == default_params(),
    {
        SearchParams {
            max_chunks_per_doc: Some(3),
            nprobe: 8,
            beam_width: 8,
            rerank_k: None,
            filter_exact_threshold: 20_000,
            filter_selectivity_high: SELECTIVITY_HIGH_BITS,
            filter_nprobe_max: None,
        }
    }
}

} // verus!
