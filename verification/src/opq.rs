//! The rotation that is learned together with the codebooks. The numbers are
//! computed outside; how they are laid out, and the rounds of training, are
//! decided here.

use crate::pq::PqParams;
use vstd::prelude::*;

verus! {

/// Parameters of the joint training.
#[derive(Clone, Copy, Debug, PartialEq, Eq)]
pub struct OpqParams {
    pub pq: PqParams,
    pub iterations: usize,
}

impl Default for OpqParams {
    fn default() -> (r: Self)
        ensures
            r == (OpqParams { pq: (PqParams { m: 48, ksub: 256, kmeans_iters: 20, seed: 0 }), iterations: 20 }),
    {
        OpqParams { pq: PqParams::default(), iterations: 20 }
    }
}

impl OpqParams {
    /// How many rounds are made: at least one.
    pub fn rounds(&self) -> (r: usize)
        ensures
            r == if self.iterations < 1 { 1 } else { self.iterations },
    {
        if self.iterations < 1 { 1 } else { self.iterations }
    }

    /// The codebook parameters of a round: each has its own seed.
    pub fn round_params(&self, round: usize) -> (r: PqParams)
        ensures
            r.m == self.pq.m,
            r.ksub == self.pq.ksub,
            r.kmeans_iters == self.pq.kmeans_iters,
            r.seed as int == (self.pq.seed + round) % 0x1_0000_0000_0000_0000,
    {
        PqParams { m: self.pq.m, ksub: self.pq.ksub, kmeans_iters: self.pq.kmeans_iters, seed: self.pq.seed.wrapping_add(round as u64) }
    }

    /// Whether the rotation is solved for once more after a round: after
    /// every one but the last, so that the codebooks that stay were trained
    /// under the rotation that stays.
    pub fn rotates_after(&self, round: usize) -> (r: bool)
        requires
            round < self.iterations || round == 0,
        ensures
            r == (round + 1 < (if self.iterations < 1 { 1 } else { self.iterations as int })),
    {
        if self.iterations < 1 { false } else { round < self.iterations - 1 }
    }
}

/// The bit pattern of the 32-bit float one.
pub const ONE_BITS: u32 = 0x3f80_0000;

/// A square matrix, its columns one after the other.
#[derive(Debug)]
pub struct OpqRotation {
    pub dim: usize,
    pub matrix_t: Vec<u32>,
}

/// Where the entry of a row and a column is laid out.
pub open spec fn entry_at(dim: int, row: int, column: int) -> int {
    column * dim + row
}

proof fn lemma_entry(dim: int, a: int, b: int)
    requires
        0 <= a < dim,
        0 <= b < dim,
    ensures
        0 <= a * dim + b < dim * dim,
        a * dim + dim == (a + 1) * dim,
{
    assert(0 <= a * dim + b < dim * dim && a * dim + dim == (a + 1) * dim) by (nonlinear_arith)
        requires
            0 <= a < dim,
            0 <= b < dim,
    ;
}

/// A matrix laid out row after row, turned so that its columns stand one
/// after the other.
fn turned(rows: &Vec<u32>, dim: usize) -> (r: Vec<u32>)
    requires
        rows@.len() == dim * dim,
    ensures
        r@.len() == dim * dim,
        forall|row: int, column: int| 0 <= row < dim && 0 <= column < dim ==> #[trigger] r@[entry_at(dim as int, row, column)] == rows@[entry_at(dim as int, column, row)],
{
    let len: usize = rows.len();
    let mut out: Vec<u32> = Vec::new();
    let mut column: usize = 0;
    assert(0 * dim == 0) by (nonlinear_arith);
    while column < dim
        invariant
            column <= dim,
            len == rows@.len(),
            rows@.len() == dim * dim,
            out@.len() == column * dim,
            forall|r: int, c: int| 0 <= r < dim && 0 <= c < column ==> #[trigger] out@[entry_at(dim as int, r, c)] == rows@[entry_at(dim as int, c, r)],
        decreases dim - column,
    {
        let mut row: usize = 0;
        while row < dim
            invariant
                row <= dim,
                column < dim,
                len == rows@.len(),
                rows@.len() == dim * dim,
                out@.len() == column * dim + row,
                forall|r: int, c: int| 0 <= r < dim && 0 <= c < column ==> #[trigger] out@[entry_at(dim as int, r, c)] == rows@[entry_at(dim as int, c, r)],
                forall|r: int| 0 <= r < row ==> #[trigger] out@[entry_at(dim as int, r, column as int)] == rows@[entry_at(dim as int, column as int, r)],
            decreases dim - row,
        {
            proof { lemma_entry(dim as int, row as int, column as int); }
            assert(0 <= row * dim <= row * dim + column < len) by (nonlinear_arith)
                requires
                    row * dim + column < dim * dim,
                    len == dim * dim,
                    row >= 0,
                    dim >= 0,
                    column >= 0,
            ;
            let ghost was = out@;
            out.push(rows[row * dim + column]);
            proof {
                assert forall|r: int, c: int| 0 <= r < dim && 0 <= c < column implies #[trigger] out@[entry_at(dim as int, r, c)] == rows@[entry_at(dim as int, c, r)] by {
                    assert(c * dim + r < column * dim) by (nonlinear_arith)
                        requires
                            c + 1 <= column,
                            r < dim,
                            c >= 0,
                    ;
                    assert(0 <= c * dim) by (nonlinear_arith)
                        requires
                            c >= 0,
                    ;
                    assert(out@[entry_at(dim as int, r, c)] == was[entry_at(dim as int, r, c)]);
                }
                assert forall|r: int| 0 <= r < row + 1 implies #[trigger] out@[entry_at(dim as int, r, column as int)] == rows@[entry_at(dim as int, column as int, r)] by {
                    assert(0 <= column * dim) by (nonlinear_arith);
                    if r < row {
                        assert(out@[entry_at(dim as int, r, column as int)] == was[entry_at(dim as int, r, column as int)]);
                    }
                }
            }
            row += 1;
        }
        proof {
            lemma_entry(dim as int, column as int, 0);
        }
        column += 1;
    }
    out
}

impl OpqRotation {
    /// The rotation that changes nothing.
    pub fn identity(dim: usize) -> (r: Self)
        requires
            dim * dim <= usize::MAX,
        ensures
            r.dim == dim,
            r.matrix_t@.len() == dim * dim,
            forall|row: int, column: int| 0 <= row < dim && 0 <= column < dim ==>
                #[trigger] r.matrix_t@[entry_at(dim as int, row, column)] == (if row == column { ONE_BITS } else { 0 }),
    {
        let mut out: Vec<u32> = Vec::new();
        let mut column: usize = 0;
        assert(0 * dim == 0) by (nonlinear_arith);
        while column < dim
            invariant
                column <= dim,
                out@.len() == column * dim,
                forall|r: int, c: int| 0 <= r < dim && 0 <= c < column ==> #[trigger] out@[entry_at(dim as int, r, c)] == (if r == c { ONE_BITS } else { 0 }),
            decreases dim - column,
        {
            let mut row: usize = 0;
            while row < dim
                invariant
                    row <= dim,
                    column < dim,
                    out@.len() == column * dim + row,
                    forall|r: int, c: int| 0 <= r < dim && 0 <= c < column ==> #[trigger] out@[entry_at(dim as int, r, c)] == (if r == c { ONE_BITS } else { 0 }),
                    forall|r: int| 0 <= r < row ==> #[trigger] out@[entry_at(dim as int, r, column as int)] == (if r == column { ONE_BITS } else { 0 }),
                decreases dim - row,
            {
                let ghost was = out@;
                out.push(if row == column { ONE_BITS } else { 0 });
                proof {
                    assert forall|r: int, c: int| 0 <= r < dim && 0 <= c < column implies #[trigger] out@[entry_at(dim as int, r, c)] == (if r == c { ONE_BITS } else { 0u32 }) by {
                        assert(c * dim + r < column * dim) by (nonlinear_arith)
                            requires
                                c + 1 <= column,
                                r < dim,
                                c >= 0,
                        ;
                        assert(0 <= c * dim) by (nonlinear_arith)
                            requires
                                c >= 0,
                        ;
                        assert(out@[entry_at(dim as int, r, c)] == was[entry_at(dim as int, r, c)]);
                    }
                    assert forall|r: int| 0 <= r < row + 1 implies #[trigger] out@[entry_at(dim as int, r, column as int)] == (if r == column { ONE_BITS } else { 0u32 }) by {
                        assert(0 <= column * dim) by (nonlinear_arith);
                        if r < row {
                            assert(out@[entry_at(dim as int, r, column as int)] == was[entry_at(dim as int, r, column as int)]);
                        }
                    }
                }
                row += 1;
            }
            proof { lemma_entry(dim as int, column as int, 0); }
            column += 1;
        }
        OpqRotation { dim, matrix_t: out }
    }

    /// The rotation with these entries, given row after row.
    pub fn from_rows(rows: &Vec<u32>, dim: usize) -> (r: Self)
        requires
            rows@.len() == dim * dim,
        ensures
            r.dim == dim,
            r.matrix_t@.len() == dim * dim,
            forall|row: int, column: int| 0 <= row < dim && 0 <= column < dim ==>
                #[trigger] r.matrix_t@[entry_at(dim as int, row, column)] == rows@[row * dim + column],
    {
        let matrix_t = turned(rows, dim);
        OpqRotation { dim, matrix_t }
    }
}

} // verus!
