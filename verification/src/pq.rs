//! Product quantisation: a vector is cut into subvectors, and each is coded
//! by the nearest centre of its own codebook.

use crate::kmeans;
use crate::kmeans::nearest;
use crate::state::copy_vector;
use vstd::prelude::*;

verus! {

/// Why quantisation parameters are refused.
#[derive(Debug, PartialEq, Eq)]
pub enum PqError {
    /// The number of subspaces has to divide the dimension.
    MDoesNotDivideDim { m: usize, dim: usize, suggested: Vec<usize> },
    /// A subcode has to fit one byte, and there has to be one.
    KsubOutOfRange(usize),
}

/// Quantisation parameters.
#[derive(Clone, Copy, Debug, PartialEq, Eq)]
pub struct PqParams {
    pub m: usize,
    pub ksub: usize,
    pub kmeans_iters: usize,
    pub seed: u64,
}

impl Default for PqParams {
    fn default() -> (r: Self)
        ensures
            r == (PqParams { m: 48, ksub: 256, kmeans_iters: 20, seed: 0 }),
    {
        PqParams { m: 48, ksub: 256, kmeans_iters: 20, seed: 0 }
    }
}

/// Whether a number of subspaces divides the dimension. Zero divides zero
/// alone.
pub open spec fn divides(m: int, dim: int) -> bool {
    if m == 0 { dim == 0 } else { dim % m == 0 }
}

/// Whether `r` lists the divisors of `dim` from two on, ascending.
pub open spec fn lists_divisors(r: Seq<usize>, dim: usize) -> bool {
    &&& forall|i: int, j: int| 0 <= i < j < r.len() ==> r[i] < r[j]
    &&& forall|d: usize| #[trigger] r.contains(d) <==> 2 <= d <= dim && dim as int % d as int == 0
}

/// The divisors of `dim` from two on, ascending: what to suggest in place of
/// a number that does not divide it.
pub fn divisors(dim: usize) -> (r: Vec<usize>)
    ensures
        lists_divisors(r@, dim),
{
    let mut out: Vec<usize> = Vec::new();
    if dim < 2 {
        return out;
    }
    let mut d: usize = 2;
    loop
        invariant
            2 <= d <= dim,
            forall|i: int, j: int| 0 <= i < j < out@.len() ==> out@[i] < out@[j],
            forall|i: int| 0 <= i < out@.len() ==> #[trigger] out@[i] < d,
            forall|x: usize| #[trigger] out@.contains(x) <==> 2 <= x < d && dim as int % x as int == 0,
        decreases dim - d,
    {
        let ghost was = out@;
        if dim % d == 0 {
            out.push(d);
        }
        proof {
            assert forall|x: usize| #[trigger] out@.contains(x) <==> 2 <= x <= d && dim as int % x as int == 0 by {
                if was.contains(x) {
                    let i = choose|i: int| 0 <= i < was.len() && was[i] == x;
                    assert(out@[i] == x);
                }
                if out@.contains(x) {
                    let i = choose|i: int| 0 <= i < out@.len() && out@[i] == x;
                    if i < was.len() {
                        assert(was[i] == x);
                    }
                }
                if x == d && dim as int % x as int == 0 {
                    assert(out@[was.len() as int] == x);
                }
            }
        }
        if d == dim {
            return out;
        }
        d += 1;
    }
}

/// How the parameters fit a dimension: the length of a subvector, or why they
/// are refused. The number of subspaces is looked at first.
pub open spec fn checks(dim: usize, params: PqParams, r: Result<usize, PqError>) -> bool {
    if !divides(params.m as int, dim as int) {
        r matches Err(PqError::MDoesNotDivideDim { m, dim: d, suggested }) && m == params.m && d == dim && lists_divisors(suggested@, dim)
    } else if params.ksub == 0 || params.ksub > 256 {
        r == Err::<usize, PqError>(PqError::KsubOutOfRange(params.ksub))
    } else {
        r matches Ok(dsub) && dsub * params.m == dim
    }
}

/// The length of a subvector, where the parameters fit the dimension.
pub fn check_params(dim: usize, params: &PqParams) -> (r: Result<usize, PqError>)
    requires
        !(params.m == 0 && dim == 0),
    ensures
        checks(dim, *params, r),
{
    if params.m == 0 || dim % params.m != 0 {
        return Err(PqError::MDoesNotDivideDim { m: params.m, dim, suggested: divisors(dim) });
    }
    if params.ksub == 0 || params.ksub > 256 {
        return Err(PqError::KsubOutOfRange(params.ksub));
    }
    proof {
        vstd::arithmetic::div_mod::lemma_fundamental_div_mod(dim as int, params.m as int);
        vstd::arithmetic::mul::lemma_mul_is_commutative(params.m as int, dim as int / params.m as int);
    }
    Ok(dim / params.m)
}

/// The seed of a subspace's own clustering, another one for each.
pub fn subspace_seed(seed: u64, subspace: usize) -> (r: u64)
    ensures
        r as int == (seed + subspace) % 0x1_0000_0000_0000_0000,
{
    seed.wrapping_add(subspace as u64)
}

/// Subvector `i` of a vector.
pub open spec fn subvector(v: Seq<u32>, dsub: nat, i: int) -> Seq<u32> {
    v.subrange(i * dsub, i * dsub + dsub)
}

/// The subvectors of a vector.
pub open spec fn cut(v: Seq<u32>, dsub: nat, m: nat) -> Seq<Seq<u32>> {
    Seq::new(m, |i: int| subvector(v, dsub, i))
}

/// Views of vectors.
pub open spec fn vector_views(s: Seq<Vec<u32>>) -> Seq<Seq<u32>> {
    Seq::new(s.len(), |i: int| s[i]@)
}

/// The first `n` of these one after the other.
pub open spec fn joined(s: Seq<Seq<u32>>, n: nat) -> Seq<u32>
    decreases n,
{
    if n == 0 { Seq::empty() } else { joined(s, (n - 1) as nat) + s[n - 1] }
}

/// Cuts a vector into `m` subvectors.
pub fn split(v: &Vec<u32>, m: usize, dsub: usize) -> (r: Vec<Vec<u32>>)
    requires
        m * dsub == v@.len(),
    ensures
        vector_views(r@) == cut(v@, dsub as nat, m as nat),
{
    let len: usize = v.len();
    let mut out: Vec<Vec<u32>> = Vec::new();
    let mut start: usize = 0;
    while out.len() < m
        invariant
            len == v@.len(),
            out@.len() <= m,
            m * dsub == v@.len(),
            start == out@.len() * dsub,
            forall|i: int| 0 <= i < out@.len() ==> (#[trigger] out@[i])@ == subvector(v@, dsub as nat, i),
        decreases m - out@.len(),
    {
        let ghost n = out@.len() as int;
        assert(n * dsub + dsub <= m * dsub && (n + 1) * dsub == n * dsub + dsub) by (nonlinear_arith)
            requires
                n + 1 <= m,
                dsub >= 0,
        ;
        let mut sub: Vec<u32> = Vec::new();
        while sub.len() < dsub
            invariant
                len == v@.len(),
                start + dsub <= len,
                start == n * dsub,
                sub@.len() <= dsub,
                forall|j: int| 0 <= j < sub@.len() ==> #[trigger] sub@[j] == v@[start + j],
            decreases dsub - sub@.len(),
        {
            sub.push(v[start + sub.len()]);
        }
        assert(sub@ =~= subvector(v@, dsub as nat, n));
        out.push(sub);
        start = start + dsub;
    }
    assert(vector_views(out@) =~= cut(v@, dsub as nat, m as nat));
    out
}

/// The trained codebooks: of each subspace, its centres.
#[derive(Debug)]
pub struct PqCodebook {
    pub m: usize,
    pub dsub: usize,
    pub ksub: usize,
    pub codebooks: Vec<Vec<Vec<u32>>>,
}

/// Whether a code has a centre in every subspace.
pub open spec fn codes(book: PqCodebook, code: Seq<u8>) -> bool {
    &&& code.len() == book.m
    &&& forall|i: int| 0 <= i < code.len() ==> (#[trigger] code[i]) < book.codebooks@[i]@.len()
}

/// The centres that a code picks.
pub open spec fn picked(book: PqCodebook, code: Seq<u8>) -> Seq<Seq<u32>> {
    Seq::new(code.len(), |i: int| book.codebooks@[i]@[code[i] as int]@)
}

impl PqCodebook {
    /// Whether every subspace has its codebook, of at most `ksub` centres,
    /// and every centre is as long as a subvector.
    pub open spec fn wf(self) -> bool {
        &&& self.codebooks@.len() == self.m
        &&& 1 <= self.ksub <= 256
        &&& forall|i: int| 0 <= i < self.m ==> (#[trigger] self.codebooks@[i])@.len() <= self.ksub
        &&& forall|i: int, j: int| 0 <= i < self.m && 0 <= j < self.codebooks@[i]@.len() ==> (#[trigger] self.codebooks@[i]@[j])@.len() == self.dsub
    }

    /// The codebooks, given each subspace's clustering, where the parameters
    /// fit the dimension.
    pub fn train(codebooks: Vec<Vec<Vec<u32>>>, dim: usize, params: &PqParams) -> (r: Result<Self, PqError>)
        requires
            !(params.m == 0 && dim == 0),
        ensures
            match r {
                Ok(book) => checks(dim, *params, Ok(book.dsub)) && book.m == params.m && book.ksub == params.ksub && book.codebooks == codebooks,
                Err(e) => checks(dim, *params, Err(e)),
            },
    {
        match check_params(dim, params) {
            Ok(dsub) => Ok(PqCodebook { m: params.m, dsub, ksub: params.ksub, codebooks }),
            Err(e) => Err(e),
        }
    }

    /// How many subspaces there are.
    pub fn m(&self) -> (r: usize)
        ensures
            r == self.m,
    {
        self.m
    }

    /// How many centres a codebook was to have. It has fewer where there
    /// were fewer vectors to train on.
    pub fn ksub(&self) -> (r: usize)
        ensures
            r == self.ksub,
    {
        self.ksub
    }

    /// The code of a vector: in each subspace its nearest centre, given the
    /// distances of each subvector to the centres of its codebook.
    pub fn encode(&self, distances: &Vec<Vec<u32>>) -> (r: Vec<u8>)
        requires
            self.wf(),
            distances@.len() == self.m,
            forall|i: int| 0 <= i < self.m ==> (#[trigger] distances@[i])@.len() == self.codebooks@[i]@.len() && distances@[i]@.len() > 0,
        ensures
            codes(*self, r@),
            forall|i: int| 0 <= i < self.m ==> kmeans::is_nearest(distances@[i]@, #[trigger] r@[i] as int),
    {
        let mut out: Vec<u8> = Vec::new();
        while out.len() < self.m
            invariant
                out@.len() <= self.m,
                self.wf(),
                distances@.len() == self.m,
                forall|i: int| 0 <= i < self.m ==> (#[trigger] distances@[i])@.len() == self.codebooks@[i]@.len() && distances@[i]@.len() > 0,
                forall|i: int| 0 <= i < out@.len() ==> kmeans::is_nearest(distances@[i]@, #[trigger] out@[i] as int),
            decreases self.m - out@.len(),
        {
            let i: usize = out.len();
            assert(distances@[i as int]@.len() == self.codebooks@[i as int]@.len());
            let at = nearest(&distances[i]);
            out.push(at as u8);
        }
        assert forall|i: int| 0 <= i < out@.len() implies (#[trigger] out@[i]) < self.codebooks@[i]@.len() by {
            assert(kmeans::is_nearest(distances@[i]@, out@[i] as int));
            assert(distances@[i]@.len() == self.codebooks@[i]@.len());
        }
        out
    }

    /// The approximation that a code stands for: the picked centres, one
    /// after the other.
    pub fn decode(&self, code: &Vec<u8>) -> (r: Vec<u32>)
        requires
            self.wf(),
            codes(*self, code@),
        ensures
            r@ == joined(picked(*self, code@), code@.len()),
    {
        let mut out: Vec<u32> = Vec::new();
        let mut i: usize = 0;
        while i < code.len()
            invariant
                i <= code@.len(),
                self.wf(),
                codes(*self, code@),
                out@ == joined(picked(*self, code@), i as nat),
            decreases code@.len() - i,
        {
            assert(code@[i as int] < self.codebooks@[i as int]@.len());
            let mut centre = copy_vector(&self.codebooks[i][code[i] as usize]);
            out.append(&mut centre);
            i += 1;
        }
        out
    }
}

proof fn lemma_cut(v: Seq<u32>, dsub: nat, m: nat, n: nat)
    requires
        m * dsub == v.len(),
        n <= m,
    ensures
        n * dsub <= v.len(),
        joined(cut(v, dsub, m), n) == v.take((n * dsub) as int),
    decreases n,
{
    assert(n * dsub <= m * dsub) by (nonlinear_arith)
        requires
            n <= m,
            dsub >= 0,
    ;
    if n == 0 {
        assert(0 * dsub == 0) by (nonlinear_arith);
        assert(joined(cut(v, dsub, m), 0) =~= v.take(0));
    } else {
        lemma_cut(v, dsub, m, (n - 1) as nat);
        assert((n - 1) * dsub + dsub == n * dsub) by (nonlinear_arith);
        assert(joined(cut(v, dsub, m), n) =~= v.take((n * dsub) as int));
    }
}

/// The subvectors of a vector, put together again, are the vector.
pub proof fn cutting_loses_nothing(v: Seq<u32>, dsub: nat, m: nat)
    requires
        m * dsub == v.len(),
    ensures
        joined(cut(v, dsub, m), m) == v,
{
    lemma_cut(v, dsub, m, m);
    assert(v.take((m * dsub) as int) =~= v);
}

proof fn lemma_joined_len(s: Seq<Seq<u32>>, each: nat, n: nat)
    requires
        n <= s.len(),
        forall|i: int| 0 <= i < n ==> (#[trigger] s[i]).len() == each,
    ensures
        joined(s, n).len() == n * each,
    decreases n,
{
    if n > 0 {
        lemma_joined_len(s, each, (n - 1) as nat);
        assert((n - 1) * each + each == n * each) by (nonlinear_arith);
    } else {
        assert(0 * each == 0) by (nonlinear_arith);
    }
}

/// A code is one byte for each subspace, and what it stands for is as long as
/// the vectors are.
pub proof fn decoding_gives_the_dimension(book: PqCodebook, code: Seq<u8>)
    requires
        book.wf(),
        codes(book, code),
    ensures
        joined(picked(book, code), code.len()).len() == book.m * book.dsub,
{
    assert forall|i: int| 0 <= i < code.len() implies (#[trigger] picked(book, code)[i]).len() == book.dsub by {
        assert(code[i] < book.codebooks@[i]@.len());
        assert(book.codebooks@[i]@[code[i] as int]@.len() == book.dsub);
    }
    lemma_joined_len(picked(book, code), book.dsub as nat, code.len());
}

} // verus!
