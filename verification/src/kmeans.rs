//! The rounds of a k-means clustering. Distances and means are computed
//! outside; what is assigned where, and when the rounds end, is decided here.

use crate::coarse;
use crate::hit;
use crate::hit::rank_of;
use vstd::prelude::*;

verus! {

/// How many clusters a clustering of `points` points makes: as many as asked
/// for, at least one, and no more than there are points.
pub fn cluster_count(k: usize, points: usize) -> (r: usize)
    requires
        points > 0,
    ensures
        r == coarse::clamped(k as nat, 1, points as nat),
{
    if k < 1 { 1 } else if k > points { points } else { k }
}

/// Whether `i` is the first of the smallest distances.
pub open spec fn is_nearest(distances: Seq<u32>, i: int) -> bool {
    &&& 0 <= i < distances.len()
    &&& forall|j: int| 0 <= j < i ==> hit::float_rank(distances[i]) < hit::float_rank(#[trigger] distances[j])
    &&& forall|j: int| i <= j < distances.len() ==> hit::float_rank(distances[i]) <= hit::float_rank(#[trigger] distances[j])
}

/// The nearest centre, the first one where several are equally near.
pub fn nearest(distances: &Vec<u32>) -> (r: usize)
    requires
        distances@.len() > 0,
    ensures
        is_nearest(distances@, r as int),
{
    let mut best: usize = 0;
    let mut i: usize = 1;
    while i < distances.len()
        invariant
            best < i <= distances@.len(),
            forall|j: int| 0 <= j < best ==> hit::float_rank(distances@[best as int]) < hit::float_rank(#[trigger] distances@[j]),
            forall|j: int| best <= j < i ==> hit::float_rank(distances@[best as int]) <= hit::float_rank(#[trigger] distances@[j]),
        decreases distances@.len() - i,
    {
        if rank_of(distances[i]) < rank_of(distances[best]) {
            best = i;
        }
        i += 1;
    }
    best
}

/// Whether every point is assigned to its nearest centre.
pub open spec fn assigned(distances: Seq<Vec<u32>>, assignments: Seq<usize>) -> bool {
    &&& assignments.len() == distances.len()
    &&& forall|i: int| 0 <= i < assignments.len() ==> is_nearest(distances[i]@, #[trigger] assignments[i] as int)
}

/// Assigns each point to its nearest centre.
pub fn assign(distances: &Vec<Vec<u32>>) -> (r: Vec<usize>)
    requires
        forall|i: int| 0 <= i < distances@.len() ==> (#[trigger] distances@[i])@.len() > 0,
    ensures
        assigned(distances@, r@),
{
    let mut out: Vec<usize> = Vec::new();
    while out.len() < distances.len()
        invariant
            out@.len() <= distances@.len(),
            forall|i: int| 0 <= i < distances@.len() ==> (#[trigger] distances@[i])@.len() > 0,
            forall|i: int| 0 <= i < out@.len() ==> is_nearest(distances@[i]@, #[trigger] out@[i] as int),
        decreases distances@.len() - out@.len(),
    {
        let i: usize = out.len();
        out.push(nearest(&distances[i]));
    }
    out
}

/// A clustering under way: the last round's assignments, none before the
/// first round, and how many rounds are left.
pub struct Rounds {
    pub assignments: Option<Vec<usize>>,
    pub left: usize,
}

/// The contents of a [`Rounds`].
pub struct RoundsView {
    pub assignments: Option<Seq<usize>>,
    pub left: nat,
}

impl View for Rounds {
    type V = RoundsView;

    open spec fn view(&self) -> RoundsView {
        RoundsView {
            assignments: match self.assignments {
                Some(a) => Some(a@),
                None => None,
            },
            left: self.left as nat,
        }
    }
}

fn same_assignments(a: &Vec<usize>, b: &Vec<usize>) -> (r: bool)
    ensures
        r == (a@ == b@),
{
    if a.len() != b.len() {
        return false;
    }
    let mut i: usize = 0;
    while i < a.len()
        invariant
            i <= a@.len(),
            a@.len() == b@.len(),
            forall|j: int| 0 <= j < i ==> #[trigger] a@[j] == b@[j],
        decreases a@.len() - i,
    {
        if a[i] != b[i] {
            return false;
        }
        i += 1;
    }
    assert(a@ =~= b@);
    true
}

impl Rounds {
    /// Before the first round. At least one round is always made.
    pub fn new(iters: usize) -> (r: Self)
        ensures
            r@ == (RoundsView { assignments: None, left: if iters < 1 { 1 } else { iters as nat } }),
    {
        Rounds { assignments: None, left: if iters < 1 { 1 } else { iters } }
    }

    /// Takes a round's assignments. Returns whether the centres move: they do
    /// not once a round assigns every point as the one before it did, and
    /// then no further round is made.
    pub fn step(&mut self, assignments: Vec<usize>) -> (r: bool)
        requires
            old(self)@.left > 0,
        ensures
            r == (old(self)@.assignments != Some(assignments@)),
            final(self)@ == (RoundsView { assignments: Some(assignments@), left: if r { (old(self)@.left - 1) as nat } else { 0 } }),
    {
        let converged = match &self.assignments {
            Some(before) => same_assignments(before, &assignments),
            None => false,
        };
        self.assignments = Some(assignments);
        if converged {
            self.left = 0;
        } else {
            self.left = self.left - 1;
        }
        !converged
    }
}

/// Whether the next centre is drawn by weight: that takes a weight above
/// zero. Where every point coincides with a centre, it is drawn evenly.
pub fn draws_by_weight(weights: &Vec<u32>) -> (r: bool)
    ensures
        r == exists|i: int| 0 <= i < weights@.len() && hit::float_rank(#[trigger] weights@[i]) > 0,
{
    let mut i: usize = 0;
    while i < weights.len()
        invariant
            i <= weights@.len(),
            forall|j: int| 0 <= j < i ==> hit::float_rank(#[trigger] weights@[j]) <= 0,
        decreases weights@.len() - i,
    {
        if rank_of(weights[i]) > 0 {
            assert(hit::float_rank(weights@[i as int]) > 0);
            return true;
        }
        i += 1;
    }
    false
}

} // verus!
