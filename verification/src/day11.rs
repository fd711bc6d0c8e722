//! The expanding-universe puzzle: after empty rows and columns are
//! expanded, the answer is the sum of taxicab distances over all pairs of
//! galaxies.

use vstd::prelude::*;

verus! {

/// The taxicab distance between two galaxies.
pub open spec fn dist(a: (u64, u64), b: (u64, u64)) -> int {
    (if a.0 >= b.0 {
        a.0 - b.0
    } else {
        b.0 - a.0
    }) + (if a.1 >= b.1 {
        a.1 - b.1
    } else {
        b.1 - a.1
    })
}

/// The distances from galaxy `i` to the galaxies from `j` on; the pair
/// of a galaxy with itself contributes 0.
pub open spec fn dist_row_from(s: Seq<(u64, u64)>, i: int, j: int) -> int
    decreases s.len() - j when j <= s.len()
{
    if j < 0 || j >= s.len() {
        0
    } else {
        dist(s[i], s[j]) + dist_row_from(s, i, j + 1)
    }
}

/// The sum of pairwise distances of the galaxies from `i` on.
pub open spec fn dist_total_from(s: Seq<(u64, u64)>, i: int) -> int
    decreases s.len() - i when i <= s.len()
{
    if i < 0 || i >= s.len() {
        0
    } else {
        dist_row_from(s, i, i) + dist_total_from(s, i + 1)
    }
}

proof fn lemma_dist_row_nonneg(s: Seq<(u64, u64)>, i: int, j: int)
    requires
        0 <= j <= s.len(),
    ensures
        dist_row_from(s, i, j) >= 0,
    decreases s.len() - j,
{
    if j < s.len() {
        lemma_dist_row_nonneg(s, i, j + 1);
    }
}

proof fn lemma_dist_total_nonneg(s: Seq<(u64, u64)>, i: int)
    requires
        0 <= i <= s.len(),
    ensures
        dist_total_from(s, i) >= 0,
    decreases s.len() - i,
{
    if i < s.len() {
        lemma_dist_row_nonneg(s, i, i);
        lemma_dist_total_nonneg(s, i + 1);
    }
}

/// The sky: the expanded coordinates of every galaxy.
#[derive(Debug)]
pub struct Sky {
    pub galaxies: Vec<(u64, u64)>,
}

impl Sky {
    /// The sum of taxicab distances over all galaxy pairs.
    #[verifier::loop_isolation(false)]
    pub fn get_distances(&self) -> (r: u64)
        requires
            dist_total_from(self.galaxies@, 0) <= u64::MAX,
        ensures
            r == dist_total_from(self.galaxies@, 0),
    {
        let s = &self.galaxies;
        let n = s.len();
        let mut acc: u64 = 0;
        let mut i: usize = 0;
        while i < n
            invariant
                0 <= i <= n,
                acc + dist_total_from(s@, i as int) == dist_total_from(s@, 0),
                acc >= 0,
            decreases n - i,
        {
            proof {
                lemma_dist_total_nonneg(s@, i + 1);
                lemma_dist_row_nonneg(s@, i as int, i as int);
            }
            let mut j: usize = i;
            while j < n
                invariant
                    0 <= i <= j <= n,
                    acc + dist_row_from(s@, i as int, j as int) + dist_total_from(s@, i + 1)
                        == dist_total_from(s@, 0),
                    acc >= 0,
                decreases n - j,
            {
                proof {
                    lemma_dist_row_nonneg(s@, i as int, j + 1);
                    lemma_dist_total_nonneg(s@, i + 1);
                }
                let a = s[i];
                let b = s[j];
                let dx = if a.0 >= b.0 {
                    a.0 - b.0
                } else {
                    b.0 - a.0
                };
                let dy = if a.1 >= b.1 {
                    a.1 - b.1
                } else {
                    b.1 - a.1
                };
                acc = acc + dx + dy;
                j = j + 1;
            }
            i = i + 1;
        }
        acc
    }
}

} // verus!
