//! The sequence-extrapolation puzzle: a reading is extended by building the
//! tower of successive differences until it becomes constant, then summing
//! back up the last (or first) elements.

use vstd::prelude::*;

verus! {

/// The sequence of successive differences of `s`.
pub open spec fn diffs(s: Seq<int>) -> Seq<int> {
    Seq::new((s.len() - 1) as nat, |i: int| s[i + 1] - s[i])
}

pub open spec fn all_zero(s: Seq<int>) -> bool {
    forall|i: int| 0 <= i < s.len() ==> s[i] == 0
}

pub open spec fn fits_i64(v: int) -> bool {
    i64::MIN <= v <= i64::MAX
}

/// The values of `s` as mathematical integers.
pub open spec fn ints_of(s: Seq<i64>) -> Seq<int> {
    s.map_values(|x: i64| x as int)
}

/// Every level of the difference tower of `s` stays within `i64`, down to
/// the first level that is all zero (the tower is not built past it).
pub open spec fn pyramid_fits(s: Seq<int>) -> bool
    decreases s.len(),
{
    s.len() < 2 || {
        &&& forall|i: int| 0 <= i < diffs(s).len() ==> fits_i64(#[trigger] diffs(s)[i])
        &&& (all_zero(diffs(s)) || pyramid_fits(diffs(s)))
    }
}

/// A reading and the tower of difference rows built beneath it.
#[derive(Debug)]
pub struct PredictionTree {
    pub nodes: Vec<i64>,
    pub child: Option<Box<PredictionTree>>,
}

impl PredictionTree {
    /// Every row is nonempty and each child row holds the successive
    /// differences of its parent row.
    pub open spec fn wf(self) -> bool
        decreases self,
    {
        &&& self.nodes@.len() >= 1
        &&& match self.child {
            Option::None => true,
            Option::Some(c) => {
                &&& c.nodes@.len() + 1 == self.nodes@.len()
                &&& forall|i: int|
                    0 <= i < c.nodes@.len() ==> (#[trigger] c.nodes@[i]) as int == self.nodes@[i
                        + 1] - self.nodes@[i]
                &&& c.wf()
            },
        }
    }

    /// The forward extrapolation: the last element plus the child's own
    /// extrapolation; a constant row extends by its own value.
    pub open spec fn spec_prediction(self) -> int
        decreases self,
    {
        match self.child {
            Option::None => self.nodes@[0] as int,
            Option::Some(c) => c.spec_prediction() + self.nodes@.last() as int,
        }
    }

    /// The backward extrapolation: the first element minus the child's.
    pub open spec fn spec_postdiction(self) -> int
        decreases self,
    {
        match self.child {
            Option::None => self.nodes@[0] as int,
            Option::Some(c) => self.nodes@[0] - c.spec_postdiction(),
        }
    }

    /// Each level's forward extrapolation stays within `i64`.
    pub open spec fn prediction_fits(self) -> bool
        decreases self,
    {
        match self.child {
            Option::None => true,
            Option::Some(c) => c.prediction_fits() && fits_i64(
                c.spec_prediction() + self.nodes@.last() as int,
            ),
        }
    }

    /// Each level's backward extrapolation stays within `i64`.
    pub open spec fn postdiction_fits(self) -> bool
        decreases self,
    {
        match self.child {
            Option::None => true,
            Option::Some(c) => c.postdiction_fits() && fits_i64(
                self.nodes@[0] - c.spec_postdiction(),
            ),
        }
    }

    /// Build the difference tower under a reading.  The tower stops at the
    /// first all-zero difference row (or when a row has fewer than two
    /// entries).
    pub fn new(nodes: Vec<i64>) -> (t: PredictionTree)
        requires
            nodes@.len() >= 1,
            pyramid_fits(ints_of(nodes@)),
        ensures
            t.nodes@ == nodes@,
            t.wf(),
        decreases nodes@.len(),
    {
        let n = nodes.len();
        if n < 2 {
            return PredictionTree { nodes, child: None };
        }
        let mut child_nodes: Vec<i64> = Vec::new();
        let mut i: usize = 1;
        while i < n
            invariant
                n == nodes@.len(),
                n >= 2,
                1 <= i <= n,
                pyramid_fits(ints_of(nodes@)),
                child_nodes@.len() == i - 1,
                forall|j: int|
                    0 <= j < i - 1 ==> (#[trigger] child_nodes@[j]) as int == nodes@[j + 1]
                        - nodes@[j],
            decreases n - i,
        {
            proof {
                assert(diffs(ints_of(nodes@))[i - 1] == nodes@[i as int] - nodes@[i - 1]);
            }
            child_nodes.push(nodes[i] - nodes[i - 1]);
            i = i + 1;
        }
        let mut zero: bool = true;
        let mut k: usize = 0;
        let m = child_nodes.len();
        while k < m
            invariant
                m == child_nodes@.len(),
                0 <= k <= m,
                zero <==> forall|j: int| 0 <= j < k ==> (#[trigger] child_nodes@[j]) == 0,
            decreases m - k,
        {
            if child_nodes[k] != 0 {
                zero = false;
            }
            k = k + 1;
        }
        if zero {
            PredictionTree { nodes, child: None }
        } else {
            proof {
                assert(ints_of(child_nodes@) =~= diffs(ints_of(nodes@)));
                assert(!all_zero(diffs(ints_of(nodes@)))) by {
                    let j = choose|j: int| 0 <= j < child_nodes@.len() && child_nodes@[j] != 0;
                    assert(diffs(ints_of(nodes@))[j] != 0);
                }
            }
            let child = PredictionTree::new(child_nodes);
            PredictionTree { nodes, child: Some(Box::new(child)) }
        }
    }

    /// Extend the reading forward by one value.
    pub fn get_prediction(&self) -> (r: i64)
        requires
            self.wf(),
            self.prediction_fits(),
        ensures
            r as int == self.spec_prediction(),
        decreases *self,
    {
        match &self.child {
            None => self.nodes[0],
            Some(c) => {
                let p = c.get_prediction();
                p + self.nodes[self.nodes.len() - 1]
            },
        }
    }

    /// Extend the reading backward by one value.
    pub fn get_postdiction(&self) -> (r: i64)
        requires
            self.wf(),
            self.postdiction_fits(),
        ensures
            r as int == self.spec_postdiction(),
        decreases *self,
    {
        match &self.child {
            None => self.nodes[0],
            Some(c) => {
                let p = c.get_postdiction();
                self.nodes[0] - p
            },
        }
    }
}

} // verus!
