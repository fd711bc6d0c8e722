//! The engine-schematic puzzle: part numbers sit in a grid among marker
//! symbols; a part counts when a marker touches it, and a `*` marker
//! touching exactly two parts is a gear.

use vstd::prelude::*;

verus! {

/// One part number: its value and the row, start column and length of its
/// digits in the grid.
#[derive(Debug, Clone, Copy, PartialEq, Eq, Structural)]
pub struct Part {
    pub id: usize,
    pub row: usize,
    pub col: usize,
    pub length: usize,
}

/// A marker symbol with its row and column.
pub type Marker = (char, usize, usize);

/// The part's coordinates stay within `usize` when widened by one cell.
pub open spec fn part_fits(p: Part) -> bool {
    &&& p.col + p.length <= usize::MAX
    &&& p.row < usize::MAX
}

/// The marker touches the part: it lies in the one-cell border around the
/// part's digits (corners included).
pub open spec fn marker_near(p: Part, m: Marker) -> bool {
    &&& (if p.col == 0 {
        0int
    } else {
        p.col - 1
    }) <= m.2 <= p.col + p.length
    &&& (if p.row == 0 {
        0int
    } else {
        p.row - 1
    }) <= m.1 <= p.row + 1
}

/// The markers of the list that touch the part, in order.
pub open spec fn related_spec(markers: Seq<Marker>, p: Part) -> Seq<Marker>
    decreases markers.len(),
{
    if markers.len() == 0 {
        Seq::empty()
    } else {
        related_spec(markers.drop_last(), p) + (if marker_near(p, markers.last()) {
            seq![markers.last()]
        } else {
            Seq::empty()
        })
    }
}

/// The parts of the list that the marker touches, in order.
pub open spec fn parts_near(parts: Seq<Part>, m: Marker) -> Seq<Part>
    decreases parts.len(),
{
    if parts.len() == 0 {
        Seq::empty()
    } else {
        parts_near(parts.drop_last(), m) + (if marker_near(parts.last(), m) {
            seq![parts.last()]
        } else {
            Seq::empty()
        })
    }
}

/// The gear pairs: for each `*` marker touching exactly two parts, those
/// two parts, in marker order.
pub open spec fn gears_spec(markers: Seq<Marker>, parts: Seq<Part>) -> Seq<(Part, Part)>
    decreases markers.len(),
{
    if markers.len() == 0 {
        Seq::empty()
    } else {
        gears_spec(markers.drop_last(), parts) + (if markers.last().0 == '*' && parts_near(
            parts,
            markers.last(),
        ).len() == 2 {
            seq![(parts_near(parts, markers.last())[0], parts_near(parts, markers.last())[1])]
        } else {
            Seq::empty()
        })
    }
}

/// The schematic: the parts and the marker symbols found in the grid.
#[derive(Debug)]
pub struct Plan {
    pub parts: Vec<Part>,
    pub markers: Vec<Marker>,
}

fn near(p: Part, m: Marker) -> (r: bool)
    requires
        part_fits(p),
    ensures
        r == marker_near(p, m),
{
    let min_col = if p.col == 0 {
        0
    } else {
        p.col - 1
    };
    let max_col = p.col + p.length;
    let min_row = if p.row == 0 {
        0
    } else {
        p.row - 1
    };
    let max_row = p.row + 1;
    min_col <= m.2 && m.2 <= max_col && min_row <= m.1 && m.1 <= max_row
}

impl Plan {
    /// The markers that touch the given part, in the schematic's order.
    pub fn related_markers(&self, part: &Part) -> (r: Vec<Marker>)
        requires
            part_fits(*part),
        ensures
            r@ == related_spec(self.markers@, *part),
    {
        let n = self.markers.len();
        let mut r: Vec<Marker> = Vec::new();
        let mut i: usize = 0;
        while i < n
            invariant
                n == self.markers@.len(),
                part_fits(*part),
                0 <= i <= n,
                r@ == related_spec(self.markers@.take(i as int), *part),
            decreases n - i,
        {
            proof {
                assert(self.markers@.take(i + 1).drop_last() =~= self.markers@.take(i as int));
                assert(self.markers@.take(i + 1).last() == self.markers@[i as int]);
            }
            let m = self.markers[i];
            if near(*part, m) {
                r.push(m);
                proof {
                    assert(r@ =~= related_spec(self.markers@.take(i + 1), *part));
                }
            } else {
                proof {
                    assert(r@ =~= related_spec(self.markers@.take(i + 1), *part));
                }
            }
            i = i + 1;
        }
        proof {
            assert(self.markers@.take(n as int) =~= self.markers@);
        }
        r
    }

    /// The pairs of parts joined by a gear: a `*` marker touching exactly
    /// two parts.  (A hash-keyed grouping would list the same pairs in an
    /// arbitrary order; here they come in the markers' order.)
    pub fn get_gears(&self) -> (r: Vec<(Part, Part)>)
        requires
            forall|i: int| 0 <= i < self.parts@.len() ==> part_fits(#[trigger] self.parts@[i]),
        ensures
            r@ == gears_spec(self.markers@, self.parts@),
    {
        let n = self.markers.len();
        let mut r: Vec<(Part, Part)> = Vec::new();
        let mut i: usize = 0;
        while i < n
            invariant
                n == self.markers@.len(),
                forall|k: int| 0 <= k < self.parts@.len() ==> part_fits(#[trigger] self.parts@[k]),
                0 <= i <= n,
                r@ == gears_spec(self.markers@.take(i as int), self.parts@),
            decreases n - i,
        {
            proof {
                assert(self.markers@.take(i + 1).drop_last() =~= self.markers@.take(i as int));
                assert(self.markers@.take(i + 1).last() == self.markers@[i as int]);
            }
            let m = self.markers[i];
            if m.0 == '*' {
                // the parts this marker touches
                let pn = self.parts.len();
                let mut group: Vec<Part> = Vec::new();
                let mut j: usize = 0;
                while j < pn
                    invariant
                        pn == self.parts@.len(),
                        forall|k: int|
                            0 <= k < self.parts@.len() ==> part_fits(#[trigger] self.parts@[k]),
                        0 <= j <= pn,
                        group@ == parts_near(self.parts@.take(j as int), m),
                    decreases pn - j,
                {
                    proof {
                        assert(self.parts@.take(j + 1).drop_last() =~= self.parts@.take(j as int));
                        assert(self.parts@.take(j + 1).last() == self.parts@[j as int]);
                    }
                    let p = self.parts[j];
                    if near(p, m) {
                        group.push(p);
                        proof {
                            assert(group@ =~= parts_near(self.parts@.take(j + 1), m));
                        }
                    } else {
                        proof {
                            assert(group@ =~= parts_near(self.parts@.take(j + 1), m));
                        }
                    }
                    j = j + 1;
                }
                proof {
                    assert(self.parts@.take(pn as int) =~= self.parts@);
                }
                if group.len() == 2 {
                    r.push((group[0], group[1]));
                }
            }
            proof {
                assert(r@ =~= gears_spec(self.markers@.take(i + 1), self.parts@));
            }
            i = i + 1;
        }
        proof {
            assert(self.markers@.take(n as int) =~= self.markers@);
        }
        r
    }
}

} // verus!
