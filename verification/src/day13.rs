//! The mirror-valley puzzle: each pattern of ash and rock hides a mirror
//! line between two rows or two columns; part two flips one cell (the
//! smudge) so that a different mirror line appears.

use vstd::prelude::*;

verus! {

#[derive(Debug, Copy, Clone, PartialEq, Eq, Structural)]
pub enum Cell {
    Ash,
    Rock,
}

pub open spec fn spec_flip(c: Cell) -> Cell {
    match c {
        Cell::Ash => Cell::Rock,
        Cell::Rock => Cell::Ash,
    }
}

impl Cell {
    /// Exchange ash and rock.
    pub fn flip(&mut self)
        ensures
            *final(self) == spec_flip(*old(self)),
    {
        *self = match *self {
            Cell::Ash => Cell::Rock,
            Cell::Rock => Cell::Ash,
        }
    }
}

/// The column `i` of a grid, top to bottom.
pub open spec fn col_of(g: Seq<Seq<Cell>>, i: int) -> Seq<Cell> {
    Seq::new(g.len(), |j: int| g[j][i])
}

/// A mirror line lies between rows `idx` and `idx + 1`: every pair of rows
/// at equal distance from it is equal, as far as the grid reaches.
pub open spec fn row_mirror_ok(g: Seq<Seq<Cell>>, idx: int) -> bool {
    &&& 0 <= idx
    &&& idx + 1 < g.len()
    &&& forall|k: int|
        0 <= k && idx - k >= 0 && idx + 1 + k < g.len() ==> g[idx - k] == #[trigger] g[idx + 1 + k]
}

/// A mirror line lies between columns `idx` and `idx + 1`.
pub open spec fn col_mirror_ok(g: Seq<Seq<Cell>>, cols: int, idx: int) -> bool {
    &&& 0 <= idx
    &&& idx + 1 < cols
    &&& forall|k: int|
        0 <= k && idx - k >= 0 && idx + 1 + k < cols ==> col_of(g, idx - k) == #[trigger] col_of(
            g,
            idx + 1 + k,
        )
}

/// The number of rows above the first usable row mirror at or after `idx`,
/// 0 when there is none.  A mirror counted by `ignore` is skipped.
pub open spec fn rows_above_from(g: Seq<Seq<Cell>>, ignore: Option<usize>, idx: int) -> int
    decreases g.len() - idx when idx <= g.len()
{
    if idx < 0 || idx >= g.len() {
        0
    } else if row_mirror_ok(g, idx) && ignore != Some((idx + 1) as usize) {
        idx + 1
    } else {
        rows_above_from(g, ignore, idx + 1)
    }
}

/// The number of columns left of the first usable column mirror, 0 when
/// there is none.
pub open spec fn cols_left_from(
    g: Seq<Seq<Cell>>,
    cols: int,
    ignore: Option<usize>,
    idx: int,
) -> int
    decreases cols - idx when idx <= cols
{
    if idx < 0 || idx >= cols {
        0
    } else if col_mirror_ok(g, cols, idx) && ignore != Some((idx + 1) as usize) {
        idx + 1
    } else {
        cols_left_from(g, cols, ignore, idx + 1)
    }
}

/// The grid with the cell at `(rr, cc)` flipped.
pub open spec fn flip_at(g: Seq<Seq<Cell>>, rr: int, cc: int) -> Seq<Seq<Cell>> {
    g.update(rr, g[rr].update(cc, spec_flip(g[rr][cc])))
}

/// One ash-and-rock pattern.  After the smudge search, the fields
/// `ignore_row_mirror` and `ignore_col_mirror` hold the old mirror
/// position so that only a new mirror line counts.
#[derive(Debug)]
pub struct Pattern {
    pub cells: Vec<Vec<Cell>>,
    pub ignore_row_mirror: Option<usize>,
    pub ignore_col_mirror: Option<usize>,
}

impl Pattern {
    /// The rows as mathematical sequences.
    pub open spec fn grid(self) -> Seq<Seq<Cell>> {
        self.cells@.map_values(|row: Vec<Cell>| row@)
    }

    /// All rows have the width of the first one.
    pub open spec fn rect(self) -> bool {
        forall|i: int|
            0 <= i < self.cells@.len() ==> (#[trigger] self.cells@[i])@.len()
                == self.cells@[0]@.len()
    }

    /// The width of the pattern (0 with no rows).
    pub open spec fn width(self) -> int {
        if self.cells@.len() == 0 {
            0
        } else {
            self.cells@[0]@.len() as int
        }
    }

    pub open spec fn spec_rows_above(self) -> int {
        rows_above_from(self.grid(), self.ignore_row_mirror, 0)
    }

    pub open spec fn spec_cols_left(self) -> int {
        cols_left_from(self.grid(), self.width(), self.ignore_col_mirror, 0)
    }

    pub open spec fn spec_summary(self) -> int {
        self.spec_rows_above() * 100 + self.spec_cols_left()
    }
}

fn rows_equal(a: &Vec<Cell>, b: &Vec<Cell>) -> (r: bool)
    ensures
        r == (a@ == b@),
{
    if a.len() != b.len() {
        proof {
            assert(a@ != b@);
        }
        return false;
    }
    let n = a.len();
    let mut i: usize = 0;
    while i < n
        invariant
            n == a@.len(),
            n == b@.len(),
            0 <= i <= n,
            forall|j: int| 0 <= j < i ==> a@[j] == b@[j],
        decreases n - i,
    {
        if a[i] != b[i] {
            return false;
        }
        i = i + 1;
    }
    proof {
        assert(a@ =~= b@);
    }
    true
}

impl Pattern {
    /// Do rows `idx` and `idx + 1` begin a mirror?  Only the pairs beyond
    /// the immediate one are checked here; the caller checks the immediate
    /// pair itself.
    fn test_row_mirror(&self, start: usize) -> (r: bool)
        requires
            start + 1 < self.cells@.len(),
        ensures
            r == forall|k: int|
                1 <= k && start - k >= 0 && start + 1 + k < self.cells@.len() ==> self.grid()[start
                    - k] == #[trigger] self.grid()[start + 1 + k],
    {
        let max_range = if start < self.cells.len() - 1 - 1 - start {
            start
        } else {
            self.cells.len() - 1 - 1 - start
        };
        let mut k: usize = 1;
        while k <= max_range
            invariant
                start + 1 < self.cells@.len(),
                self.cells@.len() <= usize::MAX,
                max_range <= start,
                max_range + start + 2 <= self.cells@.len(),
                max_range == start || max_range == self.cells@.len() - 2 - start,
                1 <= k <= max_range + 1,
                forall|j: int|
                    1 <= j < k ==> self.grid()[start - j] == #[trigger] self.grid()[start + 1 + j],
            decreases max_range + 1 - k,
        {
            if !rows_equal(&self.cells[start - k], &self.cells[start + 1 + k]) {
                proof {
                    assert(self.grid()[start - k as int] != self.grid()[start + 1 + k as int]);
                }
                return false;
            }
            k = k + 1;
        }
        true
    }

    /// The number of rows above the pattern's row mirror, 0 when no row
    /// mirror exists.
    pub fn rows_above_mirror(&self) -> (r: usize)
        ensures
            r == self.spec_rows_above(),
    {
        let n = self.cells.len();
        let mut index: usize = 0;
        while index < n
            invariant
                n == self.cells@.len(),
                0 <= index <= n,
                self.spec_rows_above() == rows_above_from(
                    self.grid(),
                    self.ignore_row_mirror,
                    index as int,
                ),
            decreases n - index,
        {
            let not_ignored: bool = match self.ignore_row_mirror {
                Some(x) => x != index + 1,
                None => true,
            };
            if not_ignored && self.cells.len() > index + 1 && rows_equal(
                &self.cells[index],
                &self.cells[index + 1],
            ) && self.test_row_mirror(index) {
                proof {
                    assert(row_mirror_ok(self.grid(), index as int)) by {
                        assert forall|k: int|
                            0 <= k && index - k >= 0 && index + 1 + k
                                < self.grid().len() implies self.grid()[index - k]
                            == #[trigger] self.grid()[index + 1 + k] by {
                            if k == 0 {
                                assert(self.grid()[index as int] == self.cells@[index as int]@);
                            }
                        }
                    }
                }
                return index + 1;
            }
            proof {
                if row_mirror_ok(self.grid(), index as int) && not_ignored {
                    let k0: int = 0;
                    assert(self.grid()[index - k0] == self.grid()[index + 1 + k0]);
                    assert(self.cells@[index as int]@ == self.cells@[index + 1]@);
                    assert(false);
                }
            }
            index = index + 1;
        }
        0
    }

    fn get_col(&self, i: usize) -> (r: Option<Vec<Cell>>)
        requires
            self.rect(),
        ensures
            r is Some <==> (self.cells@.len() > 0 && i < self.width()),
            r is Some ==> r->0@ == col_of(self.grid(), i as int),
    {
        if self.cells.len() == 0 || self.cells[0].len() <= i {
            return None;
        }
        let n = self.cells.len();
        let mut out: Vec<Cell> = Vec::new();
        let mut j: usize = 0;
        while j < n
            invariant
                self.rect(),
                n == self.cells@.len(),
                i < self.cells@[0]@.len(),
                0 <= j <= n,
                out@.len() == j,
                forall|t: int| 0 <= t < j ==> out@[t] == self.grid()[t][i as int],
            decreases n - j,
        {
            out.push(self.cells[j][i]);
            j = j + 1;
        }
        proof {
            assert(out@ =~= col_of(self.grid(), i as int));
        }
        Some(out)
    }

    fn cols_equal(&self, a: usize, b: usize) -> (r: bool)
        requires
            self.rect(),
            self.cells@.len() > 0,
            a < self.width(),
            b < self.width(),
        ensures
            r == (col_of(self.grid(), a as int) == col_of(self.grid(), b as int)),
    {
        let ca = self.get_col(a).unwrap();
        let cb = self.get_col(b).unwrap();
        rows_equal(&ca, &cb)
    }

    /// Do columns `idx` and `idx + 1` begin a mirror (beyond the immediate
    /// pair, which the caller checks)?
    fn test_col_mirror(&self, start: usize) -> (r: bool)
        requires
            self.rect(),
            self.cells@.len() > 0,
            start + 1 < self.width(),
        ensures
            r == forall|k: int|
                1 <= k && start - k >= 0 && start + 1 + k < self.width() ==> col_of(
                    self.grid(),
                    start - k,
                ) == #[trigger] col_of(self.grid(), start + 1 + k),
    {
        let cols = self.cells[0].len();
        let max_range = if start < cols - 1 - 1 - start {
            start
        } else {
            cols - 1 - 1 - start
        };
        let mut k: usize = 1;
        while k <= max_range
            invariant
                self.rect(),
                self.cells@.len() > 0,
                cols == self.width(),
                start + 1 < cols,
                cols <= usize::MAX,
                max_range <= start,
                max_range + start + 2 <= cols,
                max_range == start || max_range == cols - 2 - start,
                1 <= k <= max_range + 1,
                forall|j: int|
                    1 <= j < k ==> col_of(self.grid(), start - j) == #[trigger] col_of(
                        self.grid(),
                        start + 1 + j,
                    ),
            decreases max_range + 1 - k,
        {
            if !self.cols_equal(start - k, start + 1 + k) {
                return false;
            }
            k = k + 1;
        }
        true
    }

    /// The number of columns left of the pattern's column mirror, 0 when
    /// no column mirror exists.
    pub fn cols_left_of_mirror(&self) -> (r: usize)
        requires
            self.rect(),
        ensures
            r == self.spec_cols_left(),
    {
        if self.cells.len() == 0 {
            return 0;
        }
        let cols = self.cells[0].len();
        let mut index: usize = 0;
        while index < cols
            invariant
                self.rect(),
                self.cells@.len() > 0,
                cols == self.width(),
                0 <= index <= cols,
                self.spec_cols_left() == cols_left_from(
                    self.grid(),
                    self.width(),
                    self.ignore_col_mirror,
                    index as int,
                ),
            decreases cols - index,
        {
            let not_ignored: bool = match self.ignore_col_mirror {
                Some(x) => x != index + 1,
                None => true,
            };
            if not_ignored && index + 1 < cols && self.cols_equal(index, index + 1)
                && self.test_col_mirror(index) {
                proof {
                    assert(col_mirror_ok(self.grid(), self.width(), index as int)) by {
                        assert forall|k: int|
                            0 <= k && index - k >= 0 && index + 1 + k < self.width() implies col_of(
                            self.grid(),
                            index - k,
                        ) == #[trigger] col_of(self.grid(), index + 1 + k) by {
                            if k == 0 {
                            }
                        }
                    }
                }
                return index + 1;
            }
            proof {
                if col_mirror_ok(self.grid(), self.width(), index as int) && not_ignored {
                    let k0: int = 0;
                    assert(col_of(self.grid(), index - k0) == col_of(self.grid(), index + 1 + k0));
                    assert(false);
                }
            }
            index = index + 1;
        }
        0
    }

    /// The pattern's score: 100 per row above a row mirror plus 1 per
    /// column left of a column mirror.
    pub fn get_summary(&self) -> (r: usize)
        requires
            self.rect(),
            self.cells@.len() * 100 + self.width() <= usize::MAX,
        ensures
            r == self.spec_summary(),
    {
        let rows = self.rows_above_mirror();
        let cols = self.cols_left_of_mirror();
        proof {
            lemma_rows_above_bound(self.grid(), self.ignore_row_mirror, 0);
            lemma_cols_left_bound(self.grid(), self.width(), self.ignore_col_mirror, 0);
        }
        rows * 100 + cols
    }
}

/// The copy of `cells` with the cell at `(rr, cc)` flipped.
fn grid_with_flip(cells: &Vec<Vec<Cell>>, rr: usize, cc: usize) -> (out: Vec<Vec<Cell>>)
    requires
        rr < cells@.len(),
        cc < cells@[rr as int]@.len(),
    ensures
        out@.map_values(|row: Vec<Cell>| row@) == flip_at(
            cells@.map_values(|row: Vec<Cell>| row@),
            rr as int,
            cc as int,
        ),
{
    let n = cells.len();
    let mut out: Vec<Vec<Cell>> = Vec::new();
    let mut i: usize = 0;
    while i < n
        invariant
            n == cells@.len(),
            rr < n,
            cc < cells@[rr as int]@.len(),
            0 <= i <= n,
            out@.len() == i,
            forall|t: int|
                0 <= t < i && t != rr ==> (#[trigger] out@[t])@ == cells@[t]@,
            forall|t: int|
                0 <= t < i && t == rr ==> (#[trigger] out@[t])@ == cells@[t]@.update(
                    cc as int,
                    spec_flip(cells@[t]@[cc as int]),
                ),
        decreases n - i,
    {
        let m = cells[i].len();
        let mut row_out: Vec<Cell> = Vec::new();
        let mut j: usize = 0;
        while j < m
            invariant
                n == cells@.len(),
                rr < n,
                cc < cells@[rr as int]@.len(),
                i < n,
                m == cells@[i as int]@.len(),
                0 <= j <= m,
                row_out@.len() == j,
                forall|t: int|
                    0 <= t < j && !(i == rr && t == cc) ==> (#[trigger] row_out@[t])
                        == cells@[i as int]@[t],
                forall|t: int|
                    0 <= t < j && i == rr && t == cc ==> (#[trigger] row_out@[t]) == spec_flip(
                        cells@[i as int]@[t],
                    ),
            decreases m - j,
        {
            let c = cells[i][j];
            if i == rr && j == cc {
                row_out.push(match c {
                    Cell::Ash => Cell::Rock,
                    Cell::Rock => Cell::Ash,
                });
            } else {
                row_out.push(c);
            }
            j = j + 1;
        }
        proof {
            if i == rr {
                assert(row_out@ =~= cells@[i as int]@.update(
                    cc as int,
                    spec_flip(cells@[i as int]@[cc as int]),
                ));
            } else {
                assert(row_out@ =~= cells@[i as int]@);
            }
        }
        out.push(row_out);
        i = i + 1;
    }
    proof {
        assert(out@.map_values(|row: Vec<Cell>| row@) =~~= flip_at(
            cells@.map_values(|row: Vec<Cell>| row@),
            rr as int,
            cc as int,
        ));
    }
    out
}

impl Pattern {
    /// Flipping `(rr, cc)` and ignoring the pattern's old mirror lines
    /// leaves a pattern with a mirror line somewhere new.
    pub open spec fn smudge_fixed(self, rr: int, cc: int) -> bool {
        &&& 0 <= rr < self.cells@.len()
        &&& 0 <= cc < self.width()
        &&& {
            let g2 = flip_at(self.grid(), rr, cc);
            rows_above_from(g2, Some(self.spec_rows_above() as usize), 0) * 100 + cols_left_from(
                g2,
                self.width(),
                Some(self.spec_cols_left() as usize),
                0,
            ) != 0
        }
    }

    /// Find the one cell whose flip produces a fresh mirror line, and
    /// return the pattern with that cell flipped, remembering the old
    /// mirror lines so that only the new one counts.  Some such cell must
    /// exist.
    pub fn unsmudge(&self) -> (r: Pattern)
        requires
            self.rect(),
            self.cells@.len() * 100 + self.width() <= usize::MAX,
            exists|rr: int, cc: int| #[trigger] self.smudge_fixed(rr, cc),
        ensures
            exists|rr: int, cc: int|
                #[trigger] self.smudge_fixed(rr, cc) && r.grid() == flip_at(self.grid(), rr, cc),
            r.ignore_row_mirror == Some(self.spec_rows_above() as usize),
            r.ignore_col_mirror == Some(self.spec_cols_left() as usize),
            r.spec_summary() != 0,
    {
        let old_row = self.rows_above_mirror();
        let old_col = self.cols_left_of_mirror();
        let rows = self.cells.len();
        let mut row: usize = 0;
        while row < rows
            invariant
                self.rect(),
                self.cells@.len() * 100 + self.width() <= usize::MAX,
                rows == self.cells@.len(),
                old_row == self.spec_rows_above(),
                old_col == self.spec_cols_left(),
                0 <= row <= rows,
                forall|r2: int, c2: int|
                    0 <= r2 < row && 0 <= c2 < self.width() ==> !(#[trigger] self.smudge_fixed(
                        r2,
                        c2,
                    )),
            decreases rows - row,
        {
            let width = self.cells[row].len();
            let mut col: usize = 0;
            while col < width
                invariant
                    self.rect(),
                    self.cells@.len() * 100 + self.width() <= usize::MAX,
                    rows == self.cells@.len(),
                    old_row == self.spec_rows_above(),
                    old_col == self.spec_cols_left(),
                    0 <= row < rows,
                    width == self.width(),
                    0 <= col <= width,
                    forall|r2: int, c2: int|
                        0 <= r2 < row && 0 <= c2 < self.width() ==> !(#[trigger] self.smudge_fixed(
                            r2,
                            c2,
                        )),
                    forall|c2: int|
                        0 <= c2 < col ==> !(#[trigger] self.smudge_fixed(row as int, c2)),
                decreases width - col,
            {
                let candidate = Pattern {
                    cells: grid_with_flip(&self.cells, row, col),
                    ignore_row_mirror: Some(old_row),
                    ignore_col_mirror: Some(old_col),
                };
                proof {
                    assert(candidate.grid() == flip_at(self.grid(), row as int, col as int));
                    assert(forall|t: int|
                        0 <= t < candidate.cells@.len() ==> (#[trigger] candidate.cells@[t])@
                            == candidate.grid()[t]);
                    assert forall|t: int|
                        0 <= t < candidate.cells@.len() implies (#[trigger] candidate.cells@[t])@.len()
                        == candidate.cells@[0]@.len() by {
                        assert(candidate.grid().len() == candidate.cells@.len());
                        assert(self.grid().len() == self.cells@.len());
                        assert(candidate.cells@.len() == self.cells@.len());
                        assert(self.grid()[t] == self.cells@[t]@);
                        assert(self.grid()[0] == self.cells@[0]@);
                        assert(self.cells@[t]@.len() == self.cells@[0]@.len());
                    }
                    assert(candidate.rect());
                    assert(candidate.width() == self.width());
                }
                if candidate.get_summary() != 0 {
                    proof {
                        assert(self.smudge_fixed(row as int, col as int));
                    }
                    return candidate;
                }
                col = col + 1;
            }
            row = row + 1;
        }
        proof {
            let (rr, cc) = choose|rr: int, cc: int| #[trigger] self.smudge_fixed(rr, cc);
            assert(false);
        }
        Pattern { cells: Vec::new(), ignore_row_mirror: None, ignore_col_mirror: None }
    }
}

proof fn lemma_rows_above_bound(g: Seq<Seq<Cell>>, ignore: Option<usize>, idx: int)
    requires
        0 <= idx <= g.len(),
    ensures
        0 <= rows_above_from(g, ignore, idx) <= g.len(),
    decreases g.len() - idx,
{
    if idx < g.len() {
        lemma_rows_above_bound(g, ignore, idx + 1);
    }
}

proof fn lemma_cols_left_bound(g: Seq<Seq<Cell>>, cols: int, ignore: Option<usize>, idx: int)
    requires
        0 <= idx <= cols,
    ensures
        0 <= cols_left_from(g, cols, ignore, idx) <= cols,
    decreases cols - idx,
{
    if idx < cols {
        lemma_cols_left_bound(g, cols, ignore, idx + 1);
    }
}

} // verus!
