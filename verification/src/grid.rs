//! The 9x9 grid, its units (boxes, columns, rows) and cell-level updates.
use vstd::prelude::*;
use crate::bits::{subset, lemma_and_subset, lemma_subset_refl, lemma_subset_fits,
    lemma_subset_within_mask, lemma_popcount_mono};
use crate::cell::ALL;
use crate::cell::Cell;

verus! {

pub const ROWS: usize = 9;

pub const COLS: usize = 9;

/// A position `(row, column)` in the grid.
pub type Point = (usize, usize);

/// The nine positions of one box, column or row.
pub type Unit = [Point; 9];

/// The three kinds of unit.
#[derive(Clone, Copy, Debug, PartialEq, Eq, Structural)]
pub enum Kind {
    Box,
    Col,
    Row,
}

/// Row of the `j`-th position of unit `i` of kind `k`.
pub open spec fn unit_row(k: Kind, i: int, j: int) -> int {
    match k {
        Kind::Box => i / 3 * 3 + j / 3,
        Kind::Col => j,
        Kind::Row => i,
    }
}

/// Column of the `j`-th position of unit `i` of kind `k`.
pub open spec fn unit_col(k: Kind, i: int, j: int) -> int {
    match k {
        Kind::Box => i % 3 * 3 + j % 3,
        Kind::Col => i,
        Kind::Row => j,
    }
}

/// The box that holds position `(r, c)`.
pub open spec fn box_index(r: int, c: int) -> int {
    r / 3 * 3 + c / 3
}

/// Returns the box that holds position `(r, c)`.
pub fn box_of(r: usize, c: usize) -> (b: usize)
    requires
        r < 9,
        c < 9,
    ensures
        b == box_index(r as int, c as int),
        b < 9,
{
    r / 3 * 3 + c / 3
}

/// Returns the `j`-th position of unit `i` of kind `k`.
pub fn unit_point(k: Kind, i: usize, j: usize) -> (p: Point)
    requires
        i < 9,
        j < 9,
    ensures
        p.0 == unit_row(k, i as int, j as int),
        p.1 == unit_col(k, i as int, j as int),
        p.0 < 9,
        p.1 < 9,
{
    match k {
        Kind::Box => (i / 3 * 3 + j / 3, i % 3 * 3 + j % 3),
        Kind::Col => (j, i),
        Kind::Row => (i, j),
    }
}

/// The name of a kind of unit.
pub open spec fn kind_name(k: Kind) -> Seq<char> {
    match k {
        Kind::Box => "box"@,
        Kind::Col => "col"@,
        Kind::Row => "row"@,
    }
}

/// All units of one kind: `cells[i][j]` is the `j`-th position of unit `i`.
pub struct Group {
    pub kind: Kind,
    pub cells: [Unit; 9],
}

impl Group {
    /// The positions are those of the units of `self.kind`.
    pub open spec fn wf(&self) -> bool {
        forall|i: int, j: int|
            0 <= i < 9 && 0 <= j < 9 ==> (#[trigger] self.cells[i][j]).0 == unit_row(
                self.kind,
                i,
                j,
            ) && self.cells[i][j].1 == unit_col(self.kind, i, j)
    }

    /// Builds the units of kind `kind`.
    pub fn new(kind: Kind) -> (g: Group)
        ensures
            g.kind == kind,
            g.wf(),
    {
        let mut cells: [Unit; 9] = [[(0usize, 0usize); 9]; 9];
        let mut i: usize = 0;
        while i < 9
            invariant
                i <= 9,
                forall|a: int, b: int|
                    0 <= a < i && 0 <= b < 9 ==> (#[trigger] cells[a][b]).0 == unit_row(kind, a, b)
                        && cells[a][b].1 == unit_col(kind, a, b),
            decreases 9 - i,
        {
            let mut j: usize = 0;
            while j < 9
                invariant
                    i < 9,
                    j <= 9,
                    forall|a: int, b: int|
                        0 <= a < i && 0 <= b < 9 ==> (#[trigger] cells[a][b]).0 == unit_row(
                            kind,
                            a,
                            b,
                        ) && cells[a][b].1 == unit_col(kind, a, b),
                    forall|b: int|
                        0 <= b < j ==> (#[trigger] cells[i as int][b]).0 == unit_row(
                            kind,
                            i as int,
                            b,
                        ) && cells[i as int][b].1 == unit_col(kind, i as int, b),
                decreases 9 - j,
            {
                cells[i][j] = unit_point(kind, i, j);
                j += 1;
            }
            i += 1;
        }
        Group { kind, cells }
    }

    /// A short name of the kind of unit.
    pub fn name(&self) -> (n: &'static str)
        ensures
            n@ == kind_name(self.kind),
    {
        match self.kind {
            Kind::Box => "box",
            Kind::Col => "col",
            Kind::Row => "row",
        }
    }
}

/// A sudoku grid: the candidates of every cell, and which cells were given in the puzzle.
#[derive(Clone, Copy, Debug)]
pub struct Grid {
    pub orig: [[bool; COLS]; ROWS],
    pub cells: [[Cell; COLS]; ROWS],
}

/// The cells of `a` and `b` are equal everywhere.
pub open spec fn same_cells(a: Grid, b: Grid) -> bool {
    forall|r: int, c: int| 0 <= r < 9 && 0 <= c < 9 ==> #[trigger] a.at(r, c) == b.at(r, c)
}

/// Some cell of `a` differs from the same cell of `b`.
pub open spec fn differs(a: Grid, b: Grid) -> bool {
    exists|r: int, c: int| 0 <= r < 9 && 0 <= c < 9 && #[trigger] a.at(r, c) != b.at(r, c)
}

/// Every cell of `a` has only candidates of the same cell of `b`, and the givens agree.
pub open spec fn narrower(a: Grid, b: Grid) -> bool {
    &&& a.orig == b.orig
    &&& forall|r: int, c: int|
        0 <= r < 9 && 0 <= c < 9 ==> (#[trigger] a.at(r, c)).within(b.at(r, c))
}

/// `after` is `before` with only cell `(r, c)` replaced by `v`.
pub open spec fn updated(before: Grid, after: Grid, r: int, c: int, v: Cell) -> bool {
    &&& after.orig == before.orig
    &&& after.at(r, c) == v
    &&& forall|r2: int, c2: int|
        0 <= r2 < 9 && 0 <= c2 < 9 && !(r2 == r && c2 == c) ==> #[trigger] after.at(r2, c2)
            == before.at(r2, c2)
}

impl Grid {
    /// The candidates of cell `(r, c)`.
    pub open spec fn at(self, r: int, c: int) -> Cell {
        self.cells[r][c]
    }

    /// The candidates of the `j`-th cell of unit `i` of kind `k`.
    pub open spec fn unit_cell(self, k: Kind, i: int, j: int) -> Cell {
        self.at(unit_row(k, i, j), unit_col(k, i, j))
    }

    /// Every cell mask can be counted (below 1024).
    pub open spec fn fits(self) -> bool {
        forall|r: int, c: int| 0 <= r < 9 && 0 <= c < 9 ==> (#[trigger] self.at(r, c)).fits()
    }

    /// Every given cell has at most one candidate.
    pub open spec fn givens_fixed(self) -> bool {
        forall|r: int, c: int|
            0 <= r < 9 && 0 <= c < 9 && self.orig[r][c] ==> (#[trigger] self.at(r, c)).size() <= 1
    }

    /// Every cell holds only digit bits, and the givens have at most one candidate.
    pub open spec fn wf(self) -> bool {
        &&& forall|r: int, c: int|
            0 <= r < 9 && 0 <= c < 9 ==> (#[trigger] self.at(r, c)).digits_only()
        &&& self.givens_fixed()
    }

    /// Returns the candidates of the cell at `p`.
    pub fn get(&self, p: Point) -> (cell: Cell)
        requires
            p.0 < 9,
            p.1 < 9,
        ensures
            cell == self.at(p.0 as int, p.1 as int),
    {
        self.cells[p.0][p.1]
    }

    /// Removes the candidates in `mask` from cell `(r, c)`; returns whether the cell changed.
    pub fn remove_at(&mut self, r: usize, c: usize, mask: u16) -> (changed: bool)
        requires
            r < 9,
            c < 9,
        ensures
            updated(*old(self), *final(self), r as int, c as int, Cell(old(self).at(r as int, c as int).0 & !mask)),
            final(self).at(r as int, c as int).within(old(self).at(r as int, c as int)),
            changed == (final(self).at(r as int, c as int) != old(self).at(r as int, c as int)),
    {
        let mut cell = self.cells[r][c];
        let changed = cell.and_not(&Cell(mask));
        self.cells[r][c] = cell;
        proof {
            lemma_and_subset(old(self).at(r as int, c as int).0, mask);
        }
        changed
    }

    /// Keeps in cell `(r, c)` only the candidates in `mask`; returns whether the cell changed.
    pub fn keep_at(&mut self, r: usize, c: usize, mask: u16) -> (changed: bool)
        requires
            r < 9,
            c < 9,
        ensures
            updated(*old(self), *final(self), r as int, c as int, Cell(old(self).at(r as int, c as int).0 & mask)),
            final(self).at(r as int, c as int).within(old(self).at(r as int, c as int)),
            changed == (final(self).at(r as int, c as int) != old(self).at(r as int, c as int)),
    {
        let mut cell = self.cells[r][c];
        let changed = cell.and(&Cell(mask));
        self.cells[r][c] = cell;
        proof {
            lemma_and_subset(old(self).at(r as int, c as int).0, mask);
        }
        changed
    }

    /// Sets cell `(r, c)` to `v`; returns whether the cell changed.
    pub fn set_at(&mut self, r: usize, c: usize, v: Cell) -> (changed: bool)
        requires
            r < 9,
            c < 9,
        ensures
            updated(*old(self), *final(self), r as int, c as int, v),
            changed == (v != old(self).at(r as int, c as int)),
    {
        let mut cell = self.cells[r][c];
        let changed = cell.replace(&v);
        self.cells[r][c] = cell;
        changed
    }
}

/// Grids with the same givens and the same cells are equal.
pub proof fn lemma_same_grid(a: Grid, b: Grid)
    requires
        a.orig == b.orig,
        same_cells(a, b),
    ensures
        a == b,
{
    assert forall|r: int| 0 <= r < 9 implies a.cells[r] =~= b.cells[r] by {
        assert forall|c: int| 0 <= c < 9 implies a.cells[r][c] == b.cells[r][c] by {
            assert(a.at(r, c) == b.at(r, c));
        }
    }
    assert(a.cells =~= b.cells);
}

pub proof fn lemma_narrower_trans(a: Grid, b: Grid, c: Grid)
    requires
        narrower(a, b),
        narrower(b, c),
    ensures
        narrower(a, c),
{
    assert forall|r: int, col: int| 0 <= r < 9 && 0 <= col < 9 implies (#[trigger] a.at(r, col)).within(c.at(r, col)) by {
        assert(a.at(r, col).within(b.at(r, col)));
        assert(b.at(r, col).within(c.at(r, col)));
        crate::bits::lemma_subset_trans(a.at(r, col).0, b.at(r, col).0, c.at(r, col).0);
    }
}

pub proof fn lemma_narrower_refl(a: Grid)
    ensures
        narrower(a, a),
{
    assert forall|r: int, c: int| 0 <= r < 9 && 0 <= c < 9 implies (#[trigger] a.at(r, c)).within(
        a.at(r, c),
    ) by {
        lemma_subset_refl(a.at(r, c).0);
    }
}

/// Narrowing keeps every cell countable, digit-only, and every given fixed.
pub proof fn lemma_narrower_keeps(a: Grid, b: Grid)
    requires
        narrower(a, b),
    ensures
        b.fits() ==> a.fits(),
        b.wf() ==> a.wf(),
        b.givens_fixed() ==> a.givens_fixed(),
{
    if b.fits() {
        assert forall|r: int, c: int| 0 <= r < 9 && 0 <= c < 9 implies (#[trigger] a.at(r, c)).fits() by {
            assert(b.at(r, c).fits());
            lemma_subset_fits(a.at(r, c).0, b.at(r, c).0);
        }
    }
    if b.givens_fixed() {
        assert forall|r: int, c: int| 0 <= r < 9 && 0 <= c < 9 && a.orig[r][c] implies (#[trigger] a.at(r, c)).size() <= 1 by {
            assert(b.at(r, c).size() <= 1);
            lemma_popcount_mono(a.at(r, c).0, b.at(r, c).0);
        }
    }
    if b.wf() {
        assert forall|r: int, c: int| 0 <= r < 9 && 0 <= c < 9 implies (#[trigger] a.at(r, c)).digits_only() by {
            assert(b.at(r, c).digits_only());
            lemma_subset_within_mask(a.at(r, c).0, b.at(r, c).0, ALL);
        }
        assert forall|r: int, c: int| 0 <= r < 9 && 0 <= c < 9 && a.orig[r][c] implies (#[trigger] a.at(r, c)).size() <= 1 by {
            assert(b.at(r, c).size() <= 1);
            lemma_popcount_mono(a.at(r, c).0, b.at(r, c).0);
        }
    }
}

/// Different positions of one unit are different cells.
pub proof fn lemma_unit_injective(k: Kind, i: int, j1: int, j2: int)
    requires
        0 <= i < 9,
        0 <= j1 < 9,
        0 <= j2 < 9,
        j1 != j2,
    ensures
        unit_row(k, i, j1) != unit_row(k, i, j2) || unit_col(k, i, j1) != unit_col(k, i, j2),
{
}

/// Positions of a unit are cells of the grid.
pub proof fn lemma_unit_in_range(k: Kind, i: int, j: int)
    requires
        0 <= i < 9,
        0 <= j < 9,
    ensures
        0 <= unit_row(k, i, j) < 9,
        0 <= unit_col(k, i, j) < 9,
{
}

/// The `j`-th cell of box `b` lies in box `b`.
pub proof fn lemma_box_point_in_box(b: int, j: int)
    requires
        0 <= b < 9,
        0 <= j < 9,
    ensures
        box_index(unit_row(Kind::Box, b, j), unit_col(Kind::Box, b, j)) == b,
{
    assert((b / 3 * 3 + j / 3) / 3 == b / 3) by (nonlinear_arith)
        requires
            0 <= b < 9,
            0 <= j < 9,
    ;
    assert((b % 3 * 3 + j % 3) / 3 == b % 3) by (nonlinear_arith)
        requires
            0 <= b < 9,
            0 <= j < 9,
    ;
}

/// Number of the first `n` cells of unit `i` of kind `k` that still have digit `d`.
pub open spec fn digit_count(g: Grid, k: Kind, i: int, d: int, n: int) -> nat
    decreases n,
{
    if n <= 0 {
        0
    } else {
        digit_count(g, k, i, d, n - 1) + if g.unit_cell(k, i, n - 1).has(d) {
            1nat
        } else {
            0nat
        }
    }
}

/// Unit `i` of kind `k` is solved: no cell is empty, and each digit is a candidate of exactly
/// one of its cells.
pub open spec fn unit_solved(g: Grid, k: Kind, i: int) -> bool {
    &&& forall|j: int| 0 <= j < 9 ==> (#[trigger] g.unit_cell(k, i, j)).0 != 0
    &&& forall|d: int| 1 <= d <= 9 ==> #[trigger] digit_count(g, k, i, d, 9) == 1
}

/// Every unit of kind `k` is solved.
pub open spec fn kind_solved(g: Grid, k: Kind) -> bool {
    forall|i: int| 0 <= i < 9 ==> #[trigger] unit_solved(g, k, i)
}

/// Every box, column and row is solved.
pub open spec fn solved_spec(g: Grid) -> bool {
    kind_solved(g, Kind::Box) && kind_solved(g, Kind::Col) && kind_solved(g, Kind::Row)
}

/// Some cell has no candidate left.
pub open spec fn has_empty(g: Grid) -> bool {
    exists|r: int, c: int| 0 <= r < 9 && 0 <= c < 9 && (#[trigger] g.at(r, c)).0 == 0
}

/// The display width of a cell: its number of candidates, but 1 for a cell with all nine.
pub open spec fn cell_width(c: Cell) -> nat {
    if c.size() == 9 {
        1
    } else {
        c.size()
    }
}

/// Position `(r, c)` comes before `(r2, c2)` in row-major order.
pub open spec fn before_in_order(r: int, c: int, r2: int, c2: int) -> bool {
    r < r2 || (r == r2 && c < c2)
}

impl Grid {
    /// Returns whether some cell has no candidate left.
    pub fn empty_cell(&self) -> (res: bool)
        ensures
            res == has_empty(*self),
    {
        let mut r: usize = 0;
        while r < ROWS
            invariant
                r <= 9,
                forall|a: int, b: int| 0 <= a < r && 0 <= b < 9 ==> (#[trigger] self.at(a, b)).0 != 0,
            decreases 9 - r,
        {
            let mut c: usize = 0;
            while c < COLS
                invariant
                    r < 9,
                    c <= 9,
                    forall|a: int, b: int| 0 <= a < r && 0 <= b < 9 ==> (#[trigger] self.at(a, b)).0 != 0,
                    forall|b: int| 0 <= b < c ==> (#[trigger] self.at(r as int, b)).0 != 0,
                decreases 9 - c,
            {
                if self.cells[r][c].0 == 0 {
                    proof {
                        assert(self.at(r as int, c as int).0 == 0);
                    }
                    return true;
                }
                c += 1;
            }
            r += 1;
        }
        false
    }

    /// Returns the largest display width of a cell: the number of candidates of the cell, where
    /// a cell with all nine digits counts as 1 (it is shown as a single dot).
    pub fn max_width(&self) -> (width: usize)
        requires
            self.fits(),
        ensures
            forall|r: int, c: int| 0 <= r < 9 && 0 <= c < 9 ==> cell_width(#[trigger] self.at(r, c)) <= width,
            width == 0 || exists|r: int, c: int| 0 <= r < 9 && 0 <= c < 9 && cell_width(#[trigger] self.at(r, c)) == width,
    {
        let mut width: usize = 0;
        let mut r: usize = 0;
        while r < ROWS
            invariant
                r <= 9,
                self.fits(),
                forall|a: int, b: int| 0 <= a < r && 0 <= b < 9 ==> cell_width(#[trigger] self.at(a, b)) <= width,
                width == 0 || exists|a: int, b: int| 0 <= a < 9 && 0 <= b < 9 && cell_width(#[trigger] self.at(a, b)) == width,
            decreases 9 - r,
        {
            let mut c: usize = 0;
            while c < COLS
                invariant
                    r < 9,
                    c <= 9,
                    self.fits(),
                    forall|a: int, b: int| 0 <= a < r && 0 <= b < 9 ==> cell_width(#[trigger] self.at(a, b)) <= width,
                    forall|b: int| 0 <= b < c ==> cell_width(#[trigger] self.at(r as int, b)) <= width,
                    width == 0 || exists|a: int, b: int| 0 <= a < 9 && 0 <= b < 9 && cell_width(#[trigger] self.at(a, b)) == width,
                decreases 9 - c,
            {
                proof {
                    assert(self.at(r as int, c as int).fits());
                }
                let mut count = self.cells[r][c].count();
                if count == 9 {
                    count = 1;
                }
                if width < count {
                    width = count;
                    proof {
                        assert(cell_width(self.at(r as int, c as int)) == width);
                    }
                }
                c += 1;
            }
            r += 1;
        }
        width
    }

    /// Returns all 81 positions in row-major order.
    pub fn all_points(&self) -> (points: Vec<Point>)
        ensures
            points.len() == 81,
            forall|t: int| 0 <= t < 81 ==> #[trigger] points[t] == ((t / 9) as usize, (t % 9) as usize),
    {
        let mut points: Vec<Point> = Vec::new();
        let mut r: usize = 0;
        while r < ROWS
            invariant
                r <= 9,
                points.len() == r * 9,
                forall|t: int| 0 <= t < points.len() ==> #[trigger] points[t] == ((t / 9) as usize, (t % 9) as usize),
            decreases 9 - r,
        {
            let mut c: usize = 0;
            while c < COLS
                invariant
                    r < 9,
                    c <= 9,
                    points.len() == r * 9 + c,
                    forall|t: int| 0 <= t < points.len() ==> #[trigger] points[t] == ((t / 9) as usize, (t % 9) as usize),
                decreases 9 - c,
            {
                proof {
                    let t = r * 9 + c;
                    assert(t / 9 == r && t % 9 == c) by (nonlinear_arith)
                        requires
                            t == r * 9 + c,
                            c < 9,
                    ;
                }
                points.push((r, c));
                c += 1;
            }
            r += 1;
        }
        points
    }

    /// Returns whether every unit of `group` is solved: no cell empty and each digit a
    /// candidate of exactly one cell. Given cells must have at most one candidate.
    pub fn solved_group(&self, group: &Group) -> (res: bool)
        requires
            group.wf(),
            self.fits(),
            self.givens_fixed(),
        ensures
            res == kind_solved(*self, group.kind),
    {
        let ghost k = group.kind;
        let mut i: usize = 0;
        while i < 9
            invariant
                i <= 9,
                group.wf(),
                k == group.kind,
                self.fits(),
                self.givens_fixed(),
                forall|a: int| 0 <= a < i ==> #[trigger] unit_solved(*self, k, a),
            decreases 9 - i,
        {
            let mut cells: [u8; 10] = [0u8; 10];
            proof {
                broadcast use vstd::array::group_array_axioms;
                assert forall|d: int| 0 <= d < 10 implies #[trigger] cells[d] == 0 by {
                    assert(cells@[d] == 0);
                }
            }
            let mut j: usize = 0;
            while j < 9
                invariant
                    i < 9,
                    j <= 9,
                    group.wf(),
                    k == group.kind,
                    self.fits(),
                    self.givens_fixed(),
                    forall|b: int| 0 <= b < j ==> (#[trigger] self.unit_cell(k, i as int, b)).0 != 0,
                    forall|d: int| 1 <= d <= 9 ==> #[trigger] cells[d] == digit_count(*self, k, i as int, d, j as int),
                    forall|d: int| 1 <= d <= 9 ==> #[trigger] cells[d] <= j,
                decreases 9 - j,
            {
                let p = group.cells[i][j];
                let cell = self.cells[p.0][p.1];
                proof {
                    assert(self.at(p.0 as int, p.1 as int).fits());
                }
                if self.orig[p.0][p.1] {
                    proof {
                        assert(self.at(p.0 as int, p.1 as int).size() <= 1);
                    }
                }
                if cell == Cell(0) {
                    proof {
                        assert(self.unit_cell(k, i as int, j as int).0 == 0);
                        assert(!unit_solved(*self, k, i as int));
                    }
                    return false;
                }
                let mut d: usize = 1;
                while d <= 9
                    invariant
                        1 <= d <= 10,
                        i < 9,
                        j < 9,
                        cell == self.unit_cell(k, i as int, j as int),
                        forall|e: int| 1 <= e < d ==> #[trigger] cells[e] == digit_count(*self, k, i as int, e, j + 1),
                        forall|e: int| d <= e <= 9 ==> #[trigger] cells[e] == digit_count(*self, k, i as int, e, j as int),
                        forall|e: int| 1 <= e <= 9 ==> #[trigger] cells[e] <= j + 1,
                        forall|e: int| d <= e <= 9 ==> #[trigger] cells[e] <= j,
                    decreases 10 - d,
                {
                    if cell.0 & (1u16 << d as u16) != 0 {
                        cells[d] = cells[d] + 1;
                    }
                    d += 1;
                }
                j += 1;
            }
            let mut d: usize = 1;
            while d <= 9
                invariant
                    1 <= d <= 10,
                    i < 9,
                    k == group.kind,
                    forall|b: int| 0 <= b < 9 ==> (#[trigger] self.unit_cell(k, i as int, b)).0 != 0,
                    forall|e: int| 1 <= e <= 9 ==> #[trigger] cells[e] == digit_count(*self, k, i as int, e, 9),
                    forall|e: int| 1 <= e < d ==> #[trigger] digit_count(*self, k, i as int, e, 9) == 1,
                decreases 10 - d,
            {
                if cells[d] != 1 {
                    proof {
                        assert(digit_count(*self, k, i as int, d as int, 9) != 1);
                        assert(!unit_solved(*self, k, i as int));
                    }
                    return false;
                }
                d += 1;
            }
            i += 1;
        }
        true
    }

    /// Returns whether the grid is solved: every box, column and row is solved.
    pub fn solved(&self) -> (res: bool)
        requires
            self.fits(),
            self.givens_fixed(),
        ensures
            res == solved_spec(*self),
    {
        self.solved_group(&Group::new(Kind::Box)) && self.solved_group(&Group::new(Kind::Col))
            && self.solved_group(&Group::new(Kind::Row))
    }
}

/// A cell the search can branch on: more than one candidate, and fewer than ten.
pub open spec fn branchable(c: Cell) -> bool {
    1 < c.size() < 10
}

/// Returns the first cell, in row-major order, with the fewest candidates among the cells
/// with more than one (and fewer than ten), or `None` when there is no such cell.
pub fn min_more_than_one_digit(grid: &Grid) -> (point: Option<Point>)
    requires
        grid.fits(),
    ensures
        point is None <==> forall|r: int, c: int| 0 <= r < 9 && 0 <= c < 9 ==> !branchable(#[trigger] grid.at(r, c)),
        point matches Some(p) ==> {
            &&& p.0 < 9 && p.1 < 9
            &&& branchable(grid.at(p.0 as int, p.1 as int))
            &&& forall|r: int, c: int| 0 <= r < 9 && 0 <= c < 9 && branchable(#[trigger] grid.at(r, c))
                ==> grid.at(r, c).size() >= grid.at(p.0 as int, p.1 as int).size()
            &&& forall|r: int, c: int| 0 <= r < 9 && 0 <= c < 9 && branchable(#[trigger] grid.at(r, c))
                && before_in_order(r, c, p.0 as int, p.1 as int) ==> grid.at(r, c).size() > grid.at(p.0 as int, p.1 as int).size()
        },
{
    let mut maybe_point: Option<Point> = None;
    let mut min: usize = 10;
    let mut r: usize = 0;
    while r < ROWS
        invariant
            r <= 9,
            grid.fits(),
            maybe_point is None ==> min == 10,
            maybe_point is None ==> forall|a: int, b: int| 0 <= a < r && 0 <= b < 9 ==> !branchable(#[trigger] grid.at(a, b)),
            maybe_point matches Some(p) ==> {
                &&& p.0 < r && p.1 < 9
                &&& grid.at(p.0 as int, p.1 as int).size() == min
                &&& branchable(grid.at(p.0 as int, p.1 as int))
                &&& forall|a: int, b: int| 0 <= a < r && 0 <= b < 9 && branchable(#[trigger] grid.at(a, b)) ==> grid.at(a, b).size() >= min
                &&& forall|a: int, b: int| 0 <= a < r && 0 <= b < 9 && branchable(#[trigger] grid.at(a, b))
                    && before_in_order(a, b, p.0 as int, p.1 as int) ==> grid.at(a, b).size() > min
            },
        decreases 9 - r,
    {
        let mut c: usize = 0;
        while c < COLS
            invariant
                r < 9,
                c <= 9,
                grid.fits(),
                maybe_point is None ==> min == 10,
                maybe_point is None ==> forall|a: int, b: int| 0 <= a < r && 0 <= b < 9 ==> !branchable(#[trigger] grid.at(a, b)),
                maybe_point is None ==> forall|b: int| 0 <= b < c ==> !branchable(#[trigger] grid.at(r as int, b)),
                maybe_point matches Some(p) ==> {
                    &&& before_in_order(p.0 as int, p.1 as int, r as int, c as int)
                    &&& p.0 < 9 && p.1 < 9
                    &&& grid.at(p.0 as int, p.1 as int).size() == min
                    &&& branchable(grid.at(p.0 as int, p.1 as int))
                    &&& forall|a: int, b: int| 0 <= a < 9 && 0 <= b < 9 && before_in_order(a, b, r as int, c as int)
                        && branchable(#[trigger] grid.at(a, b)) ==> grid.at(a, b).size() >= min
                    &&& forall|a: int, b: int| 0 <= a < 9 && 0 <= b < 9 && branchable(#[trigger] grid.at(a, b))
                        && before_in_order(a, b, p.0 as int, p.1 as int) ==> grid.at(a, b).size() > min
                },
            decreases 9 - c,
        {
            let cell = grid.cells[r][c];
            proof {
                assert(grid.at(r as int, c as int).fits());
            }
            let count = cell.count();
            if count > 1 && count < min {
                maybe_point = Some((r, c));
                min = count;
            }
            c += 1;
        }
        r += 1;
    }
    maybe_point
}

} // verus!
