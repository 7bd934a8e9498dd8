//! Pointing line: a digit whose places in a box all lie on one line is removed from the rest of
//! that line.
use vstd::prelude::*;
use crate::bits::{has_bit, lemma_bit_or, lemma_bit_single, lemma_bit_zero, lemma_or_below, lemma_shift_grows};
use crate::grid::{Grid, Group, Kind, Point, box_index, box_of, unit_row, unit_col, differs, narrower, lemma_box_point_in_box,
    lemma_unit_in_range};
use crate::search::has_solution;
use crate::cell::Cell;
use crate::strategies::pass::{cells_of, grid_is, same_fn, unit_fn, clear_fn, lemma_clear_same};
use crate::model::{is_solution, compatible, narrows, sol_at, unit_holds, lemma_narrows_refl,
    lemma_narrows_trans, lemma_differs_stays};
use crate::strategies::{holders, holds_at, point_of, lemma_holders};

verus! {

/// The line of kind `k` (column or row) through point `p`.
pub open spec fn line_of(k: Kind, p: Point) -> int {
    if k == Kind::Col {
        p.1 as int
    } else {
        p.0 as int
    }
}

/// All places of digit `d` in box `b` lie on one line of kind `k`, and the cell at position
/// `j` of that line, outside the box, still has `d`.
pub open spec fn pointing_at(g: Grid, k: Kind, b: int, d: int, j: int) -> bool {
    let h = holders(g, Kind::Box, b, d, 9);
    let a = line_of(k, h[0]);
    &&& 1 <= d <= 9
    &&& h.len() > 0
    &&& forall|t: int| 0 <= t < h.len() ==> line_of(k, #[trigger] h[t]) == a
    &&& 0 <= j < 9
    &&& box_index(unit_row(k, a, j), unit_col(k, a, j)) != b
    &&& g.unit_cell(k, a, j).has(d)
}

/// A pointing line of kind `k` can remove a candidate.
pub open spec fn pointing_in(g: Grid, k: Kind) -> bool {
    exists|b: int, d: int, j: int| 0 <= b < 9 && #[trigger] pointing_at(g, k, b, d, j)
}

/// A pointing line (column or row) can remove a candidate somewhere in the grid.
pub open spec fn pointing_applies(g: Grid) -> bool {
    pointing_in(g, Kind::Col) || pointing_in(g, Kind::Row)
}

/// Digit `d` has a place in box `b`, and all of its places there lie on line `a` of kind `k`.
pub open spec fn box_on_line(g: Grid, k: Kind, b: int, d: int, a: int) -> bool {
    &&& 1 <= d <= 9
    &&& exists|j: int| 0 <= j < 9 && #[trigger] g.unit_cell(Kind::Box, b, j).has(d)
    &&& forall|j: int| 0 <= j < 9 && #[trigger] g.unit_cell(Kind::Box, b, j).has(d) ==> line_of(k, point_of(Kind::Box, b, j)) == a
}

/// Digit `d` has a place in box `b` of `f`, and all of its places there lie on line `a` of
/// kind `k`.
pub open spec fn on_line_fn(f: spec_fn(int, int) -> Cell, k: Kind, b: int, d: int, a: int) -> bool {
    &&& 1 <= d <= 9
    &&& exists|j: int| 0 <= j < 9 && #[trigger] unit_fn(f, Kind::Box, b, j).has(d)
    &&& forall|j: int| 0 <= j < 9 && #[trigger] unit_fn(f, Kind::Box, b, j).has(d) ==> line_of(k, point_of(Kind::Box, b, j)) == a
}

/// The line of kind `k` that holds all places of digit `d` in box `b` of `s`, or -1 if there is
/// no such line.
pub open spec fn pl_line(s: spec_fn(int, int) -> Cell, k: Kind, b: int, d: int) -> int {
    if exists|a: int| #[trigger] on_line_fn(s, k, b, d, a) {
        choose|a: int| #[trigger] on_line_fn(s, k, b, d, a)
    } else {
        -1
    }
}

/// One step of the pass: if the places of digit `d` in box `b` all lie on one line in `s`
/// (the box's state when the pass reached it), `d` is removed from that line outside the box.
pub open spec fn pl_step(f: spec_fn(int, int) -> Cell, s: spec_fn(int, int) -> Cell, k: Kind, b: int, d: int) -> spec_fn(
    int,
    int,
) -> Cell {
    let a = pl_line(s, k, b, d);
    if 0 <= a {
        clear_fn(f, k, a, |j: int| box_index(unit_row(k, a, j), unit_col(k, a, j)) == b, 1u16 << d as u16)
    } else {
        f
    }
}

/// The steps for digits 1 to `n` of box `b`, with the places read in `s`.
pub open spec fn pl_digits(f: spec_fn(int, int) -> Cell, s: spec_fn(int, int) -> Cell, k: Kind, b: int, n: int) -> spec_fn(
    int,
    int,
) -> Cell
    decreases n,
{
    if n <= 0 {
        f
    } else {
        pl_step(pl_digits(f, s, k, b, n - 1), s, k, b, n)
    }
}

/// The pass over the first `n` boxes, in order.
pub open spec fn pl_pass(f: spec_fn(int, int) -> Cell, k: Kind, n: int) -> spec_fn(int, int) -> Cell
    decreases n,
{
    if n <= 0 {
        f
    } else {
        pl_digits(pl_pass(f, k, n - 1), pl_pass(f, k, n - 1), k, n - 1, 9)
    }
}

/// What `pointing_line` makes of `g`: the pass along the columns if it can act there, else
/// along the rows.
pub open spec fn pointing_result(g: Grid) -> spec_fn(int, int) -> Cell {
    if pointing_in(g, Kind::Col) {
        pl_pass(cells_of(g), Kind::Col, 9)
    } else {
        pl_pass(cells_of(g), Kind::Row, 9)
    }
}

/// Where the places of digit `d` in box `b` all lie on one line in `g0`, no cell of that line
/// outside the box has `d` in `g`.
pub open spec fn pointed_cleared(g0: Grid, g: Grid, k: Kind, b: int, d: int) -> bool {
    forall|a: int, j: int|
        box_on_line(g0, k, b, d, a) && 0 <= j < 9 && box_index(unit_row(k, a, j), unit_col(k, a, j)) != b
            ==> !#[trigger] g.unit_cell(k, a, j).has(d)
}

/// Every digit whose places in a box of `g0` all lie on one line of kind `k` is gone, in `g`,
/// from the rest of that line.
pub open spec fn pointing_cleared(g0: Grid, g: Grid, k: Kind) -> bool {
    forall|b: int, d: int| 0 <= b < 9 && 1 <= d <= 9 ==> #[trigger] pointed_cleared(g0, g, k, b, d)
}

/// Where a completed sudoku fits `g0`, a digit whose places in a box lie on one line keeps
/// them there in every grid that `g0` narrows to.
proof fn lemma_on_line_stays(g0: Grid, g: Grid, k: Kind, b: int, d: int, a: int)
    requires
        has_solution(g0),
        narrows(g0, g),
        0 <= b < 9,
        box_on_line(g0, k, b, d, a),
    ensures
        box_on_line(g, k, b, d, a),
{
    let s = choose|s: spec_fn(int, int) -> int| is_solution(s) && #[trigger] compatible(g0, s);
    assert(compatible(g, s));
    assert(unit_holds(s, Kind::Box, b, d));
    let jb = choose|jj: int| 0 <= jj < 9 && #[trigger] sol_at(s, Kind::Box, b, jj) == d;
    lemma_unit_in_range(Kind::Box, b, jb);
    assert(g.unit_cell(Kind::Box, b, jb).has(d));
    assert forall|j: int| 0 <= j < 9 && #[trigger] g.unit_cell(Kind::Box, b, j).has(d) implies line_of(k, point_of(Kind::Box, b, j)) == a by {
        lemma_unit_in_range(Kind::Box, b, j);
        assert(g.unit_cell(Kind::Box, b, j).within(g0.unit_cell(Kind::Box, b, j)));
        crate::bits::lemma_subset_bit(g.unit_cell(Kind::Box, b, j).0, g0.unit_cell(Kind::Box, b, j).0, d);
        assert(g0.unit_cell(Kind::Box, b, j).has(d));
    }
}

/// A cleared line stays cleared under further narrowing.
proof fn lemma_pointed_stays(g0: Grid, x: Grid, y: Grid, k: Kind, b: int, d: int)
    requires
        narrower(y, x),
        0 <= b < 9,
        k != Kind::Box,
        pointed_cleared(g0, x, k, b, d),
    ensures
        pointed_cleared(g0, y, k, b, d),
{
    assert forall|a: int, j: int|
        box_on_line(g0, k, b, d, a) && 0 <= j < 9 && box_index(unit_row(k, a, j), unit_col(k, a, j)) != b
            implies !#[trigger] y.unit_cell(k, a, j).has(d) by {
        let jw = choose|jj: int| 0 <= jj < 9 && #[trigger] g0.unit_cell(Kind::Box, b, jj).has(d);
        lemma_unit_in_range(Kind::Box, b, jw);
        assert(0 <= a < 9);
        lemma_unit_in_range(k, a, j);
        assert(y.unit_cell(k, a, j).within(x.unit_cell(k, a, j)));
        assert(!x.unit_cell(k, a, j).has(d));
        if y.unit_cell(k, a, j).has(d) {
            crate::bits::lemma_subset_bit(y.unit_cell(k, a, j).0, x.unit_cell(k, a, j).0, d);
        }
    }
}

/// Returns the line of kind `k` (column or row) through `p`.
pub fn line_index(k: Kind, p: Point) -> (a: usize)
    requires
        k != Kind::Box,
    ensures
        a == line_of(k, p),
{
    match k {
        Kind::Col => p.1,
        _ => p.0,
    }
}

impl Group {
    /// Returns the mask of the positions of line `a` of this group that lie in box `b`.
    pub(crate) fn positions_in_box(&self, a: usize, b: usize) -> (keep: u16)
        requires
            self.wf(),
            a < 9,
        ensures
            forall|j: int| 0 <= j < 16 ==> #[trigger] has_bit(keep, j) == (j < 9 && box_index(
                unit_row(self.kind, a as int, j),
                unit_col(self.kind, a as int, j),
            ) == b),
    {
        let mut keep: u16 = 0;
        proof {
            assert forall|j: int| 0 <= j < 16 implies !#[trigger] has_bit(0u16, j) by {
                lemma_bit_zero(j);
            }
        }
        let mut j: usize = 0;
        while j < 9
            invariant
                j <= 9,
                a < 9,
                self.wf(),
                forall|t: int| 0 <= t < 16 ==> #[trigger] has_bit(keep, t) == (t < j && box_index(
                    unit_row(self.kind, a as int, t),
                    unit_col(self.kind, a as int, t),
                ) == b),
            decreases 9 - j,
        {
            let p = self.cells[a][j];
            if box_of(p.0, p.1) == b {
                let old_keep = keep;
                keep = keep | (1u16 << j as u16);
                proof {
                    assert forall|t: int| 0 <= t < 16 implies #[trigger] has_bit(keep, t) == (t < j + 1 && box_index(
                        unit_row(self.kind, a as int, t),
                        unit_col(self.kind, a as int, t),
                    ) == b) by {
                        lemma_bit_or(old_keep, 1u16 << j as u16, t);
                        lemma_bit_single(j as u16, t);
                    }
                }
            }
            j += 1;
        }
        keep
    }
}

impl Grid {
    /// pointing_line removes candidates: when the places of a digit within a box all lie in
    /// one column (then one row), the digit is removed from the cells of that line outside the
    /// box. A digit with no place left in a box is passed over. Columns are tried first; rows
    /// only when the column pass changed nothing. Returns true if it changed any cell.
    pub fn pointing_line(&mut self) -> (res: bool)
        ensures
            narrows(*old(self), *final(self)),
            res == differs(*final(self), *old(self)),
            res == pointing_applies(*old(self)),
            grid_is(*final(self), pointing_result(*old(self))),
            has_solution(*old(self)) && pointing_in(*old(self), Kind::Col) ==> pointing_cleared(
                *old(self),
                *final(self),
                Kind::Col,
            ),
            has_solution(*old(self)) && !pointing_in(*old(self), Kind::Col) ==> pointing_cleared(
                *old(self),
                *final(self),
                Kind::Row,
            ),
    {
        let ghost g0 = *self;
        let boxes = Group::new(Kind::Box);
        if self.pointing_line_group(&boxes, &Group::new(Kind::Col)) {
            return true;
        }
        self.pointing_line_group(&boxes, &Group::new(Kind::Row))
    }

    pub fn pointing_line_group(&mut self, boxes: &Group, lines: &Group) -> (res: bool)
        requires
            boxes.wf(),
            boxes.kind == Kind::Box,
            lines.wf(),
            lines.kind != Kind::Box,
        ensures
            narrows(*old(self), *final(self)),
            res == differs(*final(self), *old(self)),
            !res ==> *final(self) == *old(self),
            res == pointing_in(*old(self), lines.kind),
            has_solution(*old(self)) ==> pointing_cleared(*old(self), *final(self), lines.kind),
            grid_is(*final(self), pl_pass(cells_of(*old(self)), lines.kind, 9)),
    {
        let ghost g0 = *self;
        let ghost k = lines.kind;
        let mut res = false;
        proof {
            lemma_narrows_refl(g0);
        }
        let mut bi: usize = 0;
        while bi < 9
            invariant
                bi <= 9,
                g0 == *old(self),
                boxes.wf(),
                boxes.kind == Kind::Box,
                lines.wf(),
                k == lines.kind,
                k != Kind::Box,
                narrows(g0, *self),
                res == differs(*self, g0),
                !res ==> *self == g0,
                res ==> pointing_in(g0, k),
                !res ==> forall|b: int, d: int, j: int| 0 <= b < bi ==> !#[trigger] pointing_at(g0, k, b, d, j),
                has_solution(g0) ==> forall|b: int, e: int| 0 <= b < bi && 1 <= e <= 9 ==> #[trigger] pointed_cleared(g0, *self, k, b, e),
                grid_is(*self, pl_pass(cells_of(g0), k, bi as int)),
            decreases 9 - bi,
        {
            let ghost g1 = *self;
            let points = self.digit_points(boxes, bi);
            proof {
                lemma_narrows_refl(g1);
            }
            let mut d: usize = 1;
            while d <= 9
                invariant
                    1 <= d <= 10,
                    bi < 9,
                    g0 == *old(self),
                    boxes.wf(),
                    boxes.kind == Kind::Box,
                    lines.wf(),
                    k == lines.kind,
                    k != Kind::Box,
                    points.len() == 10,
                    forall|e: int| 1 <= e <= 9 ==> #[trigger] points[e]@ == holders(g1, Kind::Box, bi as int, e, 9),
                    narrows(g0, g1),
                    narrows(g1, *self),
                    !res ==> g1 == g0,
                    res == differs(*self, g0),
                    !res ==> *self == g0,
                    res ==> pointing_in(g0, k),
                    !res ==> forall|b: int, e: int, j: int| 0 <= b < bi ==> !#[trigger] pointing_at(g0, k, b, e, j),
                    !res ==> forall|e: int, j: int| e < d ==> !#[trigger] pointing_at(g0, k, bi as int, e, j),
                    has_solution(g0) ==> forall|b: int, e: int| 0 <= b < bi && 1 <= e <= 9 ==> #[trigger] pointed_cleared(g0, *self, k, b, e),
                    has_solution(g0) ==> forall|e: int| 1 <= e < d ==> #[trigger] pointed_cleared(g0, *self, k, bi as int, e),
                    grid_is(g1, pl_pass(cells_of(g0), k, bi as int)),
                    grid_is(*self, pl_digits(pl_pass(cells_of(g0), k, bi as int), pl_pass(cells_of(g0), k, bi as int), k, bi as int, d - 1)),
                decreases 10 - d,
            {
                let ghost h = holders(g1, Kind::Box, bi as int, d as int, 9);
                let ghost fl = pl_pass(cells_of(g0), k, bi as int);
                let ghost fd = pl_digits(fl, fl, k, bi as int, d - 1);
                proof {
                    lemma_holders(g1, Kind::Box, bi as int, d as int, 9);
                }
                if points[d].len() == 0 {
                    proof {
                        if !res {
                            assert forall|j: int| true implies !#[trigger] pointing_at(g0, k, bi as int, d as int, j) by {}
                        }
                        if has_solution(g0) {
                            assert forall|a: int, j: int|
                                box_on_line(g0, k, bi as int, d as int, a) && 0 <= j < 9 && box_index(unit_row(k, a, j), unit_col(k, a, j)) != bi
                                    implies !#[trigger] self.unit_cell(k, a, j).has(d as int) by {
                                lemma_on_line_stays(g0, g1, k, bi as int, d as int, a);
                                let jw = choose|jj: int| 0 <= jj < 9 && #[trigger] g1.unit_cell(Kind::Box, bi as int, jj).has(d as int);
                                lemma_holders(g1, Kind::Box, bi as int, d as int, 9);
                                assert(h.contains(point_of(Kind::Box, bi as int, jw)));
                            }
                            assert(pointed_cleared(g0, *self, k, bi as int, d as int));
                        }
                        if exists|a: int| #[trigger] on_line_fn(fl, k, bi as int, d as int, a) {
                            let a = choose|a: int| #[trigger] on_line_fn(fl, k, bi as int, d as int, a);
                            let j = choose|j: int| 0 <= j < 9 && #[trigger] unit_fn(fl, Kind::Box, bi as int, j).has(d as int);
                            lemma_unit_in_range(Kind::Box, bi as int, j);
                            assert(g1.unit_cell(Kind::Box, bi as int, j).has(d as int));
                            assert(h.contains(point_of(Kind::Box, bi as int, j)));
                        }
                        assert(pl_line(fl, k, bi as int, d as int) == -1);
                        assert(grid_is(*self, pl_digits(fl, fl, k, bi as int, d as int)));
                    }
                } else {
                let p0 = points[d][0];
                proof {
                    lemma_holders(g1, Kind::Box, bi as int, d as int, 9);
                    assert(holds_at(g1, Kind::Box, bi as int, d as int, 9, h[0]));
                    let j = choose|j: int| 0 <= j < 9 && g1.unit_cell(Kind::Box, bi as int, j).has(d as int)
                        && h[0] == #[trigger] point_of(Kind::Box, bi as int, j);
                    lemma_unit_in_range(Kind::Box, bi as int, j);
                }
                let a = line_index(lines.kind, p0);
                let mut same = true;
                let mut t: usize = 1;
                while t < points[d].len() && same
                    invariant
                        1 <= d <= 9,
                        points.len() == 10,
                        points[d as int]@ == h,
                        a == line_of(k, h[0]),
                        k != Kind::Box,
                        k == lines.kind,
                        1 <= t <= h.len(),
                        same ==> forall|u: int| 0 <= u < t ==> line_of(k, #[trigger] h[u]) == a,
                        !same ==> exists|u: int| 0 <= u < h.len() && line_of(k, #[trigger] h[u]) != a,
                    decreases h.len() - t,
                {
                    if line_index(lines.kind, points[d][t]) != a {
                        same = false;
                        proof {
                            assert(line_of(k, h[t as int]) != a);
                        }
                    }
                    t += 1;
                }
                if same {
                    let keep = lines.positions_in_box(a, bi);
                    let ghost before = *self;
                    proof {
                        lemma_pointing_sound(g1, k, bi as int, d as int);
                        assert forall|s: spec_fn(int, int) -> int, j: int|
                            is_solution(s) && #[trigger] compatible(before, s) && 0 <= j < 9 && !has_bit(keep, j)
                                implies !has_bit(1u16 << d as u16, #[trigger] sol_at(s, k, a as int, j)) by {
                            crate::model::lemma_compatible_wider(before, g1, s);
                            lemma_bit_single(d as u16, sol_at(s, k, a as int, j));
                        }
                    }
                    let ch = self.clear_unit(lines, a, keep, 1u16 << d as u16);
                    proof {
                        assert(holds_at(g1, Kind::Box, bi as int, d as int, 9, h[0]));
                        let j0 = choose|jj: int| 0 <= jj < 9 && g1.unit_cell(Kind::Box, bi as int, jj).has(d as int)
                            && h[0] == #[trigger] point_of(Kind::Box, bi as int, jj);
                        lemma_unit_in_range(Kind::Box, bi as int, j0);
                        assert(unit_fn(fl, Kind::Box, bi as int, j0).has(d as int));
                        assert forall|j: int| 0 <= j < 9 && #[trigger] unit_fn(fl, Kind::Box, bi as int, j).has(d as int) implies line_of(
                            k,
                            point_of(Kind::Box, bi as int, j),
                        ) == a by {
                            lemma_unit_in_range(Kind::Box, bi as int, j);
                            assert(g1.unit_cell(Kind::Box, bi as int, j).has(d as int));
                            assert(h.contains(point_of(Kind::Box, bi as int, j)));
                            let t = choose|t: int| 0 <= t < h.len() && h[t] == point_of(Kind::Box, bi as int, j);
                            assert(line_of(k, h[t]) == a);
                        }
                        assert(on_line_fn(fl, k, bi as int, d as int, a as int));
                        let a2 = choose|a2: int| #[trigger] on_line_fn(fl, k, bi as int, d as int, a2);
                        assert(line_of(k, point_of(Kind::Box, bi as int, j0)) == a2);
                        assert(pl_line(fl, k, bi as int, d as int) == a);
                        assert(same_fn(cells_of(before), fd));
                        lemma_clear_same(cells_of(before), fd, k, a as int, |j: int| has_bit(keep, j), |j: int| box_index(unit_row(k, a as int, j), unit_col(k, a as int, j)) == bi, 1u16 << d as u16);
                        assert(grid_is(*self, pl_digits(fl, fl, k, bi as int, d as int)));
                    }
                    proof {
                        if has_solution(g0) {
                            assert forall|b: int, e: int| 0 <= b < bi && 1 <= e <= 9 implies #[trigger] pointed_cleared(g0, *self, k, b, e) by {
                                lemma_pointed_stays(g0, before, *self, k, b, e);
                            }
                            assert forall|e: int| 1 <= e < d + 1 implies #[trigger] pointed_cleared(g0, *self, k, bi as int, e) by {
                                if e < d {
                                    lemma_pointed_stays(g0, before, *self, k, bi as int, e);
                                } else {
                                    assert forall|a2: int, j: int|
                                        box_on_line(g0, k, bi as int, e, a2) && 0 <= j < 9 && box_index(unit_row(k, a2, j), unit_col(k, a2, j)) != bi
                                            implies !#[trigger] self.unit_cell(k, a2, j).has(e) by {
                                        lemma_on_line_stays(g0, g1, k, bi as int, e, a2);
                                        lemma_holders(g1, Kind::Box, bi as int, e, 9);
                                        assert(holds_at(g1, Kind::Box, bi as int, e, 9, h[0]));
                                        let j0 = choose|jj: int| 0 <= jj < 9 && g1.unit_cell(Kind::Box, bi as int, jj).has(e)
                                            && h[0] == #[trigger] point_of(Kind::Box, bi as int, jj);
                                        assert(a2 == a);
                                        assert(!has_bit(keep, j));
                                        assert(self.unit_cell(k, a as int, j).0 & (1u16 << d as u16) == 0);
                                    }
                                }
                            }
                        }
                        lemma_narrows_trans(g1, before, *self);
                        lemma_narrows_trans(g0, g1, *self);
                        if res {
                            lemma_narrows_trans(g0, g1, before);
                            lemma_differs_stays(g0, before, *self);
                        } else {
                            assert(before == g0);
                            if ch {
                                let j = choose|j: int| 0 <= j < 9 && !has_bit(keep, j)
                                    && #[trigger] g0.unit_cell(k, a as int, j).0 & (1u16 << d as u16) != 0;
                                assert(pointing_at(g0, k, bi as int, d as int, j));
                            } else {
                                assert forall|j: int| true implies !#[trigger] pointing_at(g0, k, bi as int, d as int, j) by {
                                    if pointing_at(g0, k, bi as int, d as int, j) {
                                        assert(!has_bit(keep, j));
                                        assert(g0.unit_cell(k, a as int, j).0 & (1u16 << d as u16) != 0);
                                    }
                                }
                            }
                        }
                    }
                    if ch {
                        res = true;
                    }
                } else {
                    proof {
                        if !res {
                            assert forall|j: int| true implies !#[trigger] pointing_at(g0, k, bi as int, d as int, j) by {
                            }
                        }
                        if has_solution(g0) {
                            assert forall|a2: int, j: int|
                                box_on_line(g0, k, bi as int, d as int, a2) && 0 <= j < 9 && box_index(unit_row(k, a2, j), unit_col(k, a2, j)) != bi
                                    implies !#[trigger] self.unit_cell(k, a2, j).has(d as int) by {
                                lemma_on_line_stays(g0, g1, k, bi as int, d as int, a2);
                                lemma_holders(g1, Kind::Box, bi as int, d as int, 9);
                                let u = choose|u: int| 0 <= u < h.len() && line_of(k, #[trigger] h[u]) != a;
                                assert(holds_at(g1, Kind::Box, bi as int, d as int, 9, h[u]));
                                assert(holds_at(g1, Kind::Box, bi as int, d as int, 9, h[0]));
                                let ju = choose|jj: int| 0 <= jj < 9 && g1.unit_cell(Kind::Box, bi as int, jj).has(d as int)
                                    && h[u] == #[trigger] point_of(Kind::Box, bi as int, jj);
                                let j0 = choose|jj: int| 0 <= jj < 9 && g1.unit_cell(Kind::Box, bi as int, jj).has(d as int)
                                    && h[0] == #[trigger] point_of(Kind::Box, bi as int, jj);
                            }
                            assert(pointed_cleared(g0, *self, k, bi as int, d as int));
                        }
                        if exists|a2: int| #[trigger] on_line_fn(fl, k, bi as int, d as int, a2) {
                            let a2 = choose|a2: int| #[trigger] on_line_fn(fl, k, bi as int, d as int, a2);
                            let u = choose|u: int| 0 <= u < h.len() && line_of(k, #[trigger] h[u]) != a;
                            assert(holds_at(g1, Kind::Box, bi as int, d as int, 9, h[u]));
                            assert(holds_at(g1, Kind::Box, bi as int, d as int, 9, h[0]));
                            let ju = choose|jj: int| 0 <= jj < 9 && g1.unit_cell(Kind::Box, bi as int, jj).has(d as int)
                                && h[u] == #[trigger] point_of(Kind::Box, bi as int, jj);
                            let j0 = choose|jj: int| 0 <= jj < 9 && g1.unit_cell(Kind::Box, bi as int, jj).has(d as int)
                                && h[0] == #[trigger] point_of(Kind::Box, bi as int, jj);
                            lemma_unit_in_range(Kind::Box, bi as int, ju);
                            lemma_unit_in_range(Kind::Box, bi as int, j0);
                            assert(unit_fn(fl, Kind::Box, bi as int, ju).has(d as int));
                            assert(unit_fn(fl, Kind::Box, bi as int, j0).has(d as int));
                        }
                        assert(pl_line(fl, k, bi as int, d as int) == -1);
                        assert(grid_is(*self, pl_digits(fl, fl, k, bi as int, d as int)));
                    }
                }
                }
                d += 1;
            }
            proof {
                lemma_narrows_trans(g0, g1, *self);
                assert forall|e: int, j: int| !(1 <= e <= 9) implies !#[trigger] pointing_at(g0, k, bi as int, e, j) by {}
            }
            bi += 1;
        }
        res
    }
}

/// Every completed board fitting `g` puts digit `d` of box `b` on the line that holds all of
/// its places, so no other cell of that line outside the box takes `d`.
pub proof fn lemma_pointing_sound(g: Grid, k: Kind, b: int, d: int)
    requires
        0 <= b < 9,
        1 <= d <= 9,
        k != Kind::Box,
        holders(g, Kind::Box, b, d, 9).len() > 0,
        forall|t: int| 0 <= t < holders(g, Kind::Box, b, d, 9).len() ==> line_of(k, #[trigger] holders(g, Kind::Box, b, d, 9)[t])
            == line_of(k, holders(g, Kind::Box, b, d, 9)[0]),
    ensures
        forall|s: spec_fn(int, int) -> int, j: int|
            is_solution(s) && #[trigger] compatible(g, s) && 0 <= j < 9 && box_index(
                unit_row(k, line_of(k, holders(g, Kind::Box, b, d, 9)[0]), j),
                unit_col(k, line_of(k, holders(g, Kind::Box, b, d, 9)[0]), j),
            ) != b ==> #[trigger] sol_at(s, k, line_of(k, holders(g, Kind::Box, b, d, 9)[0]), j) != d,
{
    let h = holders(g, Kind::Box, b, d, 9);
    let a = line_of(k, h[0]);
    lemma_holders(g, Kind::Box, b, d, 9);
    assert forall|s: spec_fn(int, int) -> int, j: int|
        is_solution(s) && #[trigger] compatible(g, s) && 0 <= j < 9 && box_index(unit_row(k, a, j), unit_col(k, a, j)) != b
            implies #[trigger] sol_at(s, k, a, j) != d by {
        assert(unit_holds(s, Kind::Box, b, d));
        let jb = choose|jj: int| 0 <= jj < 9 && #[trigger] sol_at(s, Kind::Box, b, jj) == d;
        lemma_unit_in_range(Kind::Box, b, jb);
        lemma_box_point_in_box(b, jb);
        assert(g.unit_cell(Kind::Box, b, jb).has(d));
        let q = point_of(Kind::Box, b, jb);
        assert(h.contains(q));
        let t = choose|t: int| 0 <= t < h.len() && h[t] == q;
        assert(line_of(k, h[t]) == a);
        // q is the cell at position jq of line a
        let jq = if k == Kind::Col { q.0 as int } else { q.1 as int };
        assert(unit_row(k, a, jq) == q.0 && unit_col(k, a, jq) == q.1);
        assert(sol_at(s, k, a, jq) == d);
        assert(jq != j);
    }
}

} // verus!
