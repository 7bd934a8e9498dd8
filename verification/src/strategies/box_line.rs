//! Box-line reduction: a digit whose places on a line all lie in one box is removed from the
//! rest of that box.
use vstd::prelude::*;
use crate::bits::{has_bit, lemma_bit_or, lemma_bit_single, lemma_bit_zero, lemma_subset_bit};
use crate::grid::{Grid, Group, Kind, box_index, unit_row, unit_col, differs, narrower, lemma_unit_in_range};
use crate::search::has_solution;
use crate::cell::Cell;
use crate::strategies::pass::{cells_of, grid_is, same_fn, unit_fn, clear_fn, lemma_clear_same};
use crate::model::{is_solution, compatible, narrows, sol_at, unit_holds, lemma_narrows_refl,
    lemma_narrows_trans, lemma_differs_stays};
use crate::strategies::point_of;
use crate::strategies::pointing_line::line_of;

verus! {

/// Some cell of segment `x` (positions `3x .. 3x+3`) of line `i` of kind `k` has digit `d`.
pub open spec fn seg_has(g: Grid, k: Kind, i: int, d: int, x: int) -> bool {
    exists|j: int| 0 <= j < 9 && j / 3 == x && #[trigger] g.unit_cell(k, i, j).has(d)
}

/// The places of digit `d` on line `i` lie in segment `x` only.
pub open spec fn confined(g: Grid, k: Kind, i: int, d: int, x: int) -> bool {
    &&& 0 <= x < 3
    &&& seg_has(g, k, i, d, x)
    &&& forall|y: int| 0 <= y < 3 && y != x ==> !#[trigger] seg_has(g, k, i, d, y)
}

/// The box that segment `x` of line `i` of kind `k` runs through.
pub open spec fn seg_box(k: Kind, i: int, x: int) -> int {
    if k == Kind::Col {
        x * 3 + i / 3
    } else {
        i / 3 * 3 + x
    }
}

/// Digit `d` on line `i` is confined to segment `x`, and the `j`-th cell of that segment's box,
/// off the line, still has `d`.
pub open spec fn box_line_at(g: Grid, k: Kind, i: int, d: int, x: int, j: int) -> bool {
    let b = seg_box(k, i, x);
    &&& 1 <= d <= 9
    &&& confined(g, k, i, d, x)
    &&& 0 <= j < 9
    &&& line_of(k, point_of(Kind::Box, b, j)) != i
    &&& g.unit_cell(Kind::Box, b, j).has(d)
}

/// A box-line reduction along lines of kind `k` can remove a candidate.
pub open spec fn box_line_in(g: Grid, k: Kind) -> bool {
    exists|i: int, d: int, x: int, j: int| 0 <= i < 9 && #[trigger] box_line_at(g, k, i, d, x, j)
}

/// A box-line reduction can remove a candidate somewhere in the grid.
pub open spec fn box_line_applies(g: Grid) -> bool {
    box_line_in(g, Kind::Col) || box_line_in(g, Kind::Row)
}

/// Some cell of segment `x` of line `i` of kind `k` has digit `d` in `f`.
pub open spec fn seg_has_fn(f: spec_fn(int, int) -> Cell, k: Kind, i: int, d: int, x: int) -> bool {
    exists|j: int| 0 <= j < 9 && j / 3 == x && #[trigger] unit_fn(f, k, i, j).has(d)
}

/// The one segment of line `ci` that has digit `d` in `s`, or 3 if it has none or several.
pub open spec fn bl_index(s: spec_fn(int, int) -> Cell, k: Kind, ci: int, d: int) -> int {
    let s0 = seg_has_fn(s, k, ci, d, 0);
    let s1 = seg_has_fn(s, k, ci, d, 1);
    let s2 = seg_has_fn(s, k, ci, d, 2);
    if s0 && !s1 && !s2 {
        0
    } else if !s0 && s1 && !s2 {
        1
    } else if !s0 && !s1 && s2 {
        2
    } else {
        3
    }
}

/// One step of the pass: if digit `d` lies in one segment of line `ci` in `s` (the line's
/// state when the pass reached it), `d` is removed from the cells of that segment's box off
/// the line.
pub open spec fn bl_step(f: spec_fn(int, int) -> Cell, s: spec_fn(int, int) -> Cell, k: Kind, ci: int, d: int) -> spec_fn(
    int,
    int,
) -> Cell {
    let x = bl_index(s, k, ci, d);
    if x < 3 {
        clear_fn(f, Kind::Box, seg_box(k, ci, x), |j: int| line_of(k, point_of(Kind::Box, seg_box(k, ci, x), j)) == ci, 1u16 << d as u16)
    } else {
        f
    }
}

/// The steps for digits 1 to `n` of line `ci`, with the segments read in `s`.
pub open spec fn bl_digits(f: spec_fn(int, int) -> Cell, s: spec_fn(int, int) -> Cell, k: Kind, ci: int, n: int) -> spec_fn(
    int,
    int,
) -> Cell
    decreases n,
{
    if n <= 0 {
        f
    } else {
        bl_step(bl_digits(f, s, k, ci, n - 1), s, k, ci, n)
    }
}

/// The pass over the first `n` lines of kind `k`, in order.
pub open spec fn bl_pass(f: spec_fn(int, int) -> Cell, k: Kind, n: int) -> spec_fn(int, int) -> Cell
    decreases n,
{
    if n <= 0 {
        f
    } else {
        bl_digits(bl_pass(f, k, n - 1), bl_pass(f, k, n - 1), k, n - 1, 9)
    }
}

/// What `box_line` makes of `g`: the pass along the columns if it can act there, else along
/// the rows.
pub open spec fn box_line_result(g: Grid) -> spec_fn(int, int) -> Cell {
    if box_line_in(g, Kind::Col) {
        bl_pass(cells_of(g), Kind::Col, 9)
    } else {
        bl_pass(cells_of(g), Kind::Row, 9)
    }
}

/// A grid and a function that agree on every cell agree on the segments of a digit.
proof fn lemma_seg_has_fn(g: Grid, f: spec_fn(int, int) -> Cell, k: Kind, i: int, d: int, x: int)
    requires
        grid_is(g, f),
        0 <= i < 9,
    ensures
        seg_has(g, k, i, d, x) == seg_has_fn(f, k, i, d, x),
{
    if seg_has(g, k, i, d, x) {
        let j = choose|j: int| 0 <= j < 9 && j / 3 == x && #[trigger] g.unit_cell(k, i, j).has(d);
        lemma_unit_in_range(k, i, j);
        assert(unit_fn(f, k, i, j) == g.unit_cell(k, i, j));
    }
    if seg_has_fn(f, k, i, d, x) {
        let j = choose|j: int| 0 <= j < 9 && j / 3 == x && #[trigger] unit_fn(f, k, i, j).has(d);
        lemma_unit_in_range(k, i, j);
        assert(unit_fn(f, k, i, j) == g.unit_cell(k, i, j));
    }
}

/// Where digit `d` of line `i` is confined to one segment in `g0`, no cell of that segment's
/// box off the line has `d` in `g`.
pub open spec fn confined_cleared(g0: Grid, g: Grid, k: Kind, i: int, d: int) -> bool {
    forall|x: int, j: int|
        confined(g0, k, i, d, x) && 0 <= j < 9 && line_of(k, point_of(Kind::Box, seg_box(k, i, x), j)) != i
            ==> !#[trigger] g.unit_cell(Kind::Box, seg_box(k, i, x), j).has(d)
}

/// Every digit confined to one segment of a line of kind `k` in `g0` is gone, in `g`, from
/// the rest of that segment's box.
pub open spec fn box_line_cleared(g0: Grid, g: Grid, k: Kind) -> bool {
    forall|i: int, d: int| 0 <= i < 9 && 1 <= d <= 9 ==> #[trigger] confined_cleared(g0, g, k, i, d)
}

/// A cleared box cell stays cleared under further narrowing.
proof fn lemma_cleared_stays(g0: Grid, a: Grid, b: Grid, k: Kind, i: int, d: int)
    requires
        narrower(b, a),
        0 <= i < 9,
        confined_cleared(g0, a, k, i, d),
    ensures
        confined_cleared(g0, b, k, i, d),
{
    assert forall|x: int, j: int|
        confined(g0, k, i, d, x) && 0 <= j < 9 && line_of(k, point_of(Kind::Box, seg_box(k, i, x), j)) != i
            implies !#[trigger] b.unit_cell(Kind::Box, seg_box(k, i, x), j).has(d) by {
        let bx = seg_box(k, i, x);
        assert(0 <= bx < 9);
        lemma_unit_in_range(Kind::Box, bx, j);
        assert(b.unit_cell(Kind::Box, bx, j).within(a.unit_cell(Kind::Box, bx, j)));
        assert(!a.unit_cell(Kind::Box, bx, j).has(d));
        if b.unit_cell(Kind::Box, bx, j).has(d) {
            lemma_subset_bit(b.unit_cell(Kind::Box, bx, j).0, a.unit_cell(Kind::Box, bx, j).0, d);
        }
    }
}

/// Where a completed sudoku fits `g0`, a digit confined to one segment of a line stays
/// confined to it in every grid that `g0` narrows to.
proof fn lemma_confined_stays(g0: Grid, g: Grid, k: Kind, i: int, d: int, x: int)
    requires
        has_solution(g0),
        narrows(g0, g),
        0 <= i < 9,
        1 <= d <= 9,
        confined(g0, k, i, d, x),
    ensures
        confined(g, k, i, d, x),
{
    let s = choose|s: spec_fn(int, int) -> int| is_solution(s) && #[trigger] compatible(g0, s);
    assert(compatible(g, s));
    assert(unit_holds(s, k, i, d));
    let jl = choose|jj: int| 0 <= jj < 9 && #[trigger] sol_at(s, k, i, jj) == d;
    lemma_unit_in_range(k, i, jl);
    assert(g0.unit_cell(k, i, jl).has(d));
    assert(seg_has(g0, k, i, d, jl / 3));
    assert(g.unit_cell(k, i, jl).has(d));
    assert(seg_has(g, k, i, d, x));
    assert forall|y: int| 0 <= y < 3 && y != x implies !#[trigger] seg_has(g, k, i, d, y) by {
        if seg_has(g, k, i, d, y) {
            let j = choose|j: int| 0 <= j < 9 && j / 3 == y && #[trigger] g.unit_cell(k, i, j).has(d);
            lemma_unit_in_range(k, i, j);
            assert(g.unit_cell(k, i, j).within(g0.unit_cell(k, i, j)));
            lemma_subset_bit(g.unit_cell(k, i, j).0, g0.unit_cell(k, i, j).0, d);
            assert(g0.unit_cell(k, i, j).has(d));
            assert(seg_has(g0, k, i, d, y));
        }
    }
}

/// Every cell is the `(r % 3 * 3 + c % 3)`-th cell of its box.
pub proof fn lemma_cell_in_box(r: int, c: int)
    requires
        0 <= r < 9,
        0 <= c < 9,
    ensures
        unit_row(Kind::Box, box_index(r, c), r % 3 * 3 + c % 3) == r,
        unit_col(Kind::Box, box_index(r, c), r % 3 * 3 + c % 3) == c,
        0 <= box_index(r, c) < 9,
        0 <= r % 3 * 3 + c % 3 < 9,
{
    assert((r / 3 * 3 + c / 3) / 3 * 3 + (r % 3 * 3 + c % 3) / 3 == r) by (nonlinear_arith)
        requires
            0 <= r < 9,
            0 <= c < 9,
    ;
    assert((r / 3 * 3 + c / 3) % 3 * 3 + (r % 3 * 3 + c % 3) % 3 == c) by (nonlinear_arith)
        requires
            0 <= r < 9,
            0 <= c < 9,
    ;
}

/// Returns the box that segment `x` of line `i` of kind `k` runs through.
pub fn segment_box(k: Kind, i: usize, x: usize) -> (b: usize)
    requires
        k != Kind::Box,
        i < 9,
        x < 3,
    ensures
        b == seg_box(k, i as int, x as int),
        b < 9,
{
    match k {
        Kind::Col => x * 3 + i / 3,
        _ => i / 3 * 3 + x,
    }
}

impl Group {
    /// Returns the mask of the positions of box `b` (of this group of boxes) on line `i` of kind `k`.
    pub(crate) fn positions_on_line(&self, b: usize, k: Kind, i: usize) -> (keep: u16)
        requires
            self.wf(),
            self.kind == Kind::Box,
            k != Kind::Box,
            b < 9,
        ensures
            forall|j: int| 0 <= j < 16 ==> #[trigger] has_bit(keep, j) == (j < 9 && line_of(
                k,
                point_of(Kind::Box, b as int, j),
            ) == i),
    {
        let mut keep: u16 = 0;
        proof {
            assert forall|j: int| 0 <= j < 16 implies !#[trigger] has_bit(0u16, j) by {
                lemma_bit_zero(j);
            }
        }
        let mut j: usize = 0;
        while j < 9
            invariant
                j <= 9,
                b < 9,
                self.wf(),
                self.kind == Kind::Box,
                k != Kind::Box,
                forall|t: int| 0 <= t < 16 ==> #[trigger] has_bit(keep, t) == (t < j && line_of(
                    k,
                    point_of(Kind::Box, b as int, t),
                ) == i),
            decreases 9 - j,
        {
            let p = self.cells[b][j];
            proof {
                lemma_unit_in_range(Kind::Box, b as int, j as int);
            }
            if crate::strategies::pointing_line::line_index(k, p) == i {
                let old_keep = keep;
                keep = keep | (1u16 << j as u16);
                proof {
                    assert forall|t: int| 0 <= t < 16 implies #[trigger] has_bit(keep, t) == (t < j + 1
                        && line_of(k, point_of(Kind::Box, b as int, t)) == i) by {
                        lemma_bit_or(old_keep, 1u16 << j as u16, t);
                        lemma_bit_single(j as u16, t);
                    }
                }
            }
            j += 1;
        }
        keep
    }
}

impl Grid {
    /// box_line removes candidates: when the places of a digit on a column (then a row) all lie
    /// in one box, the digit is removed from the cells of that box off the line. Columns are
    /// tried first; rows only when the column pass changed nothing. Returns true if it changed
    /// any cell.
    pub fn box_line(&mut self) -> (res: bool)
        ensures
            narrows(*old(self), *final(self)),
            res == differs(*final(self), *old(self)),
            res == box_line_applies(*old(self)),
            grid_is(*final(self), box_line_result(*old(self))),
            has_solution(*old(self)) && box_line_in(*old(self), Kind::Col) ==> box_line_cleared(
                *old(self),
                *final(self),
                Kind::Col,
            ),
            has_solution(*old(self)) && !box_line_in(*old(self), Kind::Col) ==> box_line_cleared(
                *old(self),
                *final(self),
                Kind::Row,
            ),
    {
        let boxes = Group::new(Kind::Box);
        if self.box_line_group(&Group::new(Kind::Col), &boxes) {
            return true;
        }
        self.box_line_group(&Group::new(Kind::Row), &boxes)
    }

    /// Returns, for each digit 1 to 9 and each segment (three cells) of line `ci` of `lines`,
    /// whether some cell of the segment holds the digit.
    fn segments(&self, lines: &Group, ci: usize) -> (boxes: [[bool; 3]; 10])
        requires
            lines.wf(),
            ci < 9,
        ensures
            forall|d: int, x: int| 1 <= d <= 9 && 0 <= x < 3 ==> #[trigger] boxes[d][x] == seg_has(*self, lines.kind, ci as int, d, x),
    {
        let ghost k = lines.kind;
        let mut boxes = [[false; 3]; 10];
        proof {
            broadcast use vstd::array::group_array_axioms;
            assert forall|d: int, x: int| 0 <= d < 10 && 0 <= x < 3 implies !#[trigger] boxes[d][x] by {
                assert(boxes@[d]@[x] == false);
            }
        }
        let mut j: usize = 0;
        while j < 9
            invariant
                j <= 9,
                ci < 9,
                lines.wf(),
                k == lines.kind,
                forall|d: int, x: int| 1 <= d <= 9 && 0 <= x < 3 ==> #[trigger] boxes[d][x] == exists|t: int|
                    0 <= t < j && t / 3 == x && #[trigger] self.unit_cell(k, ci as int, t).has(d),
            decreases 9 - j,
        {
            let p = lines.cells[ci][j];
            let cell = self.get(p);
            let mut d: usize = 1;
            while d <= 9
                invariant
                    1 <= d <= 10,
                    j < 9,
                    ci < 9,
                    lines.wf(),
                    k == lines.kind,
                    cell == self.unit_cell(k, ci as int, j as int),
                    forall|e: int, x: int| 1 <= e < d && 0 <= x < 3 ==> #[trigger] boxes[e][x] == exists|t: int|
                        0 <= t < j + 1 && t / 3 == x && #[trigger] self.unit_cell(k, ci as int, t).has(e),
                    forall|e: int, x: int| d <= e <= 9 && 0 <= x < 3 ==> #[trigger] boxes[e][x] == exists|t: int|
                        0 <= t < j && t / 3 == x && #[trigger] self.unit_cell(k, ci as int, t).has(e),
                decreases 10 - d,
            {
                if cell.0 & (1u16 << d as u16) != 0 {
                    boxes[d][j / 3] = true;
                    proof {
                        assert(self.unit_cell(k, ci as int, j as int).has(d as int));
                    }
                }
                proof {
                    assert forall|x: int| 0 <= x < 3 implies #[trigger] boxes[d as int][x] == exists|t: int|
                        0 <= t < j + 1 && t / 3 == x && #[trigger] self.unit_cell(k, ci as int, t).has(d as int) by {
                        if self.unit_cell(k, ci as int, j as int).has(d as int) && x == j / 3 {
                            assert(0 <= j < j + 1 && j / 3 == x && self.unit_cell(k, ci as int, j as int).has(d as int));
                        }
                    }
                }
                d += 1;
            }
            j += 1;
        }
        boxes
    }

    pub fn box_line_group(&mut self, lines: &Group, boxes: &Group) -> (res: bool)
        requires
            lines.wf(),
            lines.kind != Kind::Box,
            boxes.wf(),
            boxes.kind == Kind::Box,
        ensures
            narrows(*old(self), *final(self)),
            res == differs(*final(self), *old(self)),
            res == box_line_in(*old(self), lines.kind),
            !res ==> *final(self) == *old(self),
            has_solution(*old(self)) ==> box_line_cleared(*old(self), *final(self), lines.kind),
            grid_is(*final(self), bl_pass(cells_of(*old(self)), lines.kind, 9)),
    {
        let ghost g0 = *self;
        let ghost k = lines.kind;
        let mut res = false;
        proof {
            lemma_narrows_refl(g0);
        }
        let mut ci: usize = 0;
        while ci < 9
            invariant
                ci <= 9,
                lines.wf(),
                k == lines.kind,
                k != Kind::Box,
                boxes.wf(),
                boxes.kind == Kind::Box,
                narrows(g0, *self),
                res == differs(*self, g0),
                !res ==> *self == g0,
                res ==> box_line_in(g0, k),
                !res ==> forall|i: int, d: int, x: int, j: int| 0 <= i < ci ==> !#[trigger] box_line_at(g0, k, i, d, x, j),
                has_solution(g0) ==> forall|i: int, e: int| 0 <= i < ci && 1 <= e <= 9 ==> #[trigger] confined_cleared(g0, *self, k, i, e),
                grid_is(*self, bl_pass(cells_of(g0), k, ci as int)),
            decreases 9 - ci,
        {
            let ghost g1 = *self;
            let segs = self.segments(lines, ci);
            proof {
                lemma_narrows_refl(g1);
            }
            let mut d: usize = 1;
            while d <= 9
                invariant
                    1 <= d <= 10,
                    ci < 9,
                    lines.wf(),
                    k == lines.kind,
                    k != Kind::Box,
                    boxes.wf(),
                    boxes.kind == Kind::Box,
                    forall|e: int, x: int| 1 <= e <= 9 && 0 <= x < 3 ==> #[trigger] segs[e][x] == seg_has(g1, k, ci as int, e, x),
                    narrows(g0, g1),
                    narrows(g1, *self),
                    !res ==> g1 == g0,
                    res == differs(*self, g0),
                    !res ==> *self == g0,
                    res ==> box_line_in(g0, k),
                    !res ==> forall|i: int, e: int, x: int, j: int| 0 <= i < ci ==> !#[trigger] box_line_at(g0, k, i, e, x, j),
                    !res ==> forall|e: int, x: int, j: int| e < d ==> !#[trigger] box_line_at(g0, k, ci as int, e, x, j),
                    has_solution(g0) ==> forall|i: int, e: int| 0 <= i < ci && 1 <= e <= 9 ==> #[trigger] confined_cleared(g0, *self, k, i, e),
                    has_solution(g0) ==> forall|e: int| 1 <= e < d ==> #[trigger] confined_cleared(g0, *self, k, ci as int, e),
                    grid_is(g1, bl_pass(cells_of(g0), k, ci as int)),
                    grid_is(*self, bl_digits(bl_pass(cells_of(g0), k, ci as int), bl_pass(cells_of(g0), k, ci as int), k, ci as int, d - 1)),
                decreases 10 - d,
            {
                let s0 = segs[d][0];
                let s1 = segs[d][1];
                let s2 = segs[d][2];
                let ghost fl = bl_pass(cells_of(g0), k, ci as int);
                let ghost fd = bl_digits(fl, fl, k, ci as int, d - 1);
                proof {
                    lemma_seg_has_fn(g1, fl, k, ci as int, d as int, 0);
                    lemma_seg_has_fn(g1, fl, k, ci as int, d as int, 1);
                    lemma_seg_has_fn(g1, fl, k, ci as int, d as int, 2);
                }
                let index: usize = if s0 && !s1 && !s2 {
                    0
                } else if !s0 && s1 && !s2 {
                    1
                } else if !s0 && !s1 && s2 {
                    2
                } else {
                    3
                };
                if index < 3 {
                    let b = segment_box(lines.kind, ci, index);
                    let keep = boxes.positions_on_line(b, lines.kind, ci);
                    let ghost before = *self;
                    proof {
                        assert(confined(g1, k, ci as int, d as int, index as int));
                        lemma_box_line_sound(g1, k, ci as int, d as int, index as int);
                        assert forall|s: spec_fn(int, int) -> int, j: int|
                            is_solution(s) && #[trigger] compatible(before, s) && 0 <= j < 9 && !has_bit(keep, j)
                                implies !has_bit(1u16 << d as u16, #[trigger] sol_at(s, Kind::Box, b as int, j)) by {
                            crate::model::lemma_compatible_wider(before, g1, s);
                            lemma_bit_single(d as u16, sol_at(s, Kind::Box, b as int, j));
                        }
                    }
                    let ch = self.clear_unit(boxes, b, keep, 1u16 << d as u16);
                    proof {
                        assert(index == bl_index(fl, k, ci as int, d as int));
                        assert(same_fn(cells_of(before), fd));
                        lemma_clear_same(cells_of(before), fd, Kind::Box, b as int, |j: int| has_bit(keep, j), |j: int| line_of(k, point_of(Kind::Box, seg_box(k, ci as int, index as int), j)) == ci, 1u16 << d as u16);
                        assert(grid_is(*self, bl_digits(fl, fl, k, ci as int, d as int)));
                    }
                    proof {
                        lemma_narrows_trans(g1, before, *self);
                        lemma_narrows_trans(g0, g1, *self);
                        if res {
                            lemma_narrows_trans(g0, g1, before);
                            lemma_differs_stays(g0, before, *self);
                        } else {
                            assert(before == g0);
                            if ch {
                                let j = choose|j: int| 0 <= j < 9 && !has_bit(keep, j)
                                    && #[trigger] g0.unit_cell(Kind::Box, b as int, j).0 & (1u16 << d as u16) != 0;
                                assert(box_line_at(g0, k, ci as int, d as int, index as int, j));
                            }
                            assert forall|x: int, j: int| #[trigger] box_line_at(g0, k, ci as int, d as int, x, j) implies ch by {
                                assert(x == index);
                                assert(!has_bit(keep, j));
                                assert(g0.unit_cell(Kind::Box, b as int, j).0 & (1u16 << d as u16) != 0);
                            }
                        }
                    }
                    proof {
                        if has_solution(g0) {
                            assert forall|i: int, e: int| 0 <= i < ci && 1 <= e <= 9 implies #[trigger] confined_cleared(g0, *self, k, i, e) by {
                                lemma_cleared_stays(g0, before, *self, k, i, e);
                            }
                            assert forall|e: int| 1 <= e < d + 1 implies #[trigger] confined_cleared(g0, *self, k, ci as int, e) by {
                                if e < d {
                                    lemma_cleared_stays(g0, before, *self, k, ci as int, e);
                                } else {
                                    assert forall|x: int, j: int|
                                        confined(g0, k, ci as int, e, x) && 0 <= j < 9 && line_of(k, point_of(Kind::Box, seg_box(k, ci as int, x), j))
                                            != ci as int implies !#[trigger] self.unit_cell(Kind::Box, seg_box(k, ci as int, x), j).has(e) by {
                                        lemma_confined_stays(g0, g1, k, ci as int, e, x);
                                        if x != index {
                                            assert(seg_has(g1, k, ci as int, e, index as int));
                                        }
                                        assert(!has_bit(keep, j));
                                    }
                                }
                            }
                        }
                    }
                    if ch {
                        res = true;
                    }
                } else {
                    proof {
                        assert(bl_index(fl, k, ci as int, d as int) == 3);
                        assert(grid_is(*self, bl_digits(fl, fl, k, ci as int, d as int)));
                    }
                    proof {
                        if has_solution(g0) {
                            assert forall|x: int, j: int|
                                confined(g0, k, ci as int, d as int, x) && 0 <= j < 9 && line_of(k, point_of(Kind::Box, seg_box(k, ci as int, x), j))
                                    != ci as int implies !#[trigger] self.unit_cell(Kind::Box, seg_box(k, ci as int, x), j).has(d as int) by {
                                lemma_confined_stays(g0, g1, k, ci as int, d as int, x);
                                assert(!seg_has(g1, k, ci as int, d as int, (x + 1) % 3));
                                assert(!seg_has(g1, k, ci as int, d as int, (x + 2) % 3));
                            }
                            assert(confined_cleared(g0, *self, k, ci as int, d as int));
                        }
                        if !res {
                            assert forall|x: int, j: int| true implies !#[trigger] box_line_at(g0, k, ci as int, d as int, x, j) by {
                                if box_line_at(g0, k, ci as int, d as int, x, j) {
                                    assert(confined(g1, k, ci as int, d as int, x));
                                    if x == 0 {
                                        assert(!seg_has(g1, k, ci as int, d as int, 1));
                                    } else if x == 1 {
                                        assert(!seg_has(g1, k, ci as int, d as int, 0));
                                    } else {
                                        assert(!seg_has(g1, k, ci as int, d as int, 0));
                                    }
                                }
                            }
                        }
                    }
                }
                d += 1;
            }
            proof {
                lemma_narrows_trans(g0, g1, *self);
                assert forall|e: int, x: int, j: int| !(1 <= e <= 9) implies !#[trigger] box_line_at(g0, k, ci as int, e, x, j) by {}
            }
            ci += 1;
        }
        res
    }
}

/// Every completed board fitting `g` places digit `d` of line `i` inside the box of its only
/// segment, so the other cells of that box, off the line, do not take `d`.
pub proof fn lemma_box_line_sound(g: Grid, k: Kind, i: int, d: int, x: int)
    requires
        0 <= i < 9,
        1 <= d <= 9,
        k != Kind::Box,
        confined(g, k, i, d, x),
    ensures
        forall|s: spec_fn(int, int) -> int, j: int|
            is_solution(s) && #[trigger] compatible(g, s) && 0 <= j < 9 && line_of(k, point_of(Kind::Box, seg_box(k, i, x), j)) != i
                ==> #[trigger] sol_at(s, Kind::Box, seg_box(k, i, x), j) != d,
{
    let b = seg_box(k, i, x);
    assert forall|s: spec_fn(int, int) -> int, j: int|
        is_solution(s) && #[trigger] compatible(g, s) && 0 <= j < 9 && line_of(k, point_of(Kind::Box, b, j)) != i
            implies #[trigger] sol_at(s, Kind::Box, b, j) != d by {
        assert(unit_holds(s, k, i, d));
        let jl = choose|jj: int| 0 <= jj < 9 && #[trigger] sol_at(s, k, i, jj) == d;
        lemma_unit_in_range(k, i, jl);
        let r = unit_row(k, i, jl);
        let c = unit_col(k, i, jl);
        assert(g.unit_cell(k, i, jl).has(d));
        assert(seg_has(g, k, i, d, jl / 3));
        assert(jl / 3 == x);
        assert(box_index(r, c) == b);
        lemma_cell_in_box(r, c);
        let jq = r % 3 * 3 + c % 3;
        assert(sol_at(s, Kind::Box, b, jq) == d);
        assert(line_of(k, point_of(Kind::Box, b, jq)) == i);
        assert(jq != j);
    }
}

} // verus!
