//! Hidden single: a digit that only one cell of a unit can hold is placed there.
use vstd::prelude::*;
use crate::bits::{has_bit, lemma_bit_single, lemma_single_subset, lemma_inside_single, lemma_single_nonzero,
    lemma_subset_trans, lemma_subset_refl};
use crate::cell::Cell;
use crate::grid::{Grid, Group, Kind, Point, differs, narrower, updated, same_cells, lemma_same_grid};
use crate::model::{is_solution, compatible, narrows, sound, sol_at, unit_holds, lemma_narrows_refl,
    lemma_narrows_trans, lemma_differs_stays};
use crate::strategies::{holders, holds_at, point_of, lemma_holders, lemma_units_apart};
use crate::search::has_solution;

verus! {

/// Digit `d` has a single place in unit `i`, and that cell still has other candidates.
pub open spec fn hidden_single_at(g: Grid, k: Kind, i: int, d: int) -> bool {
    let h = holders(g, k, i, d, 9);
    &&& 1 <= d <= 9
    &&& h.len() == 1
    &&& g.at(h[0].0 as int, h[0].1 as int) != Cell(1u16 << d as u16)
}

/// A hidden single can be placed in some unit of kind `k`.
pub open spec fn hidden_single_in(g: Grid, k: Kind) -> bool {
    exists|i: int, d: int| 0 <= i < 9 && #[trigger] hidden_single_at(g, k, i, d)
}

/// A hidden single can be placed somewhere in the grid.
pub open spec fn hidden_single_applies(g: Grid) -> bool {
    hidden_single_in(g, Kind::Box) || hidden_single_in(g, Kind::Col) || hidden_single_in(g, Kind::Row)
}

/// Cell `j` is the only cell of unit `i` that has digit `d`.
pub open spec fn only_place(g: Grid, k: Kind, i: int, d: int, j: int) -> bool {
    &&& 1 <= d <= 9
    &&& 0 <= j < 9
    &&& g.unit_cell(k, i, j).has(d)
    &&& forall|j2: int| 0 <= j2 < 9 && j2 != j ==> !#[trigger] g.unit_cell(k, i, j2).has(d)
}

/// Every digit that has one place in a unit of kind `k` of `g0` is, in `g`, the only candidate
/// of that cell.
pub open spec fn singles_placed(g0: Grid, g: Grid, k: Kind) -> bool {
    forall|i: int, d: int, j: int|
        0 <= i < 9 && #[trigger] only_place(g0, k, i, d, j) ==> g.unit_cell(k, i, j) == Cell(1u16 << d as u16)
}

/// Cell `j` of unit `i` is the only place in its unit of some digit below `n`.
pub open spec fn some_only_place(g: Grid, k: Kind, i: int, j: int, n: int) -> bool {
    exists|e: int| e < n && #[trigger] only_place(g, k, i, e, j)
}

/// Digit `e` is the highest digit below `n` whose only place in unit `i` is cell `j`.
pub open spec fn top_place(g: Grid, k: Kind, i: int, e: int, j: int, n: int) -> bool {
    &&& e < n
    &&& only_place(g, k, i, e, j)
    &&& forall|e2: int| e < e2 < n ==> !#[trigger] only_place(g, k, i, e2, j)
}

/// Cell `j` of unit `i` holds in `g`, alone, the highest digit below `n` whose only place in the
/// unit of `g0` it is, or, if it is the only place of no such digit, what it held in `g0`.
pub open spec fn placed_by(g0: Grid, g: Grid, k: Kind, i: int, j: int, n: int) -> bool {
    if some_only_place(g0, k, i, j, n) {
        exists|e: int| #[trigger] top_place(g0, k, i, e, j, n) && g.unit_cell(k, i, j) == Cell(1u16 << e as u16)
    } else {
        g.unit_cell(k, i, j) == g0.unit_cell(k, i, j)
    }
}

/// Every cell of the units of kind `k` holds in `g`, alone, the highest digit whose only place
/// in the unit of `g0` it is, or, if it is the only place of no digit, what it held in `g0`.
pub open spec fn singles_set(g0: Grid, g: Grid, k: Kind) -> bool {
    forall|i: int, j: int| 0 <= i < 9 && 0 <= j < 9 ==> #[trigger] placed_by(g0, g, k, i, j, 10)
}

/// A digit with one holder in a unit has that cell as its only place.
proof fn lemma_holders_only(g: Grid, k: Kind, i: int, d: int, jp: int)
    requires
        0 <= i < 9,
        1 <= d <= 9,
        0 <= jp < 9,
        holders(g, k, i, d, 9).len() == 1,
        holders(g, k, i, d, 9)[0] == point_of(k, i, jp),
    ensures
        only_place(g, k, i, d, jp),
{
    let h = holders(g, k, i, d, 9);
    lemma_holders(g, k, i, d, 9);
    assert(holds_at(g, k, i, d, 9, h[0]));
    let j0 = choose|j: int| 0 <= j < 9 && g.unit_cell(k, i, j).has(d) && h[0] == #[trigger] point_of(k, i, j);
    crate::grid::lemma_unit_in_range(k, i, j0);
    crate::grid::lemma_unit_in_range(k, i, jp);
    if j0 != jp {
        crate::grid::lemma_unit_injective(k, i, j0, jp);
    }
    assert forall|j2: int| 0 <= j2 < 9 && j2 != jp implies !#[trigger] g.unit_cell(k, i, j2).has(d) by {
        if g.unit_cell(k, i, j2).has(d) {
            assert(h.contains(point_of(k, i, j2)));
            crate::grid::lemma_unit_in_range(k, i, j2);
            crate::grid::lemma_unit_injective(k, i, j2, jp);
        }
    }
}

/// If only position `j0` of unit `i` has digit `d`, its holders are that one cell.
proof fn lemma_holders_one(g: Grid, k: Kind, i: int, d: int, j0: int, n: int)
    requires
        0 <= n <= 9,
        0 <= j0 < 9,
        forall|j: int| 0 <= j < 9 ==> #[trigger] g.unit_cell(k, i, j).has(d) == (j == j0),
    ensures
        holders(g, k, i, d, n) == (if j0 < n { seq![point_of(k, i, j0)] } else { Seq::<Point>::empty() }),
    decreases n,
{
    if n > 0 {
        lemma_holders_one(g, k, i, d, j0, n - 1);
        if n - 1 == j0 {
            assert(Seq::<Point>::empty().push(point_of(k, i, j0)) =~= seq![point_of(k, i, j0)]);
        }
    }
}

/// A completed sudoku puts a digit at the only place it has in a unit.
proof fn lemma_only_place_digit(g: Grid, s: spec_fn(int, int) -> int, k: Kind, i: int, d: int, j: int)
    requires
        is_solution(s),
        compatible(g, s),
        0 <= i < 9,
        only_place(g, k, i, d, j),
    ensures
        sol_at(s, k, i, j) == d,
{
    assert(unit_holds(s, k, i, d));
    let jb = choose|jj: int| 0 <= jj < 9 && #[trigger] sol_at(s, k, i, jj) == d;
    crate::grid::lemma_unit_in_range(k, i, jb);
    assert(g.unit_cell(k, i, jb).has(d));
}

/// Where a completed sudoku fits `g0`, the only place of a digit stays its only place in every
/// grid that `g0` narrows to.
proof fn lemma_only_place_stays(g0: Grid, g: Grid, k: Kind, i: int, d: int, j: int)
    requires
        has_solution(g0),
        narrows(g0, g),
        0 <= i < 9,
        only_place(g0, k, i, d, j),
    ensures
        only_place(g, k, i, d, j),
        holders(g, k, i, d, 9) == seq![point_of(k, i, j)],
{
    let s = choose|s: spec_fn(int, int) -> int| is_solution(s) && #[trigger] compatible(g0, s);
    lemma_only_place_digit(g0, s, k, i, d, j);
    assert(compatible(g, s));
    crate::grid::lemma_unit_in_range(k, i, j);
    assert(g.unit_cell(k, i, j).has(d));
    assert forall|j2: int| 0 <= j2 < 9 implies #[trigger] g.unit_cell(k, i, j2).has(d) == (j2 == j) by {
        crate::grid::lemma_unit_in_range(k, i, j2);
        if g.unit_cell(k, i, j2).has(d) {
            assert(g.unit_cell(k, i, j2).within(g0.unit_cell(k, i, j2)));
            crate::bits::lemma_subset_bit(g.unit_cell(k, i, j2).0, g0.unit_cell(k, i, j2).0, d);
            assert(g0.unit_cell(k, i, j2).has(d));
        }
        if j2 == j {
            assert(g.unit_cell(k, i, j).has(d));
        }
    }
    lemma_holders_one(g, k, i, d, j, 9);
}

/// A completed sudoku puts a digit at its one holder in a unit.
proof fn lemma_holder_digit(g: Grid, s: spec_fn(int, int) -> int, k: Kind, i: int, d: int)
    requires
        is_solution(s),
        compatible(g, s),
        0 <= i < 9,
        1 <= d <= 9,
        holders(g, k, i, d, 9).len() == 1,
    ensures
        s(holders(g, k, i, d, 9)[0].0 as int, holders(g, k, i, d, 9)[0].1 as int) == d,
{
    assert(unit_holds(s, k, i, d));
    let jb = choose|jj: int| 0 <= jj < 9 && #[trigger] sol_at(s, k, i, jj) == d;
    crate::grid::lemma_unit_in_range(k, i, jb);
    assert(g.unit_cell(k, i, jb).has(d));
    lemma_holders(g, k, i, d, 9);
    assert(holders(g, k, i, d, 9).contains(point_of(k, i, jb)));
}

/// Setting the one holder `p` of digit `d` in unit `ci` to `d` keeps every cell placed earlier.
proof fn lemma_placed_apart(g0: Grid, g1: Grid, before: Grid, after: Grid, k: Kind, ci: int, d: int, i: int, e: int, j: int)
    requires
        has_solution(g0),
        narrows(g0, g1),
        narrows(g0, before),
        0 <= ci < 9,
        0 <= i <= ci,
        1 <= d <= 9,
        i == ci ==> e < d,
        holders(g1, k, ci, d, 9).len() == 1,
        updated(before, after, holders(g1, k, ci, d, 9)[0].0 as int, holders(g1, k, ci, d, 9)[0].1 as int, Cell(1u16 << d as u16)),
        only_place(g0, k, i, e, j),
        before.unit_cell(k, i, j) == Cell(1u16 << e as u16),
    ensures
        after.unit_cell(k, i, j) == Cell(1u16 << e as u16),
{
    let s = choose|s: spec_fn(int, int) -> int| is_solution(s) && #[trigger] compatible(g0, s);
    assert(compatible(g1, s));
    let p = holders(g1, k, ci, d, 9)[0];
    lemma_holder_digit(g1, s, k, ci, d);
    lemma_only_place_digit(g0, s, k, i, e, j);
    crate::grid::lemma_unit_in_range(k, i, j);
    lemma_holders(g1, k, ci, d, 9);
    assert(holds_at(g1, k, ci, d, 9, p));
    let jp = choose|jj: int| 0 <= jj < 9 && g1.unit_cell(k, ci, jj).has(d) && p == #[trigger] point_of(k, ci, jj);
    crate::grid::lemma_unit_in_range(k, ci, jp);
    if i != ci {
        lemma_units_apart(k, i, j, ci, jp);
    }
}

/// What `hidden_single` makes of `g`: the pass over the boxes if a hidden single can act in a
/// box, else over the columns if it can act in a column, else over the rows.
pub open spec fn hidden_single_result(g: Grid, h: Grid) -> bool {
    &&& h.orig == g.orig
    &&& hidden_single_in(g, Kind::Box) ==> singles_set(g, h, Kind::Box)
    &&& !hidden_single_in(g, Kind::Box) && hidden_single_in(g, Kind::Col) ==> singles_set(g, h, Kind::Col)
    &&& !hidden_single_in(g, Kind::Box) && !hidden_single_in(g, Kind::Col) ==> singles_set(g, h, Kind::Row)
}

/// Two grids that both are what the pass makes of `g` are the same grid.
proof fn lemma_singles_unique(g: Grid, h1: Grid, h2: Grid, k: Kind)
    requires
        h1.orig == h2.orig,
        singles_set(g, h1, k),
        singles_set(g, h2, k),
    ensures
        h1 == h2,
{
    assert forall|r: int, c: int| 0 <= r < 9 && 0 <= c < 9 implies #[trigger] h1.at(r, c) == h2.at(r, c) by {
        crate::strategies::pass::lemma_cell_coords(k, r, c);
        let i = crate::strategies::pass::unit_index(k, r, c);
        let j = crate::strategies::pass::unit_position(k, r, c);
        assert(h1.unit_cell(k, i, j) == h1.at(r, c));
        assert(h2.unit_cell(k, i, j) == h2.at(r, c));
        assert(placed_by(g, h1, k, i, j, 10));
        assert(placed_by(g, h2, k, i, j, 10));
        if some_only_place(g, k, i, j, 10) {
            let e1 = choose|e: int| #[trigger] top_place(g, k, i, e, j, 10) && h1.unit_cell(k, i, j) == Cell(1u16 << e as u16);
            let e2 = choose|e: int| #[trigger] top_place(g, k, i, e, j, 10) && h2.unit_cell(k, i, j) == Cell(1u16 << e as u16);
            if e1 < e2 {
                assert(!only_place(g, k, i, e2, j));
            }
            if e2 < e1 {
                assert(!only_place(g, k, i, e1, j));
            }
        }
    }
    crate::grid::lemma_same_grid(h1, h2);
}

/// What the pass makes of a grid is determined by the grid.
pub proof fn lemma_hidden_single_determined(g: Grid, h1: Grid, h2: Grid)
    requires
        hidden_single_result(g, h1),
        hidden_single_result(g, h2),
    ensures
        h1 == h2,
{
    if hidden_single_in(g, Kind::Box) {
        lemma_singles_unique(g, h1, h2, Kind::Box);
    } else if hidden_single_in(g, Kind::Col) {
        lemma_singles_unique(g, h1, h2, Kind::Col);
    } else {
        lemma_singles_unique(g, h1, h2, Kind::Row);
    }
}

impl Grid {
    /// hidden_single solves a cell when it is the only cell of a unit (box, column, row) that
    /// can hold some digit: the cell is set to that digit. Boxes, then columns, then rows; it
    /// stops after the first kind of unit where it changed something. Returns true if it
    /// changed any cell.
    pub fn hidden_single(&mut self) -> (res: bool)
        ensures
            narrows(*old(self), *final(self)),
            res == differs(*final(self), *old(self)),
            res == hidden_single_applies(*old(self)),
            has_solution(*old(self)) && hidden_single_in(*old(self), Kind::Box) ==> singles_placed(
                *old(self),
                *final(self),
                Kind::Box,
            ),
            has_solution(*old(self)) && !hidden_single_in(*old(self), Kind::Box) && hidden_single_in(*old(self), Kind::Col)
                ==> singles_placed(*old(self), *final(self), Kind::Col),
            has_solution(*old(self)) && !hidden_single_in(*old(self), Kind::Box) && !hidden_single_in(*old(self), Kind::Col)
                ==> singles_placed(*old(self), *final(self), Kind::Row),
            hidden_single_in(*old(self), Kind::Box) ==> singles_set(*old(self), *final(self), Kind::Box),
            !hidden_single_in(*old(self), Kind::Box) && hidden_single_in(*old(self), Kind::Col) ==> singles_set(
                *old(self),
                *final(self),
                Kind::Col,
            ),
            !hidden_single_in(*old(self), Kind::Box) && !hidden_single_in(*old(self), Kind::Col) ==> singles_set(
                *old(self),
                *final(self),
                Kind::Row,
            ),
    {
        if self.hidden_single_group(&Group::new(Kind::Box)) {
            return true;
        }
        if self.hidden_single_group(&Group::new(Kind::Col)) {
            return true;
        }
        self.hidden_single_group(&Group::new(Kind::Row))
    }

    pub fn hidden_single_group(&mut self, group: &Group) -> (res: bool)
        requires
            group.wf(),
        ensures
            narrows(*old(self), *final(self)),
            res == differs(*final(self), *old(self)),
            res == hidden_single_in(*old(self), group.kind),
            !res ==> *final(self) == *old(self),
            has_solution(*old(self)) ==> singles_placed(*old(self), *final(self), group.kind),
            singles_set(*old(self), *final(self), group.kind),
    {
        let ghost g0 = *self;
        let ghost k = group.kind;
        let mut res = false;
        proof {
            lemma_narrows_refl(g0);
        }
        let mut ci: usize = 0;
        while ci < 9
            invariant
                ci <= 9,
                group.wf(),
                k == group.kind,
                narrows(g0, *self),
                res == differs(*self, g0),
                !res ==> *self == g0,
                res ==> hidden_single_in(g0, k),
                !res ==> forall|i: int, d: int| 0 <= i < ci ==> !#[trigger] hidden_single_at(g0, k, i, d),
                has_solution(g0) ==> forall|i: int, e: int, j: int|
                    0 <= i < ci && #[trigger] only_place(g0, k, i, e, j) ==> self.unit_cell(k, i, j) == Cell(1u16 << e as u16),
                forall|i: int, j: int| 0 <= i < ci && 0 <= j < 9 ==> #[trigger] placed_by(g0, *self, k, i, j, 10),
                forall|i: int, j: int| ci <= i < 9 && 0 <= j < 9 ==> #[trigger] self.unit_cell(k, i, j) == g0.unit_cell(k, i, j),
            decreases 9 - ci,
        {
            let ghost g1 = *self;
            let points = self.digit_points(group, ci);
            proof {
                lemma_narrows_refl(g1);
                assert forall|j: int| 0 <= j < 9 implies #[trigger] placed_by(g1, *self, k, ci as int, j, 1) by {
                    assert(!some_only_place(g1, k, ci as int, j, 1));
                }
            }
            let mut d: usize = 1;
            while d <= 9
                invariant
                    1 <= d <= 10,
                    ci < 9,
                    group.wf(),
                    k == group.kind,
                    points.len() == 10,
                    forall|e: int| 1 <= e <= 9 ==> #[trigger] points[e]@ == holders(g1, k, ci as int, e, 9),
                    narrows(g0, g1),
                    narrows(g1, *self),
                    !res ==> g1 == g0,
                    forall|r: int, c: int| 0 <= r < 9 && 0 <= c < 9 && #[trigger] g1.at(r, c).0 != 0 ==> self.at(r, c).0 != 0,
                    res == differs(*self, g0),
                    !res ==> *self == g0,
                    res ==> hidden_single_in(g0, k),
                    !res ==> forall|i: int, e: int| 0 <= i < ci ==> !#[trigger] hidden_single_at(g0, k, i, e),
                    !res ==> forall|e: int| e < d ==> !#[trigger] hidden_single_at(g0, k, ci as int, e),
                    has_solution(g0) ==> forall|i: int, e: int, j: int|
                        0 <= i < ci && #[trigger] only_place(g0, k, i, e, j) ==> self.unit_cell(k, i, j) == Cell(1u16 << e as u16),
                    has_solution(g0) ==> forall|e: int, j: int|
                        e < d && #[trigger] only_place(g0, k, ci as int, e, j) ==> self.unit_cell(k, ci as int, j) == Cell(1u16 << e as u16),
                    forall|i: int, j: int| 0 <= i < 9 && i != ci && 0 <= j < 9 ==> #[trigger] self.unit_cell(k, i, j) == g1.unit_cell(k, i, j),
                    forall|j: int| 0 <= j < 9 ==> #[trigger] placed_by(g1, *self, k, ci as int, j, d as int),
                decreases 10 - d,
            {
                if points[d].len() == 1 {
                    let p = points[d][0];
                    let ghost before = *self;
                    let ghost h = holders(g1, k, ci as int, d as int, 9);
                    proof {
                        lemma_holders(g1, k, ci as int, d as int, 9);
                        assert(h[0] == p);
                        assert(holds_at(g1, k, ci as int, d as int, 9, p));
                        let j = choose|j: int| 0 <= j < 9 && g1.unit_cell(k, ci as int, j).has(d as int)
                            && p == #[trigger] point_of(k, ci as int, j);
                        crate::grid::lemma_unit_in_range(k, ci as int, j);
                    }
                    let ch = self.set_at(p.0, p.1, Cell(1u16 << d as u16));
                    proof {
                        let r = p.0 as int;
                        let c = p.1 as int;
                        let v = Cell(1u16 << d as u16);
                        lemma_single_nonzero(d as u16);
                        assert(g1.at(r, c).has(d as int));
                        lemma_single_subset(g1.at(r, c).0, d as u16);
                        // still narrower than the unit's start
                        assert forall|r2: int, c2: int| 0 <= r2 < 9 && 0 <= c2 < 9 implies (#[trigger] self.at(r2, c2)).within(g1.at(r2, c2)) by {
                            if !(r2 == r && c2 == c) {
                                assert(self.at(r2, c2) == before.at(r2, c2));
                            }
                        }
                        // every completed board that fits the unit's start has digit d at p
                        assert forall|s: spec_fn(int, int) -> int| is_solution(s) && #[trigger] compatible(g1, s) implies compatible(*self, s) by {
                            assert(compatible(before, s));
                            assert(unit_holds(s, k, ci as int, d as int));
                            let j = choose|j: int| 0 <= j < 9 && #[trigger] sol_at(s, k, ci as int, j) == d;
                            assert(g1.at(crate::grid::unit_row(k, ci as int, j), crate::grid::unit_col(k, ci as int, j)).has(sol_at(s, k, ci as int, j)));
                            assert(g1.unit_cell(k, ci as int, j).has(d as int));
                            assert(h.contains(point_of(k, ci as int, j)));
                            crate::grid::lemma_unit_in_range(k, ci as int, j);
                            assert(s(r, c) == d);
                            lemma_bit_single(d as u16, s(r, c));
                            assert forall|r2: int, c2: int| 0 <= r2 < 9 && 0 <= c2 < 9 implies (#[trigger] self.at(r2, c2)).has(s(r2, c2)) by {
                                if !(r2 == r && c2 == c) {
                                    assert(self.at(r2, c2) == before.at(r2, c2));
                                    assert(before.at(r2, c2).has(s(r2, c2)));
                                }
                            }
                        }
                        assert(narrows(g1, *self));
                        assert forall|r2: int, c2: int| 0 <= r2 < 9 && 0 <= c2 < 9 && #[trigger] g1.at(r2, c2).0 != 0 implies self.at(r2, c2).0 != 0 by {
                            if !(r2 == r && c2 == c) {
                                assert(self.at(r2, c2) == before.at(r2, c2));
                            }
                        }
                        if ch {
                            // the new value cannot be the cell's value at the start
                            if v == g0.at(r, c) {
                                assert(before.at(r, c).within(g1.at(r, c)));
                                assert(g1.at(r, c).within(g0.at(r, c)));
                                lemma_subset_trans(before.at(r, c).0, g1.at(r, c).0, g0.at(r, c).0);
                                assert(g1.at(r, c).0 != 0);
                                lemma_inside_single(before.at(r, c).0, d as u16);
                            }
                            assert(self.at(r, c) != g0.at(r, c));
                        } else {
                            assert(same_cells(*self, before));
                            lemma_same_grid(*self, before);
                        }
                        if !res {
                            assert(before == g0);
                            if ch {
                                assert(hidden_single_at(g0, k, ci as int, d as int));
                            } else {
                                assert(!hidden_single_at(g0, k, ci as int, d as int));
                            }
                        }
                    }
                    proof {
                        let jp = choose|j: int| 0 <= j < 9 && g1.unit_cell(k, ci as int, j).has(d as int)
                            && p == #[trigger] point_of(k, ci as int, j);
                        crate::grid::lemma_unit_in_range(k, ci as int, jp);
                        lemma_holders_only(g1, k, ci as int, d as int, jp);
                        assert forall|i: int, j: int| 0 <= i < 9 && i != ci && 0 <= j < 9 implies #[trigger] self.unit_cell(k, i, j)
                            == g1.unit_cell(k, i, j) by {
                            lemma_units_apart(k, ci as int, jp, i, j);
                            crate::grid::lemma_unit_in_range(k, i, j);
                            assert(self.unit_cell(k, i, j) == before.unit_cell(k, i, j));
                        }
                        assert forall|j: int| 0 <= j < 9 implies #[trigger] placed_by(g1, *self, k, ci as int, j, d + 1) by {
                            crate::grid::lemma_unit_in_range(k, ci as int, j);
                            if j == jp {
                                assert(top_place(g1, k, ci as int, d as int, jp, d + 1));
                                assert(self.unit_cell(k, ci as int, jp) == Cell(1u16 << d as u16));
                            } else {
                                crate::grid::lemma_unit_injective(k, ci as int, j, jp);
                                assert(self.unit_cell(k, ci as int, j) == before.unit_cell(k, ci as int, j));
                                assert(placed_by(g1, before, k, ci as int, j, d as int));
                                assert(!only_place(g1, k, ci as int, d as int, j));
                                if some_only_place(g1, k, ci as int, j, d as int) {
                                    let e = choose|e: int| #[trigger] top_place(g1, k, ci as int, e, j, d as int) && before.unit_cell(k, ci as int, j) == Cell(1u16 << e as u16);
                                    assert(top_place(g1, k, ci as int, e, j, d + 1));
                                } else {
                                    assert(!some_only_place(g1, k, ci as int, j, d + 1));
                                }
                            }
                        }
                    }
                    proof {
                        if has_solution(g0) {
                            lemma_narrows_trans(g0, g1, before);
                            assert forall|i: int, e: int, j: int|
                                0 <= i < ci && #[trigger] only_place(g0, k, i, e, j) implies self.unit_cell(k, i, j) == Cell(1u16 << e as u16) by {
                                lemma_placed_apart(g0, g1, before, *self, k, ci as int, d as int, i, e, j);
                            }
                            assert forall|e: int, j: int|
                                e < d + 1 && #[trigger] only_place(g0, k, ci as int, e, j) implies self.unit_cell(k, ci as int, j) == Cell(1u16 << e as u16) by {
                                if e < d {
                                    lemma_placed_apart(g0, g1, before, *self, k, ci as int, d as int, ci as int, e, j);
                                } else {
                                    lemma_only_place_stays(g0, g1, k, ci as int, d as int, j);
                                    crate::grid::lemma_unit_in_range(k, ci as int, j);
                                }
                            }
                        }
                    }
                    if ch {
                        res = true;
                    }
                } else {
                    proof {
                        if !res {
                            assert(g1 == g0);
                            assert(!hidden_single_at(g0, k, ci as int, d as int));
                        }
                        if has_solution(g0) {
                            assert forall|e: int, j: int|
                                e < d + 1 && #[trigger] only_place(g0, k, ci as int, e, j) implies self.unit_cell(k, ci as int, j) == Cell(1u16 << e as u16) by {
                                if e == d {
                                    lemma_only_place_stays(g0, g1, k, ci as int, d as int, j);
                                }
                            }
                        }
                        assert forall|j: int| 0 <= j < 9 implies #[trigger] placed_by(g1, *self, k, ci as int, j, d + 1) by {
                            if only_place(g1, k, ci as int, d as int, j) {
                                assert forall|j2: int| 0 <= j2 < 9 implies #[trigger] g1.unit_cell(k, ci as int, j2).has(d as int) == (j2 == j) by {}
                                lemma_holders_one(g1, k, ci as int, d as int, j, 9);
                            }
                            assert(placed_by(g1, *self, k, ci as int, j, d as int));
                            if some_only_place(g1, k, ci as int, j, d as int) {
                                let e = choose|e: int| #[trigger] top_place(g1, k, ci as int, e, j, d as int) && self.unit_cell(k, ci as int, j) == Cell(1u16 << e as u16);
                                assert(top_place(g1, k, ci as int, e, j, d + 1));
                            } else {
                                assert(!some_only_place(g1, k, ci as int, j, d + 1));
                            }
                        }
                    }
                }
                d += 1;
            }
            proof {
                lemma_narrows_trans(g0, g1, *self);
                assert forall|e: int| !(1 <= e <= 9) implies !#[trigger] hidden_single_at(g0, k, ci as int, e) by {}
                if has_solution(g0) {
                    assert forall|i: int, e: int, j: int|
                        0 <= i < ci + 1 && #[trigger] only_place(g0, k, i, e, j) implies self.unit_cell(k, i, j) == Cell(1u16 << e as u16) by {
                        if i == ci {
                            assert(e < d);
                        }
                    }
                }
                assert forall|j: int| 0 <= j < 9 implies #[trigger] g0.unit_cell(k, ci as int, j) == g1.unit_cell(k, ci as int, j) by {}
                assert forall|i: int, j: int| 0 <= i < ci + 1 && 0 <= j < 9 implies #[trigger] placed_by(g0, *self, k, i, j, 10) by {
                    if i < ci {
                        assert(placed_by(g0, g1, k, i, j, 10));
                        assert(self.unit_cell(k, i, j) == g1.unit_cell(k, i, j));
                        if some_only_place(g0, k, i, j, 10) {
                            let e = choose|e: int| #[trigger] top_place(g0, k, i, e, j, 10) && g1.unit_cell(k, i, j) == Cell(1u16 << e as u16);
                            assert(top_place(g0, k, i, e, j, 10) && self.unit_cell(k, i, j) == Cell(1u16 << e as u16));
                        }
                    } else {
                        assert(placed_by(g1, *self, k, ci as int, j, 10));
                        assert forall|e: int| #[trigger] only_place(g1, k, ci as int, e, j) == only_place(g0, k, ci as int, e, j) by {}
                        if some_only_place(g1, k, ci as int, j, 10) {
                            let e = choose|e: int| #[trigger] top_place(g1, k, ci as int, e, j, 10) && self.unit_cell(k, ci as int, j) == Cell(1u16 << e as u16);
                            assert forall|e2: int| e < e2 < 10 implies !#[trigger] only_place(g0, k, ci as int, e2, j) by {
                                assert(!only_place(g1, k, ci as int, e2, j));
                            }
                            assert(top_place(g0, k, ci as int, e, j, 10));
                        } else if some_only_place(g0, k, ci as int, j, 10) {
                            let e = choose|e: int| e < 10 && #[trigger] only_place(g0, k, ci as int, e, j);
                            assert(only_place(g1, k, ci as int, e, j));
                        }
                    }
                }
            }
            ci += 1;
        }
        res
    }
}

} // verus!
