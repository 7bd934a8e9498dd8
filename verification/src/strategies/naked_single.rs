//! Naked single: a cell with one candidate removes it from the rest of its units.
use vstd::prelude::*;
use crate::bits::{has_bit, lemma_bit_single, lemma_popcount_exhausted};
use crate::grid::{Grid, Group, Kind, differs, narrower, lemma_narrower_keeps, lemma_unit_in_range};
use crate::model::{is_solution, compatible, narrows, sol_at, lemma_narrows_refl, lemma_narrows_trans,
    lemma_differs_stays};
use crate::search::has_solution;
use crate::cell::Cell;
use crate::strategies::pass::{cells_of, grid_is, same_fn, unit_fn, clear_fn, lemma_clear_same};

verus! {

/// Cell `j1` of unit `i` has a single candidate that cell `j2` of the same unit still has.
pub open spec fn naked_single_at(g: Grid, k: Kind, i: int, j1: int, j2: int) -> bool {
    &&& j1 != j2
    &&& g.unit_cell(k, i, j1).size() == 1
    &&& g.unit_cell(k, i, j2).0 & g.unit_cell(k, i, j1).0 != 0
}

/// A naked single can remove a candidate in some unit of kind `k`.
pub open spec fn naked_single_in(g: Grid, k: Kind) -> bool {
    exists|i: int, j1: int, j2: int|
        0 <= i < 9 && 0 <= j1 < 9 && 0 <= j2 < 9 && #[trigger] naked_single_at(g, k, i, j1, j2)
}

/// A naked single can remove a candidate somewhere in the grid.
pub open spec fn naked_single_applies(g: Grid) -> bool {
    naked_single_in(g, Kind::Box) || naked_single_in(g, Kind::Col) || naked_single_in(g, Kind::Row)
}

/// One step of the pass: if cell `j` of unit `ci` has one candidate, that candidate is removed
/// from the other cells of the unit.
pub open spec fn ns_step(f: spec_fn(int, int) -> Cell, k: Kind, ci: int, j: int) -> spec_fn(int, int) -> Cell {
    let cell = unit_fn(f, k, ci, j);
    if cell.size() == 1 {
        clear_fn(f, k, ci, |x: int| x == j, cell.0)
    } else {
        f
    }
}

/// The steps of the pass for the first `n` cells of unit `ci`, in order.
pub open spec fn ns_unit(f: spec_fn(int, int) -> Cell, k: Kind, ci: int, n: int) -> spec_fn(int, int) -> Cell
    decreases n,
{
    if n <= 0 {
        f
    } else {
        ns_step(ns_unit(f, k, ci, n - 1), k, ci, n - 1)
    }
}

/// The pass over the first `n` units of kind `k`, in order.
pub open spec fn ns_pass(f: spec_fn(int, int) -> Cell, k: Kind, n: int) -> spec_fn(int, int) -> Cell
    decreases n,
{
    if n <= 0 {
        f
    } else {
        ns_unit(ns_pass(f, k, n - 1), k, n - 1, 9)
    }
}

/// What `naked_single` makes of `g`: the pass over the boxes if a naked single can act in a
/// box, else over the columns if it can act in a column, else over the rows.
pub open spec fn naked_single_result(g: Grid) -> spec_fn(int, int) -> Cell {
    if naked_single_in(g, Kind::Box) {
        ns_pass(cells_of(g), Kind::Box, 9)
    } else if naked_single_in(g, Kind::Col) {
        ns_pass(cells_of(g), Kind::Col, 9)
    } else {
        ns_pass(cells_of(g), Kind::Row, 9)
    }
}

/// In `g`, no cell of a unit of kind `k` still has the candidate of another cell of that
/// unit that had a single candidate in `g0`.
pub open spec fn singles_cleared(g0: Grid, g: Grid, k: Kind) -> bool {
    forall|i: int, a: int, b: int|
        0 <= i < 9 && 0 <= a < 9 && 0 <= b < 9 && a != b && g0.unit_cell(k, i, a).size() == 1
            ==> #[trigger] g.unit_cell(k, i, b).0 & #[trigger] g0.unit_cell(k, i, a).0 == 0
}

/// Where a completed sudoku fits `g0`, a cell with one candidate keeps it in every grid that
/// `g0` narrows to.
proof fn lemma_single_stays(g0: Grid, g: Grid, r: int, c: int)
    requires
        has_solution(g0),
        narrows(g0, g),
        0 <= r < 9,
        0 <= c < 9,
        g0.at(r, c).size() == 1,
    ensures
        g.at(r, c) == g0.at(r, c),
{
    let s = choose|s: spec_fn(int, int) -> int| is_solution(s) && #[trigger] compatible(g0, s);
    assert(compatible(g, s));
    let v = s(r, c);
    assert(g.at(r, c).has(v) && g0.at(r, c).has(v));
    assert(g.at(r, c).within(g0.at(r, c)));
    assert forall|i: int| 0 <= i < 16 implies #[trigger] has_bit(g.at(r, c).0, i) == has_bit(g0.at(r, c).0, i) by {
        if has_bit(g.at(r, c).0, i) {
            crate::bits::lemma_subset_bit(g.at(r, c).0, g0.at(r, c).0, i);
        }
        if has_bit(g0.at(r, c).0, i) {
            lemma_popcount_exhausted(g0.at(r, c).0, set![v], i);
        }
    }
    crate::bits::lemma_bits_ext(g.at(r, c).0, g0.at(r, c).0);
}

/// A candidate mask that a cell does not meet, no narrowing of that cell meets either.
pub proof fn lemma_disjoint_within(g: Grid, h: Grid, k: Kind, i: int, b: int, m: u16)
    requires
        narrower(h, g),
        0 <= i < 9,
        0 <= b < 9,
        g.unit_cell(k, i, b).0 & m == 0,
    ensures
        h.unit_cell(k, i, b).0 & m == 0,
{
    lemma_unit_in_range(k, i, b);
    let x = h.unit_cell(k, i, b).0;
    let y = g.unit_cell(k, i, b).0;
    assert(x & y == x);
    crate::bits::lemma_subset_disjoint(x, y, m);
}

impl Grid {
    /// naked_single removes the digit of every solved cell (one candidate left) from the other
    /// cells of its box, column and row, trying boxes, then columns, then rows, and stops after
    /// the first kind of unit where it changed something. Returns true if it changed any cell.
    pub fn naked_single(&mut self) -> (res: bool)
        requires
            old(self).fits(),
        ensures
            narrows(*old(self), *final(self)),
            res == differs(*final(self), *old(self)),
            res == naked_single_applies(*old(self)),
            grid_is(*final(self), naked_single_result(*old(self))),
            has_solution(*old(self)) && naked_single_in(*old(self), Kind::Box) ==> singles_cleared(
                *old(self),
                *final(self),
                Kind::Box,
            ),
            has_solution(*old(self)) && !naked_single_in(*old(self), Kind::Box) && naked_single_in(*old(self), Kind::Col)
                ==> singles_cleared(*old(self), *final(self), Kind::Col),
            has_solution(*old(self)) && !naked_single_in(*old(self), Kind::Box) && !naked_single_in(*old(self), Kind::Col)
                ==> singles_cleared(*old(self), *final(self), Kind::Row),
    {
        if self.naked_single_group(&Group::new(Kind::Box)) {
            return true;
        }
        if self.naked_single_group(&Group::new(Kind::Col)) {
            return true;
        }
        self.naked_single_group(&Group::new(Kind::Row))
    }

    pub fn naked_single_group(&mut self, group: &Group) -> (res: bool)
        requires
            old(self).fits(),
            group.wf(),
        ensures
            narrows(*old(self), *final(self)),
            res == differs(*final(self), *old(self)),
            res == naked_single_in(*old(self), group.kind),
            !res ==> *final(self) == *old(self),
            has_solution(*old(self)) ==> singles_cleared(*old(self), *final(self), group.kind),
            grid_is(*final(self), ns_pass(cells_of(*old(self)), group.kind, 9)),
    {
        let ghost g0 = *self;
        let ghost k = group.kind;
        let mut res = false;
        proof {
            lemma_narrows_refl(g0);
        }
        let mut ci: usize = 0;
        while ci < 9
            invariant
                ci <= 9,
                group.wf(),
                k == group.kind,
                g0.fits(),
                narrows(g0, *self),
                res == differs(*self, g0),
                !res ==> *self == g0,
                res ==> naked_single_in(g0, k),
                !res ==> forall|i: int, j1: int, j2: int|
                    0 <= i < ci && 0 <= j1 < 9 && 0 <= j2 < 9 ==> !#[trigger] naked_single_at(g0, k, i, j1, j2),
                has_solution(g0) ==> forall|i: int, a: int, b: int|
                    0 <= i < ci && 0 <= a < 9 && 0 <= b < 9 && a != b && g0.unit_cell(k, i, a).size() == 1
                        ==> #[trigger] self.unit_cell(k, i, b).0 & #[trigger] g0.unit_cell(k, i, a).0 == 0,
                grid_is(*self, ns_pass(cells_of(g0), k, ci as int)),
            decreases 9 - ci,
        {
            let mut j1: usize = 0;
            while j1 < 9
                invariant
                    ci < 9,
                    j1 <= 9,
                    group.wf(),
                    k == group.kind,
                    g0.fits(),
                    narrows(g0, *self),
                    res == differs(*self, g0),
                    !res ==> *self == g0,
                    res ==> naked_single_in(g0, k),
                    !res ==> forall|i: int, a: int, b: int|
                        0 <= i < ci && 0 <= a < 9 && 0 <= b < 9 ==> !#[trigger] naked_single_at(g0, k, i, a, b),
                    !res ==> forall|a: int, b: int|
                        0 <= a < j1 && 0 <= b < 9 ==> !#[trigger] naked_single_at(g0, k, ci as int, a, b),
                    has_solution(g0) ==> forall|i: int, a: int, b: int|
                        0 <= i < ci && 0 <= a < 9 && 0 <= b < 9 && a != b && g0.unit_cell(k, i, a).size() == 1
                            ==> #[trigger] self.unit_cell(k, i, b).0 & #[trigger] g0.unit_cell(k, i, a).0 == 0,
                    has_solution(g0) ==> forall|a: int, b: int|
                        0 <= a < j1 && 0 <= b < 9 && a != b && g0.unit_cell(k, ci as int, a).size() == 1
                            ==> #[trigger] self.unit_cell(k, ci as int, b).0 & #[trigger] g0.unit_cell(k, ci as int, a).0 == 0,
                    grid_is(*self, ns_unit(ns_pass(cells_of(g0), k, ci as int), k, ci as int, j1 as int)),
                decreases 9 - j1,
            {
                proof {
                    lemma_narrower_keeps(*self, g0);
                }
                let p1 = group.cells[ci][j1];
                let val = self.cells[p1.0][p1.1];
                proof {
                    assert(self.at(p1.0 as int, p1.1 as int).fits());
                    if has_solution(g0) && g0.unit_cell(k, ci as int, j1 as int).size() == 1 {
                        lemma_unit_in_range(k, ci as int, j1 as int);
                        lemma_single_stays(g0, *self, p1.0 as int, p1.1 as int);
                    }
                }
                let ghost mid = *self;
                let ghost fu = ns_unit(ns_pass(cells_of(g0), k, ci as int), k, ci as int, j1 as int);
                proof {
                    crate::grid::lemma_unit_in_range(k, ci as int, j1 as int);
                    assert(val == unit_fn(fu, k, ci as int, j1 as int));
                }
                if val.count() == 1 {
                    let ghost before = *self;
                    proof {
                        assert forall|s: spec_fn(int, int) -> int, j: int|
                            is_solution(s) && #[trigger] compatible(before, s) && 0 <= j < 9 && !has_bit(1u16 << j1 as u16, j)
                                implies !has_bit(val.0, #[trigger] sol_at(s, k, ci as int, j)) by {
                            lemma_bit_single(j1 as u16, j);
                            let v1 = sol_at(s, k, ci as int, j1 as int);
                            assert(before.unit_cell(k, ci as int, j1 as int).has(v1));
                            if has_bit(val.0, sol_at(s, k, ci as int, j)) {
                                lemma_popcount_exhausted(val.0, set![v1], sol_at(s, k, ci as int, j));
                            }
                        }
                    }
                    let ch = self.clear_unit(group, ci, 1u16 << j1 as u16, val.0);
                    proof {
                        assert forall|x: int| 0 <= x < 9 implies #[trigger] has_bit(1u16 << j1 as u16, x) == (x == j1) by {
                            lemma_bit_single(j1 as u16, x);
                        }
                        assert(same_fn(cells_of(before), fu));
                        lemma_clear_same(cells_of(before), fu, k, ci as int, |x: int| has_bit(1u16 << j1 as u16, x), |x: int| x == j1, val.0);
                        assert(grid_is(*self, ns_unit(ns_pass(cells_of(g0), k, ci as int), k, ci as int, j1 + 1)));
                    }
                    proof {
                        lemma_narrows_trans(g0, before, *self);
                        if res {
                            lemma_differs_stays(g0, before, *self);
                        }
                        if !res {
                            assert forall|b: int| 0 <= b < 9 implies !#[trigger] naked_single_at(g0, k, ci as int, j1 as int, b)
                                || ch by {
                                lemma_bit_single(j1 as u16, b);
                            }
                            if ch {
                                let b = choose|b: int| 0 <= b < 9 && !has_bit(1u16 << j1 as u16, b)
                                    && #[trigger] g0.unit_cell(k, ci as int, b).0 & val.0 != 0;
                                lemma_bit_single(j1 as u16, b);
                                assert(naked_single_at(g0, k, ci as int, j1 as int, b));
                            }
                        }
                    }
                    proof {
                        if has_solution(g0) {
                            assert forall|i: int, a: int, b: int|
                                0 <= i < ci && 0 <= a < 9 && 0 <= b < 9 && a != b && g0.unit_cell(k, i, a).size() == 1
                                    implies #[trigger] self.unit_cell(k, i, b).0 & #[trigger] g0.unit_cell(k, i, a).0 == 0 by {
                                lemma_disjoint_within(before, *self, k, i, b, g0.unit_cell(k, i, a).0);
                            }
                            assert forall|a: int, b: int|
                                0 <= a <= j1 && 0 <= b < 9 && a != b && g0.unit_cell(k, ci as int, a).size() == 1
                                    implies #[trigger] self.unit_cell(k, ci as int, b).0 & #[trigger] g0.unit_cell(k, ci as int, a).0
                                    == 0 by {
                                if a < j1 {
                                    lemma_disjoint_within(before, *self, k, ci as int, b, g0.unit_cell(k, ci as int, a).0);
                                } else {
                                    lemma_bit_single(j1 as u16, b);
                                    assert(val == g0.unit_cell(k, ci as int, a));
                                }
                            }
                        }
                    }
                    if ch {
                        res = true;
                    }
                } else {
                    proof {
                        assert(grid_is(*self, ns_unit(ns_pass(cells_of(g0), k, ci as int), k, ci as int, j1 + 1)));
                    }
                }
                j1 += 1;
            }
            ci += 1;
        }
        res
    }
}

} // verus!
