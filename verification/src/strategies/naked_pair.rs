//! Naked pair: two cells of a unit with the same two candidates remove them from the rest.
use vstd::prelude::*;
use crate::bits::{has_bit, lemma_bit_single, lemma_bit_or, lemma_popcount_exhausted, lemma_popcount_zero,
    lemma_bit_and_not, lemma_bits_ext};
use crate::cell::Cell;
use crate::grid::{Grid, Group, Kind, differs, lemma_narrower_keeps, lemma_unit_in_range};
use crate::search::has_solution;
use crate::strategies::naked_single::lemma_disjoint_within;
use crate::strategies::pass::{cells_of, grid_is, same_fn, unit_fn, clear_fn, lemma_clear_same};
use crate::model::{is_solution, compatible, narrows, sol_at, lemma_narrows_refl, lemma_narrows_trans,
    lemma_differs_stays};

verus! {

/// Cells `j1` and `j2` of unit `i` hold the same two candidates, which cell `j3` still has.
pub open spec fn naked_pair_at(g: Grid, k: Kind, i: int, j1: int, j2: int, j3: int) -> bool {
    &&& j1 != j2
    &&& j3 != j1
    &&& j3 != j2
    &&& g.unit_cell(k, i, j1).size() == 2
    &&& g.unit_cell(k, i, j2) == g.unit_cell(k, i, j1)
    &&& g.unit_cell(k, i, j3).0 & g.unit_cell(k, i, j1).0 != 0
}

/// A naked pair can remove a candidate in some unit of kind `k`.
pub open spec fn naked_pair_in(g: Grid, k: Kind) -> bool {
    exists|i: int, j1: int, j2: int, j3: int|
        0 <= i < 9 && 0 <= j1 < 9 && 0 <= j2 < 9 && 0 <= j3 < 9 && #[trigger] naked_pair_at(
            g,
            k,
            i,
            j1,
            j2,
            j3,
        )
}

/// A naked pair can remove a candidate somewhere in the grid.
pub open spec fn naked_pair_applies(g: Grid) -> bool {
    naked_pair_in(g, Kind::Box) || naked_pair_in(g, Kind::Col) || naked_pair_in(g, Kind::Row)
}

pub proof fn lemma_two_bits(a: u16, b: u16, i: int)
    requires
        a < 16,
        b < 16,
    ensures
        has_bit((1u16 << a) | (1u16 << b), i) == (i == a || i == b),
{
    lemma_bit_or(1u16 << a, 1u16 << b, i);
    lemma_bit_single(a, i);
    lemma_bit_single(b, i);
}

/// The first position from `j` on, other than `j1`, of unit `ci` whose cell is `cell`, or 9.
pub open spec fn np_first(f: spec_fn(int, int) -> Cell, k: Kind, ci: int, j1: int, cell: Cell, j: int) -> int
    decreases 9 - j,
{
    if j >= 9 {
        9
    } else if j != j1 && unit_fn(f, k, ci, j) == cell {
        j
    } else {
        np_first(f, k, ci, j1, cell, j + 1)
    }
}

/// One step of the pass: if cell `j1` of unit `ci` has two candidates and another cell of the
/// unit holds the same two, the first such cell and cell `j1` keep them and the other cells
/// of the unit lose them.
pub open spec fn np_step(f: spec_fn(int, int) -> Cell, k: Kind, ci: int, j1: int) -> spec_fn(int, int) -> Cell {
    let cell = unit_fn(f, k, ci, j1);
    let j2 = np_first(f, k, ci, j1, cell, 0);
    if cell.size() == 2 && j2 < 9 {
        clear_fn(f, k, ci, |x: int| x == j1 || x == j2, cell.0)
    } else {
        f
    }
}

/// The steps of the pass for the first `n` cells of unit `ci`, in order.
pub open spec fn np_unit(f: spec_fn(int, int) -> Cell, k: Kind, ci: int, n: int) -> spec_fn(int, int) -> Cell
    decreases n,
{
    if n <= 0 {
        f
    } else {
        np_step(np_unit(f, k, ci, n - 1), k, ci, n - 1)
    }
}

/// The pass over the first `n` units of kind `k`, in order.
pub open spec fn np_pass(f: spec_fn(int, int) -> Cell, k: Kind, n: int) -> spec_fn(int, int) -> Cell
    decreases n,
{
    if n <= 0 {
        f
    } else {
        np_unit(np_pass(f, k, n - 1), k, n - 1, 9)
    }
}

/// What `naked_pair` makes of `g`: the pass over the boxes if a naked pair can act in a box,
/// else over the columns if it can act in a column, else over the rows.
pub open spec fn naked_pair_result(g: Grid) -> spec_fn(int, int) -> Cell {
    if naked_pair_in(g, Kind::Box) {
        np_pass(cells_of(g), Kind::Box, 9)
    } else if naked_pair_in(g, Kind::Col) {
        np_pass(cells_of(g), Kind::Col, 9)
    } else {
        np_pass(cells_of(g), Kind::Row, 9)
    }
}

/// Cells `a` and `b` of unit `i` hold the same two candidates.
pub open spec fn pair_of(g: Grid, k: Kind, i: int, a: int, b: int) -> bool {
    &&& a != b
    &&& g.unit_cell(k, i, a).size() == 2
    &&& g.unit_cell(k, i, b) == g.unit_cell(k, i, a)
}

/// In `g`, no cell of a unit of kind `k` outside a naked pair of `g0` still has one of the
/// pair's candidates.
pub open spec fn pairs_cleared(g0: Grid, g: Grid, k: Kind) -> bool {
    forall|i: int, a: int, b: int, c: int|
        0 <= i < 9 && 0 <= a < 9 && 0 <= b < 9 && 0 <= c < 9 && c != a && c != b && #[trigger] pair_of(g0, k, i, a, b)
            ==> #[trigger] g.unit_cell(k, i, c).0 & g0.unit_cell(k, i, a).0 == 0
}

/// The candidates of a naked pair are the digits a completed sudoku puts in its two cells.
proof fn lemma_pair_digits(g: Grid, s: spec_fn(int, int) -> int, k: Kind, i: int, a: int, b: int, x: int)
    requires
        is_solution(s),
        compatible(g, s),
        0 <= i < 9,
        0 <= a < 9,
        0 <= b < 9,
        pair_of(g, k, i, a, b),
    ensures
        has_bit(g.unit_cell(k, i, a).0, x) == (x == sol_at(s, k, i, a) || x == sol_at(s, k, i, b)),
{
    lemma_unit_in_range(k, i, a);
    lemma_unit_in_range(k, i, b);
    let va = sol_at(s, k, i, a);
    let vb = sol_at(s, k, i, b);
    assert(g.unit_cell(k, i, a).has(va));
    assert(g.unit_cell(k, i, b).has(vb));
    assert(va != vb);
    if has_bit(g.unit_cell(k, i, a).0, x) {
        lemma_popcount_exhausted(g.unit_cell(k, i, a).0, set![va, vb], x);
    }
}

/// Where a completed sudoku fits `g0`, the only other cell of a unit that still holds exactly
/// the candidates of a naked pair of `g0` is the pair's other cell.
proof fn lemma_partner(g0: Grid, g: Grid, k: Kind, i: int, a: int, b: int, j: int)
    requires
        has_solution(g0),
        narrows(g0, g),
        0 <= i < 9,
        0 <= a < 9,
        0 <= b < 9,
        0 <= j < 9,
        j != a,
        pair_of(g0, k, i, a, b),
        g.unit_cell(k, i, j) == g0.unit_cell(k, i, a),
    ensures
        j == b,
{
    let s = choose|s: spec_fn(int, int) -> int| is_solution(s) && #[trigger] compatible(g0, s);
    assert(compatible(g, s));
    lemma_unit_in_range(k, i, j);
    let vj = sol_at(s, k, i, j);
    assert(g.unit_cell(k, i, j).has(vj));
    lemma_pair_digits(g0, s, k, i, a, b, vj);
    if j != b {
        assert(sol_at(s, k, i, j) != sol_at(s, k, i, a));
        assert(sol_at(s, k, i, j) != sol_at(s, k, i, b));
    }
}

/// Where a completed sudoku fits `g0`, clearing the candidates of a naked pair `j1`, `j2` of
/// `before` from the rest of unit `ci` leaves every naked pair of `g0` as it was.
proof fn lemma_pair_survives(g0: Grid, before: Grid, after: Grid, k: Kind, ci: int, j1: int, j2: int, i: int, a: int, b: int)
    requires
        has_solution(g0),
        narrows(g0, before),
        0 <= ci < 9,
        0 <= j1 < 9,
        0 <= j2 < 9,
        0 <= i < 9,
        0 <= a < 9,
        0 <= b < 9,
        pair_of(g0, k, i, a, b),
        before.unit_cell(k, i, a) == g0.unit_cell(k, i, a),
        before.unit_cell(k, i, b) == g0.unit_cell(k, i, b),
        pair_of(before, k, ci, j1, j2),
        forall|j: int| 0 <= j < 9 && j != j1 && j != j2 ==> #[trigger] after.unit_cell(k, ci, j).0
            == before.unit_cell(k, ci, j).0 & !before.unit_cell(k, ci, j1).0,
        after.unit_cell(k, ci, j1) == before.unit_cell(k, ci, j1),
        after.unit_cell(k, ci, j2) == before.unit_cell(k, ci, j2),
        forall|i2: int, j: int| 0 <= i2 < 9 && i2 != ci && 0 <= j < 9 ==> #[trigger] after.unit_cell(k, i2, j)
            == before.unit_cell(k, i2, j),
    ensures
        after.unit_cell(k, i, a) == g0.unit_cell(k, i, a),
{
    if i == ci && a != j1 && a != j2 {
        let s = choose|s: spec_fn(int, int) -> int| is_solution(s) && #[trigger] compatible(g0, s);
        assert(compatible(before, s));
        let p = g0.unit_cell(k, i, a).0;
        let m = before.unit_cell(k, ci, j1).0;
        if b == j1 || b == j2 {
            let other = if b == j1 { j2 } else { j1 };
            assert(pair_of(before, k, ci, b, other));
            lemma_unit_in_range(k, ci, other);
            assert(before.unit_cell(k, ci, other) == g0.unit_cell(k, ci, a));
            lemma_partner(g0, before, k, ci, b, a, other);
        }
        assert forall|x: int| 0 <= x < 16 implies #[trigger] has_bit(p & !m, x) == has_bit(p, x) by {
            lemma_bit_and_not(p, m, x);
            lemma_pair_digits(g0, s, k, ci, a, b, x);
            lemma_pair_digits(before, s, k, ci, j1, j2, x);
            if has_bit(p, x) {
                assert(sol_at(s, k, ci, a) != sol_at(s, k, ci, j1));
                assert(sol_at(s, k, ci, a) != sol_at(s, k, ci, j2));
                assert(sol_at(s, k, ci, b) != sol_at(s, k, ci, j1));
                assert(sol_at(s, k, ci, b) != sol_at(s, k, ci, j2));
            }
        }
        lemma_bits_ext(p & !m, p);
        assert(after.unit_cell(k, i, a).0 == p);
    }
}

impl Grid {
    /// naked_pair looks in each unit for two cells holding only the same pair of candidates;
    /// those two digits are then removed from the other cells of the unit. Boxes, then columns,
    /// then rows; it stops after the first kind of unit where it changed something. Returns
    /// true if it changed any cell.
    pub fn naked_pair(&mut self) -> (res: bool)
        requires
            old(self).fits(),
        ensures
            narrows(*old(self), *final(self)),
            res == differs(*final(self), *old(self)),
            res == naked_pair_applies(*old(self)),
            grid_is(*final(self), naked_pair_result(*old(self))),
            has_solution(*old(self)) && naked_pair_in(*old(self), Kind::Box) ==> pairs_cleared(*old(self), *final(self), Kind::Box),
            has_solution(*old(self)) && !naked_pair_in(*old(self), Kind::Box) && naked_pair_in(*old(self), Kind::Col)
                ==> pairs_cleared(*old(self), *final(self), Kind::Col),
            has_solution(*old(self)) && !naked_pair_in(*old(self), Kind::Box) && !naked_pair_in(*old(self), Kind::Col)
                ==> pairs_cleared(*old(self), *final(self), Kind::Row),
    {
        if self.naked_pair_group(&Group::new(Kind::Box)) {
            return true;
        }
        if self.naked_pair_group(&Group::new(Kind::Col)) {
            return true;
        }
        self.naked_pair_group(&Group::new(Kind::Row))
    }

    pub fn naked_pair_group(&mut self, group: &Group) -> (res: bool)
        requires
            old(self).fits(),
            group.wf(),
        ensures
            narrows(*old(self), *final(self)),
            res == differs(*final(self), *old(self)),
            res == naked_pair_in(*old(self), group.kind),
            !res ==> *final(self) == *old(self),
            has_solution(*old(self)) ==> pairs_cleared(*old(self), *final(self), group.kind),
            grid_is(*final(self), np_pass(cells_of(*old(self)), group.kind, 9)),
    {
        let ghost g0 = *self;
        let ghost k = group.kind;
        let mut res = false;
        proof {
            lemma_narrows_refl(g0);
        }
        let mut ci: usize = 0;
        while ci < 9
            invariant
                ci <= 9,
                group.wf(),
                k == group.kind,
                g0.fits(),
                narrows(g0, *self),
                res == differs(*self, g0),
                !res ==> *self == g0,
                res ==> naked_pair_in(g0, k),
                !res ==> forall|i: int, a: int, b: int, c: int|
                    0 <= i < ci && 0 <= a < 9 && 0 <= b < 9 && 0 <= c < 9 ==> !#[trigger] naked_pair_at(g0, k, i, a, b, c),
                has_solution(g0) ==> forall|i: int, a: int, b: int|
                    0 <= i < 9 && 0 <= a < 9 && 0 <= b < 9 && #[trigger] pair_of(g0, k, i, a, b) ==> self.unit_cell(k, i, a)
                        == g0.unit_cell(k, i, a),
                has_solution(g0) ==> forall|i: int, a: int, b: int, c: int|
                    0 <= i < ci && 0 <= a < 9 && 0 <= b < 9 && 0 <= c < 9 && c != a && c != b && #[trigger] pair_of(g0, k, i, a, b)
                        ==> #[trigger] self.unit_cell(k, i, c).0 & g0.unit_cell(k, i, a).0 == 0,
                grid_is(*self, np_pass(cells_of(g0), k, ci as int)),
            decreases 9 - ci,
        {
            let mut j1: usize = 0;
            while j1 < 9
                invariant
                    ci < 9,
                    j1 <= 9,
                    group.wf(),
                    k == group.kind,
                    g0.fits(),
                    narrows(g0, *self),
                    res == differs(*self, g0),
                    !res ==> *self == g0,
                    res ==> naked_pair_in(g0, k),
                    !res ==> forall|i: int, a: int, b: int, c: int|
                        0 <= i < ci && 0 <= a < 9 && 0 <= b < 9 && 0 <= c < 9 ==> !#[trigger] naked_pair_at(g0, k, i, a, b, c),
                    !res ==> forall|a: int, b: int, c: int|
                        0 <= a < j1 && 0 <= b < 9 && 0 <= c < 9 ==> !#[trigger] naked_pair_at(g0, k, ci as int, a, b, c),
                    has_solution(g0) ==> forall|i: int, a: int, b: int|
                    0 <= i < 9 && 0 <= a < 9 && 0 <= b < 9 && #[trigger] pair_of(g0, k, i, a, b) ==> self.unit_cell(k, i, a)
                        == g0.unit_cell(k, i, a),
                    has_solution(g0) ==> forall|i: int, a: int, b: int, c: int|
                    0 <= i < ci && 0 <= a < 9 && 0 <= b < 9 && 0 <= c < 9 && c != a && c != b && #[trigger] pair_of(g0, k, i, a, b)
                        ==> #[trigger] self.unit_cell(k, i, c).0 & g0.unit_cell(k, i, a).0 == 0,
                    has_solution(g0) ==> forall|a: int, b: int, c: int|
                    0 <= a < j1 && 0 <= b < 9 && 0 <= c < 9 && c != a && c != b && #[trigger] pair_of(g0, k, ci as int, a, b)
                        ==> #[trigger] self.unit_cell(k, ci as int, c).0 & g0.unit_cell(k, ci as int, a).0 == 0,
                    grid_is(*self, np_unit(np_pass(cells_of(g0), k, ci as int), k, ci as int, j1 as int)),
                decreases 9 - j1,
            {
                proof {
                    lemma_narrower_keeps(*self, g0);
                }
                let p1 = group.cells[ci][j1];
                let cell1 = self.get(p1);
                let ghost fu = np_unit(np_pass(cells_of(g0), k, ci as int), k, ci as int, j1 as int);
                proof {
                    crate::grid::lemma_unit_in_range(k, ci as int, j1 as int);
                    assert(cell1 == unit_fn(fu, k, ci as int, j1 as int));
                }
                proof {
                    assert(self.at(p1.0 as int, p1.1 as int).fits());
                }
                if cell1.count() == 2 {
                    proof {
                        lemma_popcount_zero(cell1.0);
                    }
                    let ghost res0 = res;
                    let ghost mid = *self;
                    let mut found = false;
                    let mut j2: usize = 0;
                    while j2 < 9 && !found
                        invariant
                            ci < 9,
                            j1 < 9,
                            j2 <= 9,
                            group.wf(),
                            k == group.kind,
                            g0.fits(),
                            cell1.size() == 2,
                            cell1.0 != 0,
                            !res0 ==> cell1 == g0.unit_cell(k, ci as int, j1 as int),
                            res0 ==> res,
                            narrows(g0, *self),
                            res == differs(*self, g0),
                            !res ==> *self == g0,
                            res ==> naked_pair_in(g0, k),
                            !found ==> res == res0,
                            !found ==> cell1 == self.unit_cell(k, ci as int, j1 as int),
                            !res0 && !found ==> forall|b: int|
                                0 <= b < j2 && b != j1 ==> #[trigger] g0.unit_cell(k, ci as int, b) != cell1,
                            !res0 && found && !res ==> forall|b: int, c: int|
                                0 <= b < 9 && 0 <= c < 9 ==> !#[trigger] naked_pair_at(g0, k, ci as int, j1 as int, b, c),
                            !found ==> *self == mid,
                            cell1 == mid.unit_cell(k, ci as int, j1 as int),
                            !found ==> forall|b: int| 0 <= b < j2 && b != j1 ==> #[trigger] self.unit_cell(k, ci as int, b) != cell1,
                            has_solution(g0) ==> forall|i: int, a: int, b: int|
                    0 <= i < 9 && 0 <= a < 9 && 0 <= b < 9 && #[trigger] pair_of(g0, k, i, a, b) ==> self.unit_cell(k, i, a)
                        == g0.unit_cell(k, i, a),
                            has_solution(g0) ==> forall|i: int, a: int, b: int, c: int|
                    0 <= i < ci && 0 <= a < 9 && 0 <= b < 9 && 0 <= c < 9 && c != a && c != b && #[trigger] pair_of(g0, k, i, a, b)
                        ==> #[trigger] self.unit_cell(k, i, c).0 & g0.unit_cell(k, i, a).0 == 0,
                            has_solution(g0) ==> forall|a: int, b: int, c: int|
                    0 <= a < j1 && 0 <= b < 9 && 0 <= c < 9 && c != a && c != b && #[trigger] pair_of(g0, k, ci as int, a, b)
                        ==> #[trigger] self.unit_cell(k, ci as int, c).0 & g0.unit_cell(k, ci as int, a).0 == 0,
                            grid_is(mid, fu),
                            cell1 == unit_fn(fu, k, ci as int, j1 as int),
                            !found ==> np_first(fu, k, ci as int, j1 as int, cell1, 0) == np_first(fu, k, ci as int, j1 as int, cell1, j2 as int),
                            found ==> grid_is(*self, np_step(fu, k, ci as int, j1 as int)),
                            has_solution(g0) && found ==> forall|b: int, c: int|
                                0 <= b < 9 && 0 <= c < 9 && c != j1 && c != b && #[trigger] pair_of(g0, k, ci as int, j1 as int, b)
                                    ==> #[trigger] self.unit_cell(k, ci as int, c).0 & g0.unit_cell(k, ci as int, j1 as int).0 == 0,
                        decreases 9 - j2,
                    {
                        if j1 != j2 {
                            let p2 = group.cells[ci][j2];
                            let cell2 = self.get(p2);
                            proof {
                                crate::grid::lemma_unit_in_range(k, ci as int, j2 as int);
                                assert(cell2 == unit_fn(fu, k, ci as int, j2 as int));
                            }
                            if cell1 == cell2 {
                                let keep = (1u16 << j1 as u16) | (1u16 << j2 as u16);
                                let ghost before = *self;
                                proof {
                                    assert forall|s: spec_fn(int, int) -> int, j: int|
                                        is_solution(s) && #[trigger] compatible(before, s) && 0 <= j < 9
                                            && !has_bit(keep, j) implies !has_bit(
                                        cell1.0,
                                        #[trigger] sol_at(s, k, ci as int, j),
                                    ) by {
                                        lemma_two_bits(j1 as u16, j2 as u16, j);
                                        let v1 = sol_at(s, k, ci as int, j1 as int);
                                        let v2 = sol_at(s, k, ci as int, j2 as int);
                                        assert(before.unit_cell(k, ci as int, j1 as int).has(v1));
                                        assert(before.unit_cell(k, ci as int, j2 as int).has(v2));
                                        assert(v1 != v2);
                                        if has_bit(cell1.0, sol_at(s, k, ci as int, j)) {
                                            lemma_popcount_exhausted(cell1.0, set![v1, v2], sol_at(s, k, ci as int, j));
                                        }
                                    }
                                }
                                let ch = self.clear_unit(group, ci, keep, cell1.0);
                                proof {
                                    assert forall|x: int| 0 <= x < 9 implies #[trigger] has_bit(keep, x) == (x == j1 || x == j2) by {
                                        lemma_two_bits(j1 as u16, j2 as u16, x);
                                    }
                                    assert(np_first(fu, k, ci as int, j1 as int, cell1, j2 as int) == j2);
                                    assert(same_fn(cells_of(before), fu));
                                    lemma_clear_same(cells_of(before), fu, k, ci as int, |x: int| has_bit(keep, x), |x: int| x == j1 || x == j2, cell1.0);
                                    assert(grid_is(*self, np_step(fu, k, ci as int, j1 as int)));
                                }
                                proof {
                                    assert forall|j: int| 0 <= j < 9 && j != j1 && j != j2 implies #[trigger] self.unit_cell(k, ci as int, j).0
                                        == before.unit_cell(k, ci as int, j).0 & !before.unit_cell(k, ci as int, j1 as int).0 by {
                                        lemma_two_bits(j1 as u16, j2 as u16, j);
                                    }
                                    lemma_two_bits(j1 as u16, j2 as u16, j1 as int);
                                    lemma_two_bits(j1 as u16, j2 as u16, j2 as int);
                                    assert(pair_of(before, k, ci as int, j1 as int, j2 as int));
                                    if has_solution(g0) {
                                        assert forall|i: int, a: int, b: int|
                                            0 <= i < 9 && 0 <= a < 9 && 0 <= b < 9 && #[trigger] pair_of(g0, k, i, a, b) implies self.unit_cell(k, i, a)
                                                == g0.unit_cell(k, i, a) by {
                                            assert(pair_of(g0, k, i, b, a));
                                            lemma_pair_survives(g0, before, *self, k, ci as int, j1 as int, j2 as int, i, a, b);
                                        }
                                        assert forall|i: int, a: int, b: int, c: int|
                                            0 <= i < ci && 0 <= a < 9 && 0 <= b < 9 && 0 <= c < 9 && c != a && c != b && #[trigger] pair_of(g0, k, i, a, b)
                                                implies #[trigger] self.unit_cell(k, i, c).0 & g0.unit_cell(k, i, a).0 == 0 by {
                                            lemma_disjoint_within(before, *self, k, i, c, g0.unit_cell(k, i, a).0);
                                        }
                                        assert forall|a: int, b: int, c: int|
                                            0 <= a < j1 && 0 <= b < 9 && 0 <= c < 9 && c != a && c != b && #[trigger] pair_of(g0, k, ci as int, a, b)
                                                implies #[trigger] self.unit_cell(k, ci as int, c).0 & g0.unit_cell(k, ci as int, a).0 == 0 by {
                                            lemma_disjoint_within(before, *self, k, ci as int, c, g0.unit_cell(k, ci as int, a).0);
                                        }
                                        assert forall|b: int, c: int|
                                            0 <= b < 9 && 0 <= c < 9 && c != j1 && c != b && #[trigger] pair_of(g0, k, ci as int, j1 as int, b)
                                                implies #[trigger] self.unit_cell(k, ci as int, c).0 & g0.unit_cell(k, ci as int, j1 as int).0 == 0 by {
                                            assert(before.unit_cell(k, ci as int, j1 as int) == g0.unit_cell(k, ci as int, j1 as int));
                                            lemma_partner(g0, before, k, ci as int, j1 as int, b, j2 as int);
                                            lemma_two_bits(j1 as u16, j2 as u16, c);
                                        }
                                    }
                                    lemma_narrows_trans(g0, before, *self);
                                    if res {
                                        lemma_differs_stays(g0, before, *self);
                                    }
                                    if !res {
                                        if ch {
                                            let c = choose|c: int| 0 <= c < 9 && !has_bit(keep, c)
                                                && #[trigger] g0.unit_cell(k, ci as int, c).0 & cell1.0 != 0;
                                            lemma_two_bits(j1 as u16, j2 as u16, c);
                                            assert(naked_pair_at(g0, k, ci as int, j1 as int, j2 as int, c));
                                        } else {
                                            assert forall|b: int, c: int| 0 <= b < 9 && 0 <= c < 9 implies
                                                !#[trigger] naked_pair_at(g0, k, ci as int, j1 as int, b, c) by {
                                                lemma_two_bits(j1 as u16, j2 as u16, b);
                                                lemma_two_bits(j1 as u16, j2 as u16, c);
                                                if b > j2 && b != j1 && g0.unit_cell(k, ci as int, b) == cell1 {
                                                    assert(g0.unit_cell(k, ci as int, b).0 & cell1.0 == cell1.0);
                                                }
                                            }
                                        }
                                    }
                                }
                                if ch {
                                    res = true;
                                }
                                found = true;
                            }
                        }
                        j2 += 1;
                    }
                    proof {
                        if !found {
                            assert(np_first(fu, k, ci as int, j1 as int, cell1, j2 as int) == 9);
                            assert(grid_is(*self, np_step(fu, k, ci as int, j1 as int)));
                        }
                        assert(grid_is(*self, np_unit(np_pass(cells_of(g0), k, ci as int), k, ci as int, j1 + 1)));
                        if !res0 && !res && !found {
                            assert forall|b: int, c: int| 0 <= b < 9 && 0 <= c < 9 implies
                                !#[trigger] naked_pair_at(g0, k, ci as int, j1 as int, b, c) by {
                            }
                        }
                        if has_solution(g0) {
                            assert forall|b: int, c: int|
                                0 <= b < 9 && 0 <= c < 9 && c != j1 && c != b && #[trigger] pair_of(g0, k, ci as int, j1 as int, b)
                                    implies #[trigger] self.unit_cell(k, ci as int, c).0 & g0.unit_cell(k, ci as int, j1 as int).0 == 0 by {
                                if !found {
                                    assert(pair_of(g0, k, ci as int, b, j1 as int));
                                    assert(self.unit_cell(k, ci as int, b) == g0.unit_cell(k, ci as int, b));
                                    assert(mid.unit_cell(k, ci as int, j1 as int) == g0.unit_cell(k, ci as int, j1 as int));
                                    assert(self.unit_cell(k, ci as int, b) != cell1);
                                }
                            }
                        }
                    }
                } else {
                    proof {
                        assert(grid_is(*self, np_unit(np_pass(cells_of(g0), k, ci as int), k, ci as int, j1 + 1)));
                        if has_solution(g0) {
                            assert forall|b: int, c: int|
                                0 <= b < 9 && 0 <= c < 9 && c != j1 && c != b && #[trigger] pair_of(g0, k, ci as int, j1 as int, b)
                                    implies #[trigger] self.unit_cell(k, ci as int, c).0 & g0.unit_cell(k, ci as int, j1 as int).0 == 0 by {
                                assert(self.unit_cell(k, ci as int, j1 as int) == g0.unit_cell(k, ci as int, j1 as int));
                            }
                        }
                    }
                }
                j1 += 1;
            }
            ci += 1;
        }
        res
    }
}

} // verus!
