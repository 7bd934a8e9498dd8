//! Hidden pair: two digits that only the same two cells of a unit can hold fill those cells.
use vstd::prelude::*;
use crate::bits::{has_bit, lemma_and_not_changes, lemma_bit_and};
use crate::grid::{Grid, Group, Kind, Point, differs, narrower};
use crate::model::{is_solution, compatible, narrows, sol_at, unit_holds, lemma_narrows_refl,
    lemma_narrows_trans, lemma_differs_stays, lemma_narrow_step, lemma_compatible_wider};
use crate::strategies::{holders, holds_at, point_of, lemma_holders, same_points, lemma_holders_same, lemma_units_apart};
use crate::grid::lemma_unit_in_range;
use crate::strategies::naked_pair::lemma_two_bits;

verus! {

/// The mask of digits `d1` and `d2`.
pub open spec fn pair_mask(d1: int, d2: int) -> u16 {
    (1u16 << d1 as u16) | (1u16 << d2 as u16)
}

/// Digits `d1` and `d2` are each held by exactly the same two cells of unit `i`, and the
/// `t`-th of those cells has a candidate besides them.
pub open spec fn hidden_pair_at(g: Grid, k: Kind, i: int, d1: int, d2: int, t: int) -> bool {
    let h = holders(g, k, i, d1, 9);
    &&& 1 <= d1 <= 9 && 1 <= d2 <= 9 && d1 != d2
    &&& h.len() == 2
    &&& holders(g, k, i, d2, 9) == h
    &&& 0 <= t < 2
    &&& g.at(h[t].0 as int, h[t].1 as int).0 & !pair_mask(d1, d2) != 0
}

/// A hidden pair can narrow a cell in some unit of kind `k`.
pub open spec fn hidden_pair_in(g: Grid, k: Kind) -> bool {
    exists|i: int, d1: int, d2: int, t: int| 0 <= i < 9 && #[trigger] hidden_pair_at(g, k, i, d1, d2, t)
}

/// A hidden pair can narrow a cell somewhere in the grid.
pub open spec fn hidden_pair_applies(g: Grid) -> bool {
    hidden_pair_in(g, Kind::Box) || hidden_pair_in(g, Kind::Col) || hidden_pair_in(g, Kind::Row)
}

/// Every completed board that fits `g` puts the two digits of a hidden pair on its two holders.
pub proof fn lemma_hidden_pair_sound(g: Grid, k: Kind, i: int, d1: int, d2: int)
    requires
        0 <= i < 9,
        1 <= d1 <= 9,
        1 <= d2 <= 9,
        d1 != d2,
        holders(g, k, i, d1, 9).len() == 2,
        holders(g, k, i, d2, 9) == holders(g, k, i, d1, 9),
    ensures
        forall|s: spec_fn(int, int) -> int, t: int|
            is_solution(s) && #[trigger] compatible(g, s) && 0 <= t < 2 ==> has_bit(
                pair_mask(d1, d2),
                #[trigger] s(holders(g, k, i, d1, 9)[t].0 as int, holders(g, k, i, d1, 9)[t].1 as int),
            ),
{
    let h = holders(g, k, i, d1, 9);
    lemma_holders(g, k, i, d1, 9);
    lemma_holders(g, k, i, d2, 9);
    assert forall|s: spec_fn(int, int) -> int, t: int|
        is_solution(s) && #[trigger] compatible(g, s) && 0 <= t < 2 implies
        has_bit(pair_mask(d1, d2), #[trigger] s(h[t].0 as int, h[t].1 as int)) by {
        assert(unit_holds(s, k, i, d1));
        assert(unit_holds(s, k, i, d2));
        let ja = choose|j: int| 0 <= j < 9 && #[trigger] sol_at(s, k, i, j) == d1;
        let jb = choose|j: int| 0 <= j < 9 && #[trigger] sol_at(s, k, i, j) == d2;
        crate::grid::lemma_unit_in_range(k, i, ja);
        crate::grid::lemma_unit_in_range(k, i, jb);
        assert(g.unit_cell(k, i, ja).has(d1));
        assert(g.unit_cell(k, i, jb).has(d2));
        assert(h.contains(point_of(k, i, ja)));
        assert(h.contains(point_of(k, i, jb)));
        lemma_two_bits(d1 as u16, d2 as u16, d1);
        lemma_two_bits(d1 as u16, d2 as u16, d2);
    }
}

/// Digits `d1` and `d2` are each held by exactly the same two cells of unit `i`.
pub open spec fn is_hidden_pair(g: Grid, k: Kind, i: int, d1: int, d2: int) -> bool {
    &&& 1 <= d1 <= 9 && 1 <= d2 <= 9 && d1 != d2
    &&& holders(g, k, i, d1, 9).len() == 2
    &&& holders(g, k, i, d2, 9) == holders(g, k, i, d1, 9)
}

/// If digits `d1` and `d2` form a hidden pair of unit `i` in `g0`, its two cells have no other
/// candidate left in `g`.
pub open spec fn hidden_pair_kept(g0: Grid, g: Grid, k: Kind, i: int, d1: int, d2: int) -> bool {
    is_hidden_pair(g0, k, i, d1, d2) ==> forall|t: int|
        0 <= t < 2 ==> #[trigger] g.at(holders(g0, k, i, d1, 9)[t].0 as int, holders(g0, k, i, d1, 9)[t].1 as int).0
            & !pair_mask(d1, d2) == 0
}

/// Cell `j` of unit `i` is a cell of some hidden pair of `g`.
pub open spec fn on_hidden_pair(g: Grid, k: Kind, i: int, j: int) -> bool {
    exists|d1: int, d2: int| #[trigger] is_hidden_pair(g, k, i, d1, d2) && holders(g, k, i, d1, 9).contains(point_of(k, i, j))
}

/// Digit `e` is one of the two digits of every hidden pair of `g` that has cell `j` of unit
/// `i`.
pub open spec fn in_all_pairs(g: Grid, k: Kind, i: int, j: int, e: int) -> bool {
    forall|d1: int, d2: int|
        #[trigger] is_hidden_pair(g, k, i, d1, d2) && holders(g, k, i, d1, 9).contains(point_of(k, i, j)) ==> has_bit(
            pair_mask(d1, d2),
            e,
        )
}

/// In the units of kind `k`, every hidden pair of `g0` has left only its two digits in its
/// cells in `g`, no cell has lost a digit of every hidden pair that has it, and every cell of
/// no hidden pair is as in `g0`.
pub open spec fn hidden_pairs_done(g0: Grid, g: Grid, k: Kind) -> bool {
    &&& forall|i: int, d1: int, d2: int| 0 <= i < 9 ==> #[trigger] hidden_pair_kept(g0, g, k, i, d1, d2)
    &&& forall|i: int, j: int, e: int|
        0 <= i < 9 && 0 <= j < 9 && g0.unit_cell(k, i, j).has(e) && in_all_pairs(g0, k, i, j, e) ==> #[trigger] g.unit_cell(
            k,
            i,
            j,
        ).has(e)
    &&& forall|i: int, j: int|
        0 <= i < 9 && 0 <= j < 9 && !on_hidden_pair(g0, k, i, j) ==> #[trigger] g.unit_cell(k, i, j) == g0.unit_cell(k, i, j)
}

/// Grids that agree on the cells of unit `i` agree on which digits every hidden pair there has.
proof fn lemma_all_pairs_same(a: Grid, b: Grid, k: Kind, i: int, j: int, e: int)
    requires
        forall|jj: int| 0 <= jj < 9 ==> #[trigger] a.unit_cell(k, i, jj) == b.unit_cell(k, i, jj),
    ensures
        in_all_pairs(a, k, i, j, e) == in_all_pairs(b, k, i, j, e),
{
    if in_all_pairs(a, k, i, j, e) {
        assert forall|d1: int, d2: int|
            #[trigger] is_hidden_pair(b, k, i, d1, d2) && holders(b, k, i, d1, 9).contains(point_of(k, i, j)) implies has_bit(
            pair_mask(d1, d2),
            e,
        ) by {
            lemma_holders_same(a, b, k, i, d1, 9);
            lemma_holders_same(a, b, k, i, d2, 9);
            assert(is_hidden_pair(a, k, i, d1, d2));
        }
    }
    if in_all_pairs(b, k, i, j, e) {
        assert forall|d1: int, d2: int|
            #[trigger] is_hidden_pair(a, k, i, d1, d2) && holders(a, k, i, d1, 9).contains(point_of(k, i, j)) implies has_bit(
            pair_mask(d1, d2),
            e,
        ) by {
            lemma_holders_same(a, b, k, i, d1, 9);
            lemma_holders_same(a, b, k, i, d2, 9);
            assert(is_hidden_pair(b, k, i, d1, d2));
        }
    }
}

/// What a hidden pair left stays so under further narrowing.
proof fn lemma_hidden_pair_kept_stays(g0: Grid, a: Grid, b: Grid, k: Kind, i: int, d1: int, d2: int)
    requires
        narrower(b, a),
        0 <= i < 9,
        hidden_pair_kept(g0, a, k, i, d1, d2),
    ensures
        hidden_pair_kept(g0, b, k, i, d1, d2),
{
    if is_hidden_pair(g0, k, i, d1, d2) {
        let h = holders(g0, k, i, d1, 9);
        let m = pair_mask(d1, d2);
        lemma_holders(g0, k, i, d1, 9);
        assert forall|t: int| 0 <= t < 2 implies #[trigger] b.at(h[t].0 as int, h[t].1 as int).0 & !m == 0 by {
            assert(holds_at(g0, k, i, d1, 9, h[t]));
            let j = choose|j: int| 0 <= j < 9 && g0.unit_cell(k, i, j).has(d1) && h[t] == #[trigger] point_of(k, i, j);
            lemma_unit_in_range(k, i, j);
            let r = h[t].0 as int;
            let c = h[t].1 as int;
            assert(b.at(r, c).within(a.at(r, c)));
            let x = b.at(r, c).0;
            let y = a.at(r, c).0;
            assert(y & !m == 0);
            crate::bits::lemma_subset_disjoint(x, y, !m);
        }
    }
}

/// What `hidden_pair` makes of `g`: the pass over the boxes if a hidden pair can act in a box,
/// else over the columns if it can act in a column, else over the rows.
pub open spec fn hidden_pair_result(g: Grid, h: Grid) -> bool {
    &&& narrows(g, h)
    &&& hidden_pair_in(g, Kind::Box) ==> hidden_pairs_done(g, h, Kind::Box)
    &&& !hidden_pair_in(g, Kind::Box) && hidden_pair_in(g, Kind::Col) ==> hidden_pairs_done(g, h, Kind::Col)
    &&& !hidden_pair_in(g, Kind::Box) && !hidden_pair_in(g, Kind::Col) ==> hidden_pairs_done(g, h, Kind::Row)
}

/// A cell keeps exactly the digits it had that belong to every hidden pair that has it.
proof fn lemma_pair_cell_bit(g: Grid, h: Grid, k: Kind, i: int, j: int, e: int)
    requires
        narrows(g, h),
        hidden_pairs_done(g, h, k),
        0 <= i < 9,
        0 <= j < 9,
    ensures
        h.unit_cell(k, i, j).has(e) == (g.unit_cell(k, i, j).has(e) && in_all_pairs(g, k, i, j, e)),
{
    lemma_unit_in_range(k, i, j);
    if h.unit_cell(k, i, j).has(e) {
        assert(h.unit_cell(k, i, j).within(g.unit_cell(k, i, j)));
        crate::bits::lemma_subset_bit(h.unit_cell(k, i, j).0, g.unit_cell(k, i, j).0, e);
        assert forall|d1: int, d2: int|
            #[trigger] is_hidden_pair(g, k, i, d1, d2) && holders(g, k, i, d1, 9).contains(point_of(k, i, j)) implies has_bit(
            pair_mask(d1, d2),
            e,
        ) by {
            let hs = holders(g, k, i, d1, 9);
            assert(hidden_pair_kept(g, h, k, i, d1, d2));
            let t = choose|t: int| 0 <= t < hs.len() && hs[t] == point_of(k, i, j);
            assert(h.at(hs[t].0 as int, hs[t].1 as int) == h.unit_cell(k, i, j));
            crate::bits::lemma_bit_and_not(h.unit_cell(k, i, j).0, pair_mask(d1, d2), e);
            crate::bits::lemma_bit_zero(e);
        }
    }
}

/// Two grids that both are what the pass makes of `g` are the same grid.
proof fn lemma_pair_unique(g: Grid, h1: Grid, h2: Grid, k: Kind)
    requires
        narrows(g, h1),
        narrows(g, h2),
        hidden_pairs_done(g, h1, k),
        hidden_pairs_done(g, h2, k),
    ensures
        h1 == h2,
{
    assert forall|r: int, c: int| 0 <= r < 9 && 0 <= c < 9 implies #[trigger] h1.at(r, c) == h2.at(r, c) by {
        crate::strategies::pass::lemma_cell_coords(k, r, c);
        let i = crate::strategies::pass::unit_index(k, r, c);
        let j = crate::strategies::pass::unit_position(k, r, c);
        assert(h1.unit_cell(k, i, j) == h1.at(r, c));
        assert(h2.unit_cell(k, i, j) == h2.at(r, c));
        assert forall|e: int| 0 <= e < 16 implies #[trigger] has_bit(h1.at(r, c).0, e) == has_bit(h2.at(r, c).0, e) by {
            lemma_pair_cell_bit(g, h1, k, i, j, e);
            lemma_pair_cell_bit(g, h2, k, i, j, e);
        }
        crate::bits::lemma_bits_ext(h1.at(r, c).0, h2.at(r, c).0);
    }
    crate::grid::lemma_same_grid(h1, h2);
}

/// What the pass makes of a grid is determined by the grid.
pub proof fn lemma_hidden_pair_determined(g: Grid, h1: Grid, h2: Grid)
    requires
        hidden_pair_result(g, h1),
        hidden_pair_result(g, h2),
    ensures
        h1 == h2,
{
    if hidden_pair_in(g, Kind::Box) {
        lemma_pair_unique(g, h1, h2, Kind::Box);
    } else if hidden_pair_in(g, Kind::Col) {
        lemma_pair_unique(g, h1, h2, Kind::Col);
    } else {
        lemma_pair_unique(g, h1, h2, Kind::Row);
    }
}

impl Grid {
    /// hidden_pair removes the other candidates from two cells of a unit (box, column, row)
    /// when they are the only cells of the unit that can hold two digits. Boxes, then columns,
    /// then rows; it stops after the first kind of unit where it changed something. Returns
    /// true if it changed any cell.
    pub fn hidden_pair(&mut self) -> (res: bool)
        ensures
            narrows(*old(self), *final(self)),
            res == differs(*final(self), *old(self)),
            res == hidden_pair_applies(*old(self)),
            hidden_pair_in(*old(self), Kind::Box) ==> hidden_pairs_done(*old(self), *final(self), Kind::Box),
            !hidden_pair_in(*old(self), Kind::Box) && hidden_pair_in(*old(self), Kind::Col) ==> hidden_pairs_done(
                *old(self),
                *final(self),
                Kind::Col,
            ),
            !hidden_pair_in(*old(self), Kind::Box) && !hidden_pair_in(*old(self), Kind::Col) ==> hidden_pairs_done(
                *old(self),
                *final(self),
                Kind::Row,
            ),
    {
        if self.hidden_pair_group(&Group::new(Kind::Box)) {
            return true;
        }
        if self.hidden_pair_group(&Group::new(Kind::Col)) {
            return true;
        }
        self.hidden_pair_group(&Group::new(Kind::Row))
    }

    pub fn hidden_pair_group(&mut self, group: &Group) -> (res: bool)
        requires
            group.wf(),
        ensures
            narrows(*old(self), *final(self)),
            res == differs(*final(self), *old(self)),
            res == hidden_pair_in(*old(self), group.kind),
            !res ==> *final(self) == *old(self),
            hidden_pairs_done(*old(self), *final(self), group.kind),
    {
        let ghost g0 = *self;
        let ghost k = group.kind;
        let mut res = false;
        proof {
            lemma_narrows_refl(g0);
        }
        let mut ci: usize = 0;
        while ci < 9
            invariant
                ci <= 9,
                group.wf(),
                k == group.kind,
                narrows(g0, *self),
                res == differs(*self, g0),
                !res ==> *self == g0,
                res ==> hidden_pair_in(g0, k),
                !res ==> forall|i: int, a: int, b: int, t: int| 0 <= i < ci ==> !#[trigger] hidden_pair_at(g0, k, i, a, b, t),
                forall|i: int, j: int| ci <= i < 9 && 0 <= j < 9 ==> #[trigger] self.unit_cell(k, i, j) == g0.unit_cell(k, i, j),
                forall|i: int, a: int, b: int| 0 <= i < ci ==> #[trigger] hidden_pair_kept(g0, *self, k, i, a, b),
                forall|i: int, j: int, e: int|
                    0 <= i < ci && 0 <= j < 9 && g0.unit_cell(k, i, j).has(e) && in_all_pairs(g0, k, i, j, e) ==> #[trigger] self.unit_cell(
                        k,
                        i,
                        j,
                    ).has(e),
                forall|i: int, j: int| 0 <= i < ci && 0 <= j < 9 && !on_hidden_pair(g0, k, i, j) ==> #[trigger] self.unit_cell(k, i, j)
                    == g0.unit_cell(k, i, j),
            decreases 9 - ci,
        {
            let ghost g1 = *self;
            let points = self.digit_points(group, ci);
            proof {
                lemma_narrows_refl(g1);
            }
            let mut i1: usize = 1;
            while i1 <= 9
                invariant
                    1 <= i1 <= 10,
                    ci < 9,
                    group.wf(),
                    k == group.kind,
                    points.len() == 10,
                    forall|e: int| 1 <= e <= 9 ==> #[trigger] points[e]@ == holders(g1, k, ci as int, e, 9),
                    narrows(g0, g1),
                    narrows(g1, *self),
                    !res ==> g1 == g0,
                    res == differs(*self, g0),
                    !res ==> *self == g0,
                    res ==> hidden_pair_in(g0, k),
                    !res ==> forall|i: int, a: int, b: int, t: int| 0 <= i < ci ==> !#[trigger] hidden_pair_at(g0, k, i, a, b, t),
                    !res ==> forall|a: int, b: int, t: int| a < i1 ==> !#[trigger] hidden_pair_at(g0, k, ci as int, a, b, t),
                    forall|i: int, j: int| 0 <= i < 9 && i != ci && 0 <= j < 9 ==> #[trigger] self.unit_cell(k, i, j) == g1.unit_cell(k, i, j),
                    forall|a: int, b: int| a < i1 ==> #[trigger] hidden_pair_kept(g1, *self, k, ci as int, a, b),
                    forall|j: int, e: int|
                        0 <= j < 9 && g1.unit_cell(k, ci as int, j).has(e) && in_all_pairs(g1, k, ci as int, j, e)
                            ==> #[trigger] self.unit_cell(k, ci as int, j).has(e),
                    forall|j: int| 0 <= j < 9 && #[trigger] self.unit_cell(k, ci as int, j) != g1.unit_cell(k, ci as int, j)
                        ==> on_hidden_pair(g1, k, ci as int, j),
                decreases 10 - i1,
            {
                let mut i2: usize = 1;
                while i2 <= 9
                    invariant
                        1 <= i1 <= 9,
                        1 <= i2 <= 10,
                        ci < 9,
                        group.wf(),
                        k == group.kind,
                        points.len() == 10,
                        forall|e: int| 1 <= e <= 9 ==> #[trigger] points[e]@ == holders(g1, k, ci as int, e, 9),
                        narrows(g0, g1),
                        narrows(g1, *self),
                        !res ==> g1 == g0,
                        res == differs(*self, g0),
                        !res ==> *self == g0,
                        res ==> hidden_pair_in(g0, k),
                        !res ==> forall|i: int, a: int, b: int, t: int| 0 <= i < ci ==> !#[trigger] hidden_pair_at(g0, k, i, a, b, t),
                        !res ==> forall|a: int, b: int, t: int| a < i1 ==> !#[trigger] hidden_pair_at(g0, k, ci as int, a, b, t),
                        !res ==> forall|b: int, t: int| b < i2 ==> !#[trigger] hidden_pair_at(g0, k, ci as int, i1 as int, b, t),
                        forall|i: int, j: int| 0 <= i < 9 && i != ci && 0 <= j < 9 ==> #[trigger] self.unit_cell(k, i, j) == g1.unit_cell(k, i, j),
                        forall|a: int, b: int| a < i1 ==> #[trigger] hidden_pair_kept(g1, *self, k, ci as int, a, b),
                        forall|j: int, e: int|
                            0 <= j < 9 && g1.unit_cell(k, ci as int, j).has(e) && in_all_pairs(g1, k, ci as int, j, e)
                                ==> #[trigger] self.unit_cell(k, ci as int, j).has(e),
                        forall|j: int| 0 <= j < 9 && #[trigger] self.unit_cell(k, ci as int, j) != g1.unit_cell(k, ci as int, j)
                            ==> on_hidden_pair(g1, k, ci as int, j),
                        forall|b: int| b < i2 ==> #[trigger] hidden_pair_kept(g1, *self, k, ci as int, i1 as int, b),
                    decreases 10 - i2,
                {
                    if i1 != i2 && points[i1].len() == 2 && points[i2].len() == 2 && same_points(&points[i1], &points[i2]) {
                        let ghost before = *self;
                        let q0 = points[i1][0];
                        let q1 = points[i1][1];
                        let ch = self.hidden_pair_cells(i1, i2, q0, q1, Ghost(g1), Ghost(k), Ghost(ci as int));
                        proof {
                            assert forall|a: int, b: int| a < i1 implies #[trigger] hidden_pair_kept(g1, *self, k, ci as int, a, b) by {
                                lemma_hidden_pair_kept_stays(g1, before, *self, k, ci as int, a, b);
                            }
                            assert forall|b: int| b < i2 + 1 implies #[trigger] hidden_pair_kept(g1, *self, k, ci as int, i1 as int, b) by {
                                if b < i2 {
                                    lemma_hidden_pair_kept_stays(g1, before, *self, k, ci as int, i1 as int, b);
                                }
                            }
                            assert forall|j: int| 0 <= j < 9 && #[trigger] self.unit_cell(k, ci as int, j) != g1.unit_cell(k, ci as int, j)
                                implies on_hidden_pair(g1, k, ci as int, j) by {
                                if self.unit_cell(k, ci as int, j) != before.unit_cell(k, ci as int, j) {
                                    let h = holders(g1, k, ci as int, i1 as int, 9);
                                    assert(h[0] == q0 && h[1] == q1);
                                    assert(h.contains(point_of(k, ci as int, j)));
                                    assert(is_hidden_pair(g1, k, ci as int, i1 as int, i2 as int));
                                }
                            }
                            lemma_narrows_trans(g0, g1, *self);
                            if res {
                                lemma_narrows_trans(g0, g1, before);
                                lemma_differs_stays(g0, before, *self);
                            } else {
                                assert(before == g0);
                                if !ch {
                                    assert forall|t: int| true implies !#[trigger] hidden_pair_at(g0, k, ci as int, i1 as int, i2 as int, t) by {
                                    }
                                } else {
                                    let t = choose|t: int| 0 <= t < 2 && #[trigger] hidden_pair_at(g1, k, ci as int, i1 as int, i2 as int, t);
                                    assert(hidden_pair_at(g0, k, ci as int, i1 as int, i2 as int, t));
                                }
                            }
                        }
                        if ch {
                            res = true;
                        }
                    } else {
                        proof {
                            if !res {
                                assert(g1 == g0);
                                assert forall|t: int| true implies !#[trigger] hidden_pair_at(g0, k, ci as int, i1 as int, i2 as int, t) by {
                                }
                            }
                            assert(!is_hidden_pair(g1, k, ci as int, i1 as int, i2 as int));
                            assert(hidden_pair_kept(g1, *self, k, ci as int, i1 as int, i2 as int));
                        }
                    }
                    i2 += 1;
                }
                proof {
                    assert forall|a: int, b: int| a < i1 + 1 implies #[trigger] hidden_pair_kept(g1, *self, k, ci as int, a, b) by {
                        if a == i1 && !(b < i2) {
                            assert(!is_hidden_pair(g1, k, ci as int, a, b));
                        }
                    }
                }
                i1 += 1;
            }
            proof {
                lemma_narrows_trans(g0, g1, *self);
                assert forall|a: int, b: int, t: int| !(1 <= a <= 9) implies !#[trigger] hidden_pair_at(g0, k, ci as int, a, b, t) by {}
                assert forall|j: int| 0 <= j < 9 implies #[trigger] g0.unit_cell(k, ci as int, j) == g1.unit_cell(k, ci as int, j) by {}
                assert forall|i: int, a: int, b: int| 0 <= i < ci + 1 implies #[trigger] hidden_pair_kept(g0, *self, k, i, a, b) by {
                    if i < ci {
                        assert(hidden_pair_kept(g0, g1, k, i, a, b));
                        if is_hidden_pair(g0, k, i, a, b) {
                            let h = holders(g0, k, i, a, 9);
                            lemma_holders(g0, k, i, a, 9);
                            assert forall|t: int| 0 <= t < 2 implies #[trigger] self.at(h[t].0 as int, h[t].1 as int) == g1.at(h[t].0 as int, h[t].1 as int) by {
                                assert(holds_at(g0, k, i, a, 9, h[t]));
                                let j = choose|j: int| 0 <= j < 9 && g0.unit_cell(k, i, j).has(a) && h[t] == #[trigger] point_of(k, i, j);
                                lemma_unit_in_range(k, i, j);
                                assert(self.unit_cell(k, i, j) == g1.unit_cell(k, i, j));
                            }
                        }
                    } else {
                        lemma_holders_same(g0, g1, k, ci as int, a, 9);
                        lemma_holders_same(g0, g1, k, ci as int, b, 9);
                        if !(a < 10) {
                            assert(!is_hidden_pair(g0, k, ci as int, a, b));
                        } else {
                            assert(hidden_pair_kept(g1, *self, k, ci as int, a, b));
                        }
                    }
                }
                assert forall|i: int, j: int, e: int|
                    0 <= i < ci + 1 && 0 <= j < 9 && g0.unit_cell(k, i, j).has(e) && in_all_pairs(g0, k, i, j, e) implies #[trigger] self.unit_cell(
                        k,
                        i,
                        j,
                    ).has(e) by {
                    if i < ci {
                        assert(g1.unit_cell(k, i, j).has(e));
                        assert(self.unit_cell(k, i, j) == g1.unit_cell(k, i, j));
                    } else {
                        lemma_all_pairs_same(g0, g1, k, ci as int, j, e);
                    }
                }
                assert forall|i: int, j: int| 0 <= i < ci + 1 && 0 <= j < 9 && !on_hidden_pair(g0, k, i, j) implies #[trigger] self.unit_cell(k, i, j)
                    == g0.unit_cell(k, i, j) by {
                    if i < ci {
                        assert(g1.unit_cell(k, i, j) == g0.unit_cell(k, i, j));
                    } else if self.unit_cell(k, i, j) != g1.unit_cell(k, i, j) {
                        assert(on_hidden_pair(g1, k, ci as int, j));
                        let (a, b) = choose|a: int, b: int|
                            #[trigger] is_hidden_pair(g1, k, ci as int, a, b) && holders(g1, k, ci as int, a, 9).contains(point_of(k, ci as int, j));
                        lemma_holders_same(g0, g1, k, ci as int, a, 9);
                        lemma_holders_same(g0, g1, k, ci as int, b, 9);
                        assert(is_hidden_pair(g0, k, ci as int, a, b) && holders(g0, k, ci as int, a, 9).contains(point_of(k, ci as int, j)));
                    }
                }
            }
            ci += 1;
        }
        res
    }

    /// Narrows the two holders `q0`, `q1` of the hidden pair `(d1, d2)` of unit `i` (holders
    /// taken in `g1`) to those two digits.
    fn hidden_pair_cells(&mut self, d1: usize, d2: usize, q0: Point, q1: Point, Ghost(g1): Ghost<Grid>, Ghost(k): Ghost<Kind>, Ghost(i): Ghost<int>) -> (res: bool)
        requires
            0 <= i < 9,
            1 <= d1 <= 9,
            1 <= d2 <= 9,
            d1 != d2,
            holders(g1, k, i, d1 as int, 9).len() == 2,
            holders(g1, k, i, d2 as int, 9) == holders(g1, k, i, d1 as int, 9),
            q0 == holders(g1, k, i, d1 as int, 9)[0],
            q1 == holders(g1, k, i, d1 as int, 9)[1],
            narrows(g1, *old(self)),
        ensures
            narrows(g1, *final(self)),
            narrows(*old(self), *final(self)),
            res == differs(*final(self), *old(self)),
            !res ==> *final(self) == *old(self),
            *old(self) == g1 ==> (res == exists|t: int| 0 <= t < 2 && #[trigger] hidden_pair_at(g1, k, i, d1 as int, d2 as int, t)),
            forall|i2: int, j: int| 0 <= i2 < 9 && i2 != i && 0 <= j < 9 ==> #[trigger] final(self).unit_cell(k, i2, j)
                == old(self).unit_cell(k, i2, j),
            hidden_pair_kept(g1, *final(self), k, i, d1 as int, d2 as int),
            forall|j: int| 0 <= j < 9 && #[trigger] final(self).unit_cell(k, i, j) != old(self).unit_cell(k, i, j) ==> point_of(k, i, j)
                == q0 || point_of(k, i, j) == q1,
            forall|j: int, e: int|
                0 <= j < 9 && old(self).unit_cell(k, i, j).has(e) && in_all_pairs(g1, k, i, j, e) ==> #[trigger] final(self).unit_cell(
                    k,
                    i,
                    j,
                ).has(e),
    {
        let ghost gs = *self;
        let comb: u16 = (1u16 << d1 as u16) | (1u16 << d2 as u16);
        let ghost h = holders(g1, k, i, d1 as int, 9);
        proof {
            lemma_narrows_refl(gs);
            lemma_holders(g1, k, i, d1 as int, 9);
            lemma_hidden_pair_sound(g1, k, i, d1 as int, d2 as int);
            assert(holds_at(g1, k, i, d1 as int, 9, q0));
            let j0 = choose|j: int| 0 <= j < 9 && g1.unit_cell(k, i, j).has(d1 as int)
                && q0 == #[trigger] point_of(k, i, j);
            crate::grid::lemma_unit_in_range(k, i, j0);
            assert(holds_at(g1, k, i, d1 as int, 9, q1));
            let j1 = choose|j: int| 0 <= j < 9 && g1.unit_cell(k, i, j).has(d1 as int)
                && q1 == #[trigger] point_of(k, i, j);
            crate::grid::lemma_unit_in_range(k, i, j1);
        }
        let ch0 = self.keep_at(q0.0, q0.1, comb);
        let ghost mid = *self;
        proof {
            let r = q0.0 as int;
            let c = q0.1 as int;
            assert forall|s: spec_fn(int, int) -> int| is_solution(s) && #[trigger] compatible(gs, s)
                implies self.at(r, c).has(s(r, c)) by {
                lemma_compatible_wider(gs, g1, s);
                assert(has_bit(comb, s(h[0].0 as int, h[0].1 as int)));
                lemma_bit_and(gs.at(r, c).0, comb, s(r, c));
            }
            lemma_narrow_step(gs, gs, *self, r, c);
            lemma_narrows_trans(g1, gs, *self);
            lemma_and_not_changes(gs.at(r, c).0, comb);
        }
        let ch1 = self.keep_at(q1.0, q1.1, comb);
        proof {
            let r = q1.0 as int;
            let c = q1.1 as int;
            assert forall|s: spec_fn(int, int) -> int| is_solution(s) && #[trigger] compatible(mid, s)
                implies self.at(r, c).has(s(r, c)) by {
                lemma_compatible_wider(mid, g1, s);
                assert(has_bit(comb, s(h[1].0 as int, h[1].1 as int)));
                lemma_bit_and(mid.at(r, c).0, comb, s(r, c));
            }
            lemma_narrow_step(gs, mid, *self, r, c);
            lemma_narrow_step(g1, mid, *self, r, c);
            lemma_and_not_changes(mid.at(r, c).0, comb);
            lemma_holders(g1, k, i, d1 as int, 9);
            assert(holds_at(g1, k, i, d1 as int, 9, q0));
            let j0 = choose|j: int| 0 <= j < 9 && g1.unit_cell(k, i, j).has(d1 as int) && q0 == #[trigger] point_of(k, i, j);
            assert(holds_at(g1, k, i, d1 as int, 9, q1));
            let j1 = choose|j: int| 0 <= j < 9 && g1.unit_cell(k, i, j).has(d1 as int) && q1 == #[trigger] point_of(k, i, j);
            lemma_unit_in_range(k, i, j0);
            lemma_unit_in_range(k, i, j1);
            assert forall|i2: int, j: int| 0 <= i2 < 9 && i2 != i && 0 <= j < 9 implies #[trigger] self.unit_cell(k, i2, j)
                == gs.unit_cell(k, i2, j) by {
                lemma_units_apart(k, i, j0, i2, j);
                lemma_units_apart(k, i, j1, i2, j);
                lemma_unit_in_range(k, i2, j);
            }
            assert forall|j: int| 0 <= j < 9 && #[trigger] self.unit_cell(k, i, j) != gs.unit_cell(k, i, j) implies point_of(k, i, j)
                == q0 || point_of(k, i, j) == q1 by {
                lemma_unit_in_range(k, i, j);
            }
            let x0 = gs.at(q0.0 as int, q0.1 as int).0;
            let x1 = mid.at(q1.0 as int, q1.1 as int).0;
            crate::bits::lemma_mask_clears(x0, comb);
            crate::bits::lemma_mask_clears(x1, comb);
            assert(comb == pair_mask(d1 as int, d2 as int));
            assert(self.at(q0.0 as int, q0.1 as int).0 & !comb == 0);
            assert(self.at(q1.0 as int, q1.1 as int).0 & !comb == 0);
            assert(hidden_pair_kept(g1, *self, k, i, d1 as int, d2 as int));
            assert forall|j: int, e: int|
                0 <= j < 9 && gs.unit_cell(k, i, j).has(e) && in_all_pairs(g1, k, i, j, e) implies #[trigger] self.unit_cell(k, i, j).has(e) by {
                lemma_unit_in_range(k, i, j);
                let r = crate::grid::unit_row(k, i, j);
                let c = crate::grid::unit_col(k, i, j);
                if point_of(k, i, j) == q0 || point_of(k, i, j) == q1 {
                    assert(h[0] == q0 && h[1] == q1);
                    assert(h.contains(point_of(k, i, j)));
                    assert(is_hidden_pair(g1, k, i, d1 as int, d2 as int));
                    assert(has_bit(comb, e));
                    crate::bits::lemma_bit_and(gs.at(r, c).0, comb, e);
                    crate::bits::lemma_bit_and(mid.at(r, c).0, comb, e);
                }
            }
            if gs == g1 {
                if ch0 {
                    assert(hidden_pair_at(g1, k, i, d1 as int, d2 as int, 0));
                } else if ch1 {
                    assert(mid == g1);
                    assert(hidden_pair_at(g1, k, i, d1 as int, d2 as int, 1));
                } else {
                    assert(mid == g1);
                    assert(!hidden_pair_at(g1, k, i, d1 as int, d2 as int, 0));
                    assert(!hidden_pair_at(g1, k, i, d1 as int, d2 as int, 1));
                }
            }
        }
        ch0 || ch1
    }
}

} // verus!
