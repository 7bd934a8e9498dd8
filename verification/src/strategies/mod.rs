//! Elimination strategies: each removes candidates that no completed sudoku can use.
use vstd::prelude::*;
use crate::bits::{has_bit, lemma_bit_and_not, lemma_and_not_changes, lemma_bit_or, lemma_bit_single,
    lemma_or_below, lemma_shift_grows, lemma_bit_zero};
use crate::cell::Cell;
use crate::grid::{Grid, Group, Kind, Point, unit_row, unit_col, differs, narrower, lemma_narrower_keeps,
    lemma_unit_injective, lemma_unit_in_range};
use crate::model::{is_solution, compatible, narrows, sol_at, lemma_narrow_step, lemma_narrows_refl,
    lemma_compatible_wider};
use crate::strategies::pass::{grid_is, clear_fn, cells_of};

pub mod naked_single;
pub mod naked_pair;
pub mod naked_triple;
pub mod hidden_single;
pub mod hidden_pair;
pub mod hidden_quad;
pub mod hidden_triple;
pub mod pointing_line;
pub mod box_line;
pub mod x_wing;
pub mod y_wing;
pub mod pass;

verus! {

/// Some cell of unit `ci`, other than the positions in `keep`, shares a candidate with `mask`.
pub open spec fn unit_touches(g: Grid, k: Kind, ci: int, keep: u16, mask: u16) -> bool {
    exists|j: int| 0 <= j < 9 && !has_bit(keep, j) && #[trigger] g.unit_cell(k, ci, j).0 & mask != 0
}

/// Some cell of unit `ci` at a position in `pos` has a candidate outside `bits`.
pub open spec fn unit_narrowable(g: Grid, k: Kind, ci: int, pos: u16, bits: u16) -> bool {
    exists|j: int| 0 <= j < 9 && has_bit(pos, j) && #[trigger] g.unit_cell(k, ci, j).0 & !bits != 0
}

/// Cells of two different units of one kind are different cells.
pub proof fn lemma_units_apart(k: Kind, i1: int, j1: int, i2: int, j2: int)
    requires
        0 <= i1 < 9,
        0 <= j1 < 9,
        0 <= i2 < 9,
        0 <= j2 < 9,
        i1 != i2,
    ensures
        unit_row(k, i1, j1) != unit_row(k, i2, j2) || unit_col(k, i1, j1) != unit_col(k, i2, j2),
{
    if k == Kind::Box {
        crate::grid::lemma_box_point_in_box(i1, j1);
        crate::grid::lemma_box_point_in_box(i2, j2);
    }
}

/// Grids that agree on the cells of a unit give each digit the same places in it.
pub proof fn lemma_places_same(a: Grid, b: Grid, k: Kind, i: int, d: int, n: int)
    requires
        0 <= n <= 9,
        forall|j: int| 0 <= j < 9 ==> #[trigger] a.unit_cell(k, i, j) == b.unit_cell(k, i, j),
    ensures
        place_bits(a, k, i, d, n) == place_bits(b, k, i, d, n),
    decreases n,
{
    if n > 0 {
        lemma_places_same(a, b, k, i, d, n - 1);
        assert(a.unit_cell(k, i, n - 1) == b.unit_cell(k, i, n - 1));
    }
}

/// Returns whether two lists of points are equal.
pub fn same_points(a: &Vec<Point>, b: &Vec<Point>) -> (r: bool)
    ensures
        r == (a@ == b@),
{
    if a.len() != b.len() {
        return false;
    }
    let mut i: usize = 0;
    while i < a.len()
        invariant
            a.len() == b.len(),
            i <= a.len(),
            forall|t: int| 0 <= t < i ==> #[trigger] a@[t] == b@[t],
        decreases a.len() - i,
    {
        if a[i].0 != b[i].0 || a[i].1 != b[i].1 {
            return false;
        }
        i += 1;
    }
    assert(a@ =~= b@);
    true
}

/// The positions of unit `i` of kind `k` among its first `n` cells that still hold digit `d`,
/// in order.
/// The `j`-th position of unit `i` of kind `k`, as a point.
pub open spec fn point_of(k: Kind, i: int, j: int) -> Point {
    (unit_row(k, i, j) as usize, unit_col(k, i, j) as usize)
}

/// `p` is one of the first `n` positions of unit `i` of kind `k`, and holds digit `d`.
pub open spec fn holds_at(g: Grid, k: Kind, i: int, d: int, n: int, p: Point) -> bool {
    exists|j: int| 0 <= j < n && g.unit_cell(k, i, j).has(d) && p == #[trigger] point_of(k, i, j)
}

pub open spec fn holders(g: Grid, k: Kind, i: int, d: int, n: int) -> Seq<Point>
    decreases n,
{
    if n <= 0 {
        Seq::empty()
    } else if g.unit_cell(k, i, n - 1).has(d) {
        holders(g, k, i, d, n - 1).push(point_of(k, i, n - 1))
    } else {
        holders(g, k, i, d, n - 1)
    }
}

/// `m` has bit `j` exactly when cell `j` of unit `i` of kind `k` holds digit `d`.
pub open spec fn places_of(g: Grid, k: Kind, i: int, d: int, m: u16) -> bool {
    forall|j: int| 0 <= j < 16 ==> #[trigger] has_bit(m, j) == (j < 9 && g.unit_cell(k, i, j).has(d))
}

/// The mask of the first `n` positions of unit `i` of kind `k` that hold digit `d`.
pub open spec fn place_bits(g: Grid, k: Kind, i: int, d: int, n: int) -> u16
    decreases n,
{
    if n <= 0 {
        0u16
    } else if g.unit_cell(k, i, n - 1).has(d) {
        place_bits(g, k, i, d, n - 1) | (1u16 << (n - 1) as u16)
    } else {
        place_bits(g, k, i, d, n - 1)
    }
}

/// The places of a digit in a unit, as a mask.
pub open spec fn places(g: Grid, k: Kind, i: int, d: int) -> u16 {
    place_bits(g, k, i, d, 9)
}

pub proof fn lemma_place_bits(g: Grid, k: Kind, i: int, d: int, n: int)
    requires
        0 <= n <= 9,
    ensures
        forall|j: int| 0 <= j < 16 ==> #[trigger] has_bit(place_bits(g, k, i, d, n), j) == (j < n && g.unit_cell(k, i, j).has(d)),
    decreases n,
{
    if n <= 0 {
        assert forall|j: int| 0 <= j < 16 implies !#[trigger] has_bit(0u16, j) by {
            lemma_bit_zero(j);
        }
    } else {
        lemma_place_bits(g, k, i, d, n - 1);
        let m = place_bits(g, k, i, d, n - 1);
        assert forall|j: int| 0 <= j < 16 implies #[trigger] has_bit(place_bits(g, k, i, d, n), j) == (j < n && g.unit_cell(k, i, j).has(d)) by {
            lemma_bit_or(m, 1u16 << (n - 1) as u16, j);
            lemma_bit_single((n - 1) as u16, j);
        }
    }
}

/// A mask with the bits of a digit's places is that digit's place mask.
pub proof fn lemma_places_eq(g: Grid, k: Kind, i: int, d: int, m: u16)
    requires
        places_of(g, k, i, d, m),
    ensures
        m == places(g, k, i, d),
{
    lemma_place_bits(g, k, i, d, 9);
    assert forall|j: int| 0 <= j < 16 implies #[trigger] has_bit(m, j) == has_bit(places(g, k, i, d), j) by {
        assert(has_bit(place_bits(g, k, i, d, 9), j) == (j < 9 && g.unit_cell(k, i, j).has(d)));
    }
    crate::bits::lemma_bits_ext(m, places(g, k, i, d));
}

/// Every holder is a position of the unit that holds the digit, and every position that holds
/// the digit is listed.
pub proof fn lemma_holders(g: Grid, k: Kind, i: int, d: int, n: int)
    requires
        0 <= i < 9,
        0 <= n <= 9,
    ensures
        forall|t: int| 0 <= t < holders(g, k, i, d, n).len() ==> holds_at(g, k, i, d, n, #[trigger] holders(g, k, i, d, n)[t]),
        forall|j: int| 0 <= j < n && #[trigger] g.unit_cell(k, i, j).has(d) ==> holders(g, k, i, d, n).contains(
            point_of(k, i, j),
        ),
    decreases n,
{
    if n > 0 {
        lemma_holders(g, k, i, d, n - 1);
        let h = holders(g, k, i, d, n - 1);
        let hn = holders(g, k, i, d, n);
        assert forall|t: int| 0 <= t < h.len() && #[trigger] holds_at(g, k, i, d, n - 1, h[t]) implies holds_at(g, k, i, d, n, h[t]) by {
            let j = choose|j: int| 0 <= j < n - 1 && g.unit_cell(k, i, j).has(d) && h[t] == #[trigger] point_of(k, i, j);
            assert(0 <= j < n && g.unit_cell(k, i, j).has(d) && h[t] == point_of(k, i, j));
        }
        if g.unit_cell(k, i, n - 1).has(d) {
            assert(hn == h.push(point_of(k, i, n - 1)));
            assert forall|t: int| 0 <= t < hn.len() implies holds_at(g, k, i, d, n, #[trigger] hn[t]) by {
                if t < h.len() {
                    assert(hn[t] == h[t]);
                    assert(holds_at(g, k, i, d, n - 1, h[t]));
                } else {
                    assert(hn[t] == point_of(k, i, n - 1));
                }
            }
            assert forall|j: int| 0 <= j < n && #[trigger] g.unit_cell(k, i, j).has(d) implies hn.contains(
                point_of(k, i, j),
            ) by {
                if j < n - 1 {
                    let t = choose|t: int| 0 <= t < h.len() && h[t] == point_of(k, i, j);
                    assert(hn[t] == h[t]);
                } else {
                    assert(hn[h.len() as int] == point_of(k, i, n - 1));
                }
            }
        } else {
            assert(hn == h);
            assert forall|t: int| 0 <= t < hn.len() implies holds_at(g, k, i, d, n, #[trigger] hn[t]) by {
                assert(holds_at(g, k, i, d, n - 1, h[t]));
            }
        }
    }
}

/// Two grids that agree on a unit have the same holders there.
pub proof fn lemma_holders_same(a: Grid, b: Grid, k: Kind, i: int, d: int, n: int)
    requires
        forall|j: int| 0 <= j < n ==> #[trigger] a.unit_cell(k, i, j) == b.unit_cell(k, i, j),
    ensures
        holders(a, k, i, d, n) == holders(b, k, i, d, n),
    decreases n,
{
    if n > 0 {
        lemma_holders_same(a, b, k, i, d, n - 1);
        assert(a.unit_cell(k, i, n - 1) == b.unit_cell(k, i, n - 1));
    }
}

impl Grid {
    /// Returns, for each digit 1 to 9, the positions of unit `ci` of `group` that hold it,
    /// in the order of the unit (entry 0 is empty).
    pub(crate) fn digit_points(&self, group: &Group, ci: usize) -> (points: Vec<Vec<Point>>)
        requires
            group.wf(),
            ci < 9,
        ensures
            points.len() == 10,
            points[0]@ == Seq::<Point>::empty(),
            forall|d: int| 1 <= d <= 9 ==> #[trigger] points[d]@ == holders(*self, group.kind, ci as int, d, 9),
    {
        let ghost k = group.kind;
        let mut points: Vec<Vec<Point>> = Vec::new();
        points.push(Vec::new());
        let mut d: usize = 1;
        while d <= 9
            invariant
                1 <= d <= 10,
                ci < 9,
                group.wf(),
                k == group.kind,
                points.len() == d,
                points[0]@ == Seq::<Point>::empty(),
                forall|e: int| 1 <= e < d ==> #[trigger] points[e]@ == holders(*self, k, ci as int, e, 9),
            decreases 10 - d,
        {
            let mut v: Vec<Point> = Vec::new();
            let mut j: usize = 0;
            while j < 9
                invariant
                    1 <= d <= 9,
                    j <= 9,
                    ci < 9,
                    group.wf(),
                    k == group.kind,
                    v@ == holders(*self, k, ci as int, d as int, j as int),
                decreases 9 - j,
            {
                let p = group.cells[ci][j];
                let cell = self.get(p);
                if cell.0 & (1u16 << d as u16) != 0 {
                    v.push(p);
                }
                j += 1;
            }
            points.push(v);
            d += 1;
        }
        points
    }

    /// Returns, for each digit 1 to 9, the mask of positions of unit `ci` of `group` that hold
    /// it (bit `j` for the `j`-th position; entry 0 is zero).
    pub(crate) fn digit_places(&self, group: &Group, ci: usize) -> (places: [u16; 10])
        requires
            group.wf(),
            ci < 9,
        ensures
            places[0] == 0,
            forall|d: int| 1 <= d <= 9 ==> places_of(*self, group.kind, ci as int, d, #[trigger] places[d]),
            forall|d: int| 1 <= d <= 9 ==> #[trigger] places[d] == crate::strategies::places(*self, group.kind, ci as int, d),
            forall|d: int| 0 <= d < 10 ==> #[trigger] places[d] < 512,
    {
        let ghost k = group.kind;
        let mut places: [u16; 10] = [0u16; 10];
        proof {
            broadcast use vstd::array::group_array_axioms;
            assert(1u16 << 0u16 == 1u16) by (bit_vector);
            assert forall|d: int| 0 <= d < 10 implies #[trigger] places[d] == 0 by {
                assert(places@[d] == 0);
            }
            assert forall|j: int| 0 <= j < 16 implies !#[trigger] has_bit(0u16, j) by {
                lemma_bit_zero(j);
            }
        }
        let mut pi: usize = 0;
        while pi < 9
            invariant
                pi <= 9,
                ci < 9,
                group.wf(),
                k == group.kind,
                places[0] == 0,
                forall|d: int| 0 <= d < 10 ==> #[trigger] places[d] < 1u16 << pi as u16,
                forall|d: int, j: int| 1 <= d <= 9 && 0 <= j < 16 ==> #[trigger] has_bit(places[d], j)
                    == (j < pi && self.unit_cell(k, ci as int, j).has(d)),
            decreases 9 - pi,
        {
            let p = group.cells[ci][pi];
            let cell = self.get(p);
            proof {
                lemma_shift_grows(pi as u16);
            }
            let mut d: usize = 1;
            while d <= 9
                invariant
                    1 <= d <= 10,
                    pi < 9,
                    ci < 9,
                    group.wf(),
                    k == group.kind,
                    cell == self.unit_cell(k, ci as int, pi as int),
                    places[0] == 0,
                    forall|e: int| 0 <= e < 10 ==> #[trigger] places[e] < 1u16 << (pi + 1) as u16,
                    forall|e: int| d <= e < 10 ==> #[trigger] places[e] < 1u16 << pi as u16,
                    forall|e: int, j: int| 1 <= e < d && 0 <= j < 16 ==> #[trigger] has_bit(places[e], j)
                        == (j < pi + 1 && self.unit_cell(k, ci as int, j).has(e)),
                    forall|e: int, j: int| d <= e <= 9 && 0 <= j < 16 ==> #[trigger] has_bit(places[e], j)
                        == (j < pi && self.unit_cell(k, ci as int, j).has(e)),
                decreases 10 - d,
            {
                if cell.0 & (1u16 << d as u16) != 0 {
                    let old_v = places[d];
                    places[d] = old_v | (1u16 << pi as u16);
                    proof {
                        assert forall|j: int| 0 <= j < 16 implies #[trigger] has_bit(places[d as int], j)
                            == (j < pi + 1 && self.unit_cell(k, ci as int, j).has(d as int)) by {
                            lemma_bit_or(old_v, 1u16 << pi as u16, j);
                            lemma_bit_single(pi as u16, j);
                        }
                        lemma_or_below(old_v, pi as u16);
                    }
                } else {
                    proof {
                        assert forall|j: int| 0 <= j < 16 implies #[trigger] has_bit(places[d as int], j)
                            == (j < pi + 1 && self.unit_cell(k, ci as int, j).has(d as int)) by {
                        }
                    }
                }
                d += 1;
            }
            pi += 1;
        }
        proof {
            assert(1u16 << 9u16 == 512) by (bit_vector);
            assert forall|d: int| 1 <= d <= 9 implies #[trigger] places[d] == crate::strategies::places(*self, k, ci as int, d) by {
                lemma_places_eq(*self, k, ci as int, d, places[d]);
            }
        }
        places
    }

    /// Keeps, in every cell of unit `ci` of `group` whose position is in `pos`, only the
    /// candidates in `bits`; returns whether any cell changed.
    pub(crate) fn keep_unit(&mut self, group: &Group, ci: usize, pos: u16, bits: u16) -> (changed: bool)
        requires
            group.wf(),
            ci < 9,
            forall|s: spec_fn(int, int) -> int, j: int|
                is_solution(s) && #[trigger] compatible(*old(self), s) && 0 <= j < 9 && has_bit(pos, j)
                    ==> has_bit(bits, #[trigger] sol_at(s, group.kind, ci as int, j)),
        ensures
            narrows(*old(self), *final(self)),
            changed == differs(*final(self), *old(self)),
            changed == unit_narrowable(*old(self), group.kind, ci as int, pos, bits),
            !changed ==> *final(self) == *old(self),
            forall|j: int| 0 <= j < 9 && has_bit(pos, j) ==> #[trigger] final(self).unit_cell(group.kind, ci as int, j).0
                & !bits == 0,
            forall|j: int| 0 <= j < 9 && has_bit(pos, j) ==> #[trigger] final(self).unit_cell(group.kind, ci as int, j).0
                == old(self).unit_cell(group.kind, ci as int, j).0 & bits,
            forall|j: int| 0 <= j < 9 && !has_bit(pos, j) ==> #[trigger] final(self).unit_cell(group.kind, ci as int, j)
                == old(self).unit_cell(group.kind, ci as int, j),
            forall|i: int, j: int| 0 <= i < 9 && i != ci && 0 <= j < 9 ==> #[trigger] final(self).unit_cell(group.kind, i, j)
                == old(self).unit_cell(group.kind, i, j),
    {
        let ghost g0 = *self;
        let ghost k = group.kind;
        let mut changed = false;
        let mut j: usize = 0;
        proof {
            lemma_narrows_refl(g0);
        }
        while j < 9
            invariant
                j <= 9,
                ci < 9,
                group.wf(),
                k == group.kind,
                narrows(g0, *self),
                changed == differs(*self, g0),
                !changed ==> *self == g0,
                changed ==> unit_narrowable(g0, k, ci as int, pos, bits),
                !changed ==> forall|j2: int| 0 <= j2 < j && has_bit(pos, j2) ==> #[trigger] g0.unit_cell(k, ci as int, j2).0 & !bits == 0,
                forall|j2: int| 0 <= j2 < j && has_bit(pos, j2) ==> #[trigger] self.unit_cell(k, ci as int, j2).0 & !bits == 0,
                forall|j2: int| 0 <= j2 < j && has_bit(pos, j2) ==> #[trigger] self.unit_cell(k, ci as int, j2).0
                    == g0.unit_cell(k, ci as int, j2).0 & bits,
                forall|j2: int| j <= j2 < 9 ==> #[trigger] self.unit_cell(k, ci as int, j2) == g0.unit_cell(k, ci as int, j2),
                forall|j2: int| 0 <= j2 < 9 && !has_bit(pos, j2) ==> #[trigger] self.unit_cell(k, ci as int, j2)
                    == g0.unit_cell(k, ci as int, j2),
                forall|i: int, j2: int| 0 <= i < 9 && i != ci && 0 <= j2 < 9 ==> #[trigger] self.unit_cell(k, i, j2)
                    == g0.unit_cell(k, i, j2),
                forall|s: spec_fn(int, int) -> int, j2: int|
                    is_solution(s) && #[trigger] compatible(g0, s) && 0 <= j2 < 9 && has_bit(pos, j2)
                        ==> has_bit(bits, #[trigger] sol_at(s, k, ci as int, j2)),
            decreases 9 - j,
        {
            if pos & (1u16 << j as u16) != 0 {
                let p = group.cells[ci][j];
                let ghost before = *self;
                let ch = self.keep_at(p.0, p.1, bits);
                proof {
                    let r = p.0 as int;
                    let c = p.1 as int;
                    assert(r == unit_row(k, ci as int, j as int) && c == unit_col(k, ci as int, j as int));
                    assert forall|s: spec_fn(int, int) -> int|
                        is_solution(s) && #[trigger] compatible(before, s) implies self.at(r, c).has(s(r, c)) by {
                        lemma_compatible_wider(before, g0, s);
                        assert(has_bit(bits, sol_at(s, k, ci as int, j as int)));
                        assert(before.at(r, c).has(s(r, c)));
                        crate::bits::lemma_bit_and(before.at(r, c).0, bits, s(r, c));
                    }
                    lemma_narrow_step(g0, before, *self, r, c);
                    lemma_and_not_changes(before.at(r, c).0, bits);
                    if !changed {
                        assert(before.at(r, c) == g0.unit_cell(k, ci as int, j as int));
                    }
                    let x = before.at(r, c).0;
                    crate::bits::lemma_mask_clears(x, bits);
                    assert(self.unit_cell(k, ci as int, j as int).0 & !bits == 0);
                    assert forall|j2: int| 0 <= j2 < j && has_bit(pos, j2) implies #[trigger] self.unit_cell(k, ci as int, j2).0
                        & !bits == 0 by {
                        lemma_unit_injective(k, ci as int, j as int, j2);
                        lemma_unit_in_range(k, ci as int, j2);
                        assert(self.unit_cell(k, ci as int, j2) == before.unit_cell(k, ci as int, j2));
                    }
                    assert forall|j2: int| 0 <= j2 < j + 1 && has_bit(pos, j2) implies #[trigger] self.unit_cell(k, ci as int, j2).0
                        == g0.unit_cell(k, ci as int, j2).0 & bits by {
                        if j2 < j {
                            lemma_unit_injective(k, ci as int, j as int, j2);
                            lemma_unit_in_range(k, ci as int, j2);
                            assert(self.unit_cell(k, ci as int, j2) == before.unit_cell(k, ci as int, j2));
                        } else {
                            assert(before.unit_cell(k, ci as int, j as int) == g0.unit_cell(k, ci as int, j as int));
                        }
                    }
                    assert forall|j2: int| j + 1 <= j2 < 9 implies #[trigger] self.unit_cell(k, ci as int, j2) == g0.unit_cell(k, ci as int, j2) by {
                        lemma_unit_injective(k, ci as int, j as int, j2);
                        lemma_unit_in_range(k, ci as int, j2);
                        assert(self.unit_cell(k, ci as int, j2) == before.unit_cell(k, ci as int, j2));
                    }
                    assert forall|j2: int| 0 <= j2 < 9 && !has_bit(pos, j2) implies #[trigger] self.unit_cell(k, ci as int, j2)
                        == g0.unit_cell(k, ci as int, j2) by {
                        lemma_unit_injective(k, ci as int, j as int, j2);
                        lemma_unit_in_range(k, ci as int, j2);
                        assert(self.unit_cell(k, ci as int, j2) == before.unit_cell(k, ci as int, j2));
                    }
                    assert forall|i: int, j2: int| 0 <= i < 9 && i != ci && 0 <= j2 < 9 implies #[trigger] self.unit_cell(k, i, j2)
                        == g0.unit_cell(k, i, j2) by {
                        lemma_units_apart(k, ci as int, j as int, i, j2);
                        lemma_unit_in_range(k, i, j2);
                        assert(self.unit_cell(k, i, j2) == before.unit_cell(k, i, j2));
                    }
                }
                if ch {
                    changed = true;
                }
            }
            j += 1;
        }
        changed
    }

    /// Removes the candidates in `mask` from every cell of unit `ci` of `group` whose
    /// position is not in `keep`; returns whether any cell changed.
    pub(crate) fn clear_unit(&mut self, group: &Group, ci: usize, keep: u16, mask: u16) -> (changed: bool)
        requires
            group.wf(),
            ci < 9,
            forall|s: spec_fn(int, int) -> int, j: int|
                is_solution(s) && #[trigger] compatible(*old(self), s) && 0 <= j < 9 && !has_bit(keep, j)
                    ==> !has_bit(mask, #[trigger] sol_at(s, group.kind, ci as int, j)),
        ensures
            narrows(*old(self), *final(self)),
            changed == differs(*final(self), *old(self)),
            changed == unit_touches(*old(self), group.kind, ci as int, keep, mask),
            !changed ==> *final(self) == *old(self),
            forall|j: int| 0 <= j < 9 && has_bit(keep, j) ==> #[trigger] final(self).unit_cell(group.kind, ci as int, j)
                == old(self).unit_cell(group.kind, ci as int, j),
            forall|j: int| 0 <= j < 9 && !has_bit(keep, j) ==> #[trigger] final(self).unit_cell(group.kind, ci as int, j).0
                & mask == 0,
            forall|j: int| 0 <= j < 9 && !has_bit(keep, j) ==> #[trigger] final(self).unit_cell(group.kind, ci as int, j).0
                == old(self).unit_cell(group.kind, ci as int, j).0 & !mask,
            forall|i: int, j: int| 0 <= i < 9 && i != ci && 0 <= j < 9 ==> #[trigger] final(self).unit_cell(group.kind, i, j)
                == old(self).unit_cell(group.kind, i, j),
            grid_is(*final(self), clear_fn(cells_of(*old(self)), group.kind, ci as int, |j: int| has_bit(keep, j), mask)),
    {
        let ghost g0 = *self;
        let ghost k = group.kind;
        let mut changed = false;
        let mut j: usize = 0;
        proof {
            lemma_narrows_refl(g0);
        }
        while j < 9
            invariant
                j <= 9,
                ci < 9,
                group.wf(),
                k == group.kind,
                narrows(g0, *self),
                changed == differs(*self, g0),
                !changed ==> *self == g0,
                changed ==> unit_touches(g0, k, ci as int, keep, mask),
                forall|j2: int| 0 <= j2 < 9 && has_bit(keep, j2) ==> #[trigger] self.unit_cell(k, ci as int, j2)
                    == g0.unit_cell(k, ci as int, j2),
                !changed ==> forall|j2: int| 0 <= j2 < j && !has_bit(keep, j2) ==> #[trigger] g0.unit_cell(k, ci as int, j2).0 & mask == 0,
                forall|j2: int| 0 <= j2 < j && !has_bit(keep, j2) ==> #[trigger] self.unit_cell(k, ci as int, j2).0 & mask == 0,
                forall|j2: int| 0 <= j2 < j && !has_bit(keep, j2) ==> #[trigger] self.unit_cell(k, ci as int, j2).0
                    == g0.unit_cell(k, ci as int, j2).0 & !mask,
                forall|j2: int| j <= j2 < 9 ==> #[trigger] self.unit_cell(k, ci as int, j2) == g0.unit_cell(k, ci as int, j2),
                forall|i: int, j2: int| 0 <= i < 9 && i != ci && 0 <= j2 < 9 ==> #[trigger] self.unit_cell(k, i, j2)
                    == g0.unit_cell(k, i, j2),
                forall|s: spec_fn(int, int) -> int, j2: int|
                    is_solution(s) && #[trigger] compatible(g0, s) && 0 <= j2 < 9 && !has_bit(keep, j2)
                        ==> !has_bit(mask, #[trigger] sol_at(s, k, ci as int, j2)),
            decreases 9 - j,
        {
            if keep & (1u16 << j as u16) == 0 {
                let p = group.cells[ci][j];
                let ghost before = *self;
                let ch = self.remove_at(p.0, p.1, mask);
                proof {
                    let r = p.0 as int;
                    let c = p.1 as int;
                    assert(r == unit_row(k, ci as int, j as int) && c == unit_col(k, ci as int, j as int));
                    assert forall|s: spec_fn(int, int) -> int|
                        is_solution(s) && #[trigger] compatible(before, s) implies self.at(r, c).has(s(r, c)) by {
                        lemma_compatible_wider(before, g0, s);
                        assert(!has_bit(mask, sol_at(s, k, ci as int, j as int)));
                        assert(before.at(r, c).has(s(r, c)));
                        lemma_bit_and_not(before.at(r, c).0, mask, s(r, c));
                    }
                    lemma_narrow_step(g0, before, *self, r, c);
                    assert forall|j2: int| 0 <= j2 < 9 && has_bit(keep, j2) implies #[trigger] self.unit_cell(k, ci as int, j2)
                        == g0.unit_cell(k, ci as int, j2) by {
                        assert(!has_bit(keep, j as int));
                        assert(j2 != j);
                        lemma_unit_injective(k, ci as int, j as int, j2);
                        lemma_unit_in_range(k, ci as int, j2);
                        let r2 = unit_row(k, ci as int, j2);
                        let c2 = unit_col(k, ci as int, j2);
                        assert(self.at(r2, c2) == before.at(r2, c2));
                        assert(before.unit_cell(k, ci as int, j2) == g0.unit_cell(k, ci as int, j2));
                    }
                    lemma_and_not_changes(before.at(r, c).0, mask);
                    if !changed {
                        assert(before.at(r, c) == g0.unit_cell(k, ci as int, j as int));
                    }
                    let x = before.at(r, c).0;
                    crate::bits::lemma_mask_clears(x, mask);
                    assert(self.unit_cell(k, ci as int, j as int).0 & mask == 0);
                    assert forall|j2: int| 0 <= j2 < j && !has_bit(keep, j2) implies #[trigger] self.unit_cell(k, ci as int, j2).0
                        & mask == 0 by {
                        lemma_unit_injective(k, ci as int, j as int, j2);
                        lemma_unit_in_range(k, ci as int, j2);
                        assert(self.unit_cell(k, ci as int, j2) == before.unit_cell(k, ci as int, j2));
                    }
                    assert forall|j2: int| 0 <= j2 < j + 1 && !has_bit(keep, j2) implies #[trigger] self.unit_cell(k, ci as int, j2).0
                        == g0.unit_cell(k, ci as int, j2).0 & !mask by {
                        if j2 < j {
                            lemma_unit_injective(k, ci as int, j as int, j2);
                            lemma_unit_in_range(k, ci as int, j2);
                            assert(self.unit_cell(k, ci as int, j2) == before.unit_cell(k, ci as int, j2));
                        } else {
                            assert(before.unit_cell(k, ci as int, j as int) == g0.unit_cell(k, ci as int, j as int));
                            assert(self.unit_cell(k, ci as int, j as int).0 == before.unit_cell(k, ci as int, j as int).0 & !mask);
                        }
                    }
                    assert forall|j2: int| j + 1 <= j2 < 9 implies #[trigger] self.unit_cell(k, ci as int, j2) == g0.unit_cell(k, ci as int, j2) by {
                        lemma_unit_injective(k, ci as int, j as int, j2);
                        lemma_unit_in_range(k, ci as int, j2);
                        assert(self.unit_cell(k, ci as int, j2) == before.unit_cell(k, ci as int, j2));
                    }
                    assert forall|i: int, j2: int| 0 <= i < 9 && i != ci && 0 <= j2 < 9 implies #[trigger] self.unit_cell(k, i, j2)
                        == g0.unit_cell(k, i, j2) by {
                        lemma_units_apart(k, ci as int, j as int, i, j2);
                        lemma_unit_in_range(k, i, j2);
                        assert(self.unit_cell(k, i, j2) == before.unit_cell(k, i, j2));
                    }
                }
                if ch {
                    changed = true;
                }
            }
            j += 1;
        }
        proof {
            let f = clear_fn(cells_of(g0), k, ci as int, |jj: int| has_bit(keep, jj), mask);
            assert forall|r: int, c: int| 0 <= r < 9 && 0 <= c < 9 implies #[trigger] self.at(r, c) == f(r, c) by {
                crate::strategies::pass::lemma_cell_coords(k, r, c);
                let i = crate::strategies::pass::unit_index(k, r, c);
                let jj = crate::strategies::pass::unit_position(k, r, c);
                assert(self.unit_cell(k, i, jj) == self.at(r, c));
                if i == ci && !has_bit(keep, jj) {
                    assert(self.unit_cell(k, ci as int, jj).0 == g0.unit_cell(k, ci as int, jj).0 & !mask);
                } else if i == ci {
                    assert(self.unit_cell(k, ci as int, jj) == g0.unit_cell(k, ci as int, jj));
                } else {
                    assert(self.unit_cell(k, i, jj) == g0.unit_cell(k, i, jj));
                }
            }
        }
        changed
    }
}

} // verus!
