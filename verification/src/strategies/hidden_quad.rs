//! Hidden quad: four digits whose places in a unit are four cells fill those cells.
use vstd::prelude::*;
use crate::bits::{has_bit, popcount, lemma_bit_or, lemma_bit_single, lemma_popcount_exhausted, lemma_or_fits};
use crate::cell::count;
use crate::grid::{Grid, Group, Kind, differs, narrower, lemma_unit_in_range};
use crate::model::{is_solution, compatible, narrows, sol_at, unit_holds, lemma_narrows_refl,
    lemma_narrows_trans, lemma_differs_stays};
use crate::strategies::{places, lemma_place_bits, lemma_places_same};

verus! {

/// The count filter of a hidden quad member: not a single place, at most four places.
pub open spec fn quad_member(m: u16) -> bool {
    popcount(m) != 1 && popcount(m) <= 4
}

/// The mask of four digits.
pub open spec fn four_bits(d1: int, d2: int, d3: int, d4: int) -> u16 {
    (1u16 << d1 as u16) | (1u16 << d2 as u16) | (1u16 << d3 as u16) | (1u16 << d4 as u16)
}

/// Digits `d1`..`d4` of unit `i` have, together, exactly four places, and the cell at place
/// `j` among them has a candidate besides the four digits.
pub open spec fn hidden_quad_at(g: Grid, k: Kind, i: int, d1: int, d2: int, d3: int, d4: int, j: int) -> bool {
    let m1 = places(g, k, i, d1);
    let m2 = places(g, k, i, d2);
    let m3 = places(g, k, i, d3);
    let m4 = places(g, k, i, d4);
    &&& 1 <= d1 <= 9 && 1 <= d2 <= 9 && 1 <= d3 <= 9 && 1 <= d4 <= 9
    &&& d1 != d2 && d3 != d1 && d3 != d2 && d4 != d1 && d4 != d2 && d4 != d3
    &&& quad_member(m1) && quad_member(m2) && quad_member(m3) && quad_member(m4)
    &&& popcount(m1 | m2) <= 4
    &&& popcount(m1 | m2 | m3) <= 4
    &&& popcount(m1 | m2 | m3 | m4) == 4
    &&& 0 <= j < 9
    &&& has_bit(m1 | m2 | m3 | m4, j)
    &&& g.unit_cell(k, i, j).0 & !four_bits(d1, d2, d3, d4) != 0
}

/// A hidden quad can narrow a cell in some unit of kind `k`.
pub open spec fn hidden_quad_in(g: Grid, k: Kind) -> bool {
    exists|i: int, d1: int, d2: int, d3: int, d4: int, j: int|
        0 <= i < 9 && #[trigger] hidden_quad_at(g, k, i, d1, d2, d3, d4, j)
}

/// A hidden quad can narrow a cell somewhere in the grid.
pub open spec fn hidden_quad_applies(g: Grid) -> bool {
    hidden_quad_in(g, Kind::Box) || hidden_quad_in(g, Kind::Col) || hidden_quad_in(g, Kind::Row)
}

/// Digits `d1`..`d4` of unit `i` form a hidden quad: none has a single place, none more than
/// four, and together they have exactly four places.
pub open spec fn is_quad(g: Grid, k: Kind, i: int, d1: int, d2: int, d3: int, d4: int) -> bool {
    let m1 = places(g, k, i, d1);
    let m2 = places(g, k, i, d2);
    let m3 = places(g, k, i, d3);
    let m4 = places(g, k, i, d4);
    &&& 1 <= d1 <= 9 && 1 <= d2 <= 9 && 1 <= d3 <= 9 && 1 <= d4 <= 9
    &&& d1 != d2 && d3 != d1 && d3 != d2 && d4 != d1 && d4 != d2 && d4 != d3
    &&& quad_member(m1) && quad_member(m2) && quad_member(m3) && quad_member(m4)
    &&& popcount(m1 | m2) <= 4
    &&& popcount(m1 | m2 | m3) <= 4
    &&& popcount(m1 | m2 | m3 | m4) == 4
}

/// The places of digits `d1`..`d4` in unit `i`, together.
pub open spec fn quad_places(g: Grid, k: Kind, i: int, d1: int, d2: int, d3: int, d4: int) -> u16 {
    places(g, k, i, d1) | places(g, k, i, d2) | places(g, k, i, d3) | places(g, k, i, d4)
}

/// If digits `d1`..`d4` form a hidden quad of unit `i` in `g0`, every cell at their places
/// has no other candidate left in `g`.
pub open spec fn quad_kept(g0: Grid, g: Grid, k: Kind, i: int, d1: int, d2: int, d3: int, d4: int) -> bool {
    is_quad(g0, k, i, d1, d2, d3, d4) ==> forall|j: int|
        0 <= j < 9 && has_bit(quad_places(g0, k, i, d1, d2, d3, d4), j) ==> #[trigger] g.unit_cell(k, i, j).0
            & !four_bits(d1, d2, d3, d4) == 0
}

/// Cell `j` of unit `i` lies at the places of some hidden quad of `g`.
pub open spec fn on_quad(g: Grid, k: Kind, i: int, j: int) -> bool {
    exists|d1: int, d2: int, d3: int, d4: int|
        #[trigger] is_quad(g, k, i, d1, d2, d3, d4) && has_bit(quad_places(g, k, i, d1, d2, d3, d4), j)
}

/// Digit `e` is one of the digits of every hidden quad of `g` whose places include cell `j` of
/// unit `i`.
pub open spec fn in_all_quads(g: Grid, k: Kind, i: int, j: int, e: int) -> bool {
    forall|d1: int, d2: int, d3: int, d4: int|
        #[trigger] is_quad(g, k, i, d1, d2, d3, d4) && has_bit(quad_places(g, k, i, d1, d2, d3, d4), j) ==> has_bit(
            four_bits(d1, d2, d3, d4),
            e,
        )
}

/// In the units of kind `k`, every hidden quad of `g0` has left only its digits in its cells
/// in `g`, no cell has lost a digit of every hidden quad that covers it, and every cell at the
/// places of no hidden quad is as in `g0`.
pub open spec fn quads_done(g0: Grid, g: Grid, k: Kind) -> bool {
    &&& forall|i: int, d1: int, d2: int, d3: int, d4: int|
        0 <= i < 9 ==> #[trigger] quad_kept(g0, g, k, i, d1, d2, d3, d4)
    &&& forall|i: int, j: int, e: int|
        0 <= i < 9 && 0 <= j < 9 && g0.unit_cell(k, i, j).has(e) && in_all_quads(g0, k, i, j, e) ==> #[trigger] g.unit_cell(
            k,
            i,
            j,
        ).has(e)
    &&& forall|i: int, j: int|
        0 <= i < 9 && 0 <= j < 9 && !on_quad(g0, k, i, j) ==> #[trigger] g.unit_cell(k, i, j) == g0.unit_cell(k, i, j)
}

/// Grids that agree on the cells of unit `i` agree on which digits every covering quad has.
proof fn lemma_all_quads_same(a: Grid, b: Grid, k: Kind, i: int, j: int, e: int)
    requires
        forall|jj: int| 0 <= jj < 9 ==> #[trigger] a.unit_cell(k, i, jj) == b.unit_cell(k, i, jj),
    ensures
        in_all_quads(a, k, i, j, e) == in_all_quads(b, k, i, j, e),
{
    if in_all_quads(a, k, i, j, e) {
        assert forall|d1: int, d2: int, d3: int, d4: int|
            #[trigger] is_quad(b, k, i, d1, d2, d3, d4) && has_bit(quad_places(b, k, i, d1, d2, d3, d4), j) implies has_bit(
            four_bits(d1, d2, d3, d4),
            e,
        ) by {
            lemma_quad_same(a, b, k, i, d1, d2, d3, d4);
        }
    }
    if in_all_quads(b, k, i, j, e) {
        assert forall|d1: int, d2: int, d3: int, d4: int|
            #[trigger] is_quad(a, k, i, d1, d2, d3, d4) && has_bit(quad_places(a, k, i, d1, d2, d3, d4), j) implies has_bit(
            four_bits(d1, d2, d3, d4),
            e,
        ) by {
            lemma_quad_same(a, b, k, i, d1, d2, d3, d4);
        }
    }
}

/// What a hidden quad left stays so under further narrowing.
proof fn lemma_kept_stays(g0: Grid, a: Grid, b: Grid, k: Kind, i: int, d1: int, d2: int, d3: int, d4: int)
    requires
        narrower(b, a),
        0 <= i < 9,
        quad_kept(g0, a, k, i, d1, d2, d3, d4),
    ensures
        quad_kept(g0, b, k, i, d1, d2, d3, d4),
{
    if is_quad(g0, k, i, d1, d2, d3, d4) {
        let m = four_bits(d1, d2, d3, d4);
        assert forall|j: int| 0 <= j < 9 && has_bit(quad_places(g0, k, i, d1, d2, d3, d4), j) implies #[trigger] b.unit_cell(k, i, j).0
            & !m == 0 by {
            lemma_unit_in_range(k, i, j);
            assert(b.unit_cell(k, i, j).within(a.unit_cell(k, i, j)));
            let x = b.unit_cell(k, i, j).0;
            let y = a.unit_cell(k, i, j).0;
            assert(y & !m == 0);
            crate::bits::lemma_subset_disjoint(x, y, !m);
        }
    }
}

/// Grids that agree on the cells of unit `i` have the same hidden quads there.
proof fn lemma_quad_same(a: Grid, b: Grid, k: Kind, i: int, d1: int, d2: int, d3: int, d4: int)
    requires
        forall|j: int| 0 <= j < 9 ==> #[trigger] a.unit_cell(k, i, j) == b.unit_cell(k, i, j),
    ensures
        is_quad(a, k, i, d1, d2, d3, d4) == is_quad(b, k, i, d1, d2, d3, d4),
        quad_places(a, k, i, d1, d2, d3, d4) == quad_places(b, k, i, d1, d2, d3, d4),
{
    lemma_places_same(a, b, k, i, d1, 9);
    lemma_places_same(a, b, k, i, d2, 9);
    lemma_places_same(a, b, k, i, d3, 9);
    lemma_places_same(a, b, k, i, d4, 9);
}

pub proof fn lemma_four_bits(a: int, b: int, c: int, d: int, i: int)
    requires
        0 <= a < 16,
        0 <= b < 16,
        0 <= c < 16,
        0 <= d < 16,
    ensures
        has_bit(four_bits(a, b, c, d), i) == (i == a || i == b || i == c || i == d),
{
    let x = (1u16 << a as u16) | (1u16 << b as u16);
    let y = x | (1u16 << c as u16);
    lemma_bit_or(y, 1u16 << d as u16, i);
    lemma_bit_or(x, 1u16 << c as u16, i);
    lemma_bit_or(1u16 << a as u16, 1u16 << b as u16, i);
    lemma_bit_single(a as u16, i);
    lemma_bit_single(b as u16, i);
    lemma_bit_single(c as u16, i);
    lemma_bit_single(d as u16, i);
}

pub proof fn lemma_or4_bit(m1: u16, m2: u16, m3: u16, m4: u16, j: int)
    ensures
        has_bit(m1 | m2 | m3 | m4, j) == (has_bit(m1, j) || has_bit(m2, j) || has_bit(m3, j) || has_bit(m4, j)),
{
    lemma_bit_or(m1 | m2 | m3, m4, j);
    lemma_bit_or(m1 | m2, m3, j);
    lemma_bit_or(m1, m2, j);
}

/// Every completed board fitting `g` puts only the four digits of a hidden quad on its places.
pub proof fn lemma_hidden_quad_sound(g: Grid, k: Kind, i: int, d1: int, d2: int, d3: int, d4: int)
    requires
        0 <= i < 9,
        1 <= d1 <= 9 && 1 <= d2 <= 9 && 1 <= d3 <= 9 && 1 <= d4 <= 9,
        d1 != d2 && d3 != d1 && d3 != d2 && d4 != d1 && d4 != d2 && d4 != d3,
        popcount(places(g, k, i, d1) | places(g, k, i, d2) | places(g, k, i, d3) | places(g, k, i, d4)) == 4,
    ensures
        forall|s: spec_fn(int, int) -> int, j: int|
            is_solution(s) && #[trigger] compatible(g, s) && 0 <= j < 9 && has_bit(
                places(g, k, i, d1) | places(g, k, i, d2) | places(g, k, i, d3) | places(g, k, i, d4),
                j,
            ) ==> has_bit(four_bits(d1, d2, d3, d4), #[trigger] sol_at(s, k, i, j)),
{
    let m1 = places(g, k, i, d1);
    let m2 = places(g, k, i, d2);
    let m3 = places(g, k, i, d3);
    let m4 = places(g, k, i, d4);
    let comb = m1 | m2 | m3 | m4;
    lemma_place_bits(g, k, i, d1, 9);
    lemma_place_bits(g, k, i, d2, 9);
    lemma_place_bits(g, k, i, d3, 9);
    lemma_place_bits(g, k, i, d4, 9);
    assert forall|s: spec_fn(int, int) -> int, j: int|
        is_solution(s) && #[trigger] compatible(g, s) && 0 <= j < 9 && has_bit(comb, j) implies has_bit(
        four_bits(d1, d2, d3, d4),
        #[trigger] sol_at(s, k, i, j),
    ) by {
        assert(unit_holds(s, k, i, d1));
        assert(unit_holds(s, k, i, d2));
        assert(unit_holds(s, k, i, d3));
        assert(unit_holds(s, k, i, d4));
        let j1 = choose|j: int| 0 <= j < 9 && #[trigger] sol_at(s, k, i, j) == d1;
        let j2 = choose|j: int| 0 <= j < 9 && #[trigger] sol_at(s, k, i, j) == d2;
        let j3 = choose|j: int| 0 <= j < 9 && #[trigger] sol_at(s, k, i, j) == d3;
        let j4 = choose|j: int| 0 <= j < 9 && #[trigger] sol_at(s, k, i, j) == d4;
        crate::grid::lemma_unit_in_range(k, i, j1);
        crate::grid::lemma_unit_in_range(k, i, j2);
        crate::grid::lemma_unit_in_range(k, i, j3);
        crate::grid::lemma_unit_in_range(k, i, j4);
        assert(g.unit_cell(k, i, j1).has(d1));
        assert(g.unit_cell(k, i, j2).has(d2));
        assert(g.unit_cell(k, i, j3).has(d3));
        assert(g.unit_cell(k, i, j4).has(d4));
        assert(has_bit(m1, j1));
        assert(has_bit(m2, j2));
        assert(has_bit(m3, j3));
        assert(has_bit(m4, j4));
        lemma_or4_bit(m1, m2, m3, m4, j1);
        lemma_or4_bit(m1, m2, m3, m4, j2);
        lemma_or4_bit(m1, m2, m3, m4, j3);
        lemma_or4_bit(m1, m2, m3, m4, j4);
        let set = set![j1, j2, j3, j4];
        assert(set.len() == 4);
        lemma_popcount_exhausted(comb, set, j);
        lemma_four_bits(d1, d2, d3, d4, sol_at(s, k, i, j));
    }
}

/// What `hidden_quad` makes of `g`: the pass over the boxes if a hidden quad can act in a box, else over the columns if it can act in a column, else over the rows.
pub open spec fn hidden_quad_result(g: Grid, h: Grid) -> bool {
    &&& narrows(g, h)
    &&& hidden_quad_in(g, Kind::Box) ==> quads_done(g, h, Kind::Box)
    &&& !hidden_quad_in(g, Kind::Box) && hidden_quad_in(g, Kind::Col) ==> quads_done(g, h, Kind::Col)
    &&& !hidden_quad_in(g, Kind::Box) && !hidden_quad_in(g, Kind::Col) ==> quads_done(g, h, Kind::Row)
}

/// A cell keeps exactly the digits it had that belong to every quad covering it.
proof fn lemma_quad_cell_bit(g: Grid, h: Grid, k: Kind, i: int, j: int, e: int)
    requires
        narrows(g, h),
        quads_done(g, h, k),
        0 <= i < 9,
        0 <= j < 9,
    ensures
        h.unit_cell(k, i, j).has(e) == (g.unit_cell(k, i, j).has(e) && in_all_quads(g, k, i, j, e)),
{
    crate::grid::lemma_unit_in_range(k, i, j);
    if h.unit_cell(k, i, j).has(e) {
        assert(h.unit_cell(k, i, j).within(g.unit_cell(k, i, j)));
        crate::bits::lemma_subset_bit(h.unit_cell(k, i, j).0, g.unit_cell(k, i, j).0, e);
        assert forall|d1: int, d2: int, d3: int, d4: int| #[trigger] is_quad(g, k, i, d1, d2, d3, d4) && has_bit(quad_places(g, k, i, d1, d2, d3, d4), j) implies has_bit(
            four_bits(d1, d2, d3, d4),
            e,
        ) by {
            assert(quad_kept(g, h, k, i, d1, d2, d3, d4));
            crate::bits::lemma_bit_and_not(h.unit_cell(k, i, j).0, four_bits(d1, d2, d3, d4), e);
            crate::bits::lemma_bit_zero(e);
        }
    }
}

/// Two grids that both are what the pass makes of `g` are the same grid.
proof fn lemma_quad_unique(g: Grid, h1: Grid, h2: Grid, k: Kind)
    requires
        narrows(g, h1),
        narrows(g, h2),
        quads_done(g, h1, k),
        quads_done(g, h2, k),
    ensures
        h1 == h2,
{
    assert forall|r: int, c: int| 0 <= r < 9 && 0 <= c < 9 implies #[trigger] h1.at(r, c) == h2.at(r, c) by {
        crate::strategies::pass::lemma_cell_coords(k, r, c);
        let i = crate::strategies::pass::unit_index(k, r, c);
        let j = crate::strategies::pass::unit_position(k, r, c);
        assert(h1.unit_cell(k, i, j) == h1.at(r, c));
        assert(h2.unit_cell(k, i, j) == h2.at(r, c));
        assert forall|e: int| 0 <= e < 16 implies #[trigger] has_bit(h1.at(r, c).0, e) == has_bit(h2.at(r, c).0, e) by {
            lemma_quad_cell_bit(g, h1, k, i, j, e);
            lemma_quad_cell_bit(g, h2, k, i, j, e);
        }
        crate::bits::lemma_bits_ext(h1.at(r, c).0, h2.at(r, c).0);
    }
    crate::grid::lemma_same_grid(h1, h2);
}

/// What the pass makes of a grid is determined by the grid.
pub proof fn lemma_hidden_quad_determined(g: Grid, h1: Grid, h2: Grid)
    requires
        hidden_quad_result(g, h1),
        hidden_quad_result(g, h2),
    ensures
        h1 == h2,
{
    if hidden_quad_in(g, Kind::Box) {
        lemma_quad_unique(g, h1, h2, Kind::Box);
    } else if hidden_quad_in(g, Kind::Col) {
        lemma_quad_unique(g, h1, h2, Kind::Col);
    } else {
        lemma_quad_unique(g, h1, h2, Kind::Row);
    }
}

/// Four different digits of unit `i`, none with exactly one place in it and none with more
/// than four, whose places together are exactly four cells.
pub open spec fn four_digits_in_four_cells(g: Grid, k: Kind, i: int, d1: int, d2: int, d3: int, d4: int) -> bool {
    &&& 0 <= i < 9
    &&& 1 <= d1 <= 9 && 1 <= d2 <= 9 && 1 <= d3 <= 9 && 1 <= d4 <= 9
    &&& d1 != d2 && d3 != d1 && d3 != d2 && d4 != d1 && d4 != d2 && d4 != d3
    &&& forall|d: int|
        (d == d1 || d == d2 || d == d3 || d == d4) ==> popcount(#[trigger] places(g, k, i, d)) != 1 && popcount(
            places(g, k, i, d),
        ) <= 4
    &&& popcount(quad_places(g, k, i, d1, d2, d3, d4)) == 4
}

/// Four digits of a unit are a hidden quad exactly when they are different, none has exactly
/// one place in the unit, none has more than four, and together their places are four cells.
pub proof fn lemma_four_digits_quad(g: Grid, k: Kind, i: int, d1: int, d2: int, d3: int, d4: int)
    requires
        0 <= i < 9,
    ensures
        is_quad(g, k, i, d1, d2, d3, d4) == four_digits_in_four_cells(g, k, i, d1, d2, d3, d4),
{
    if four_digits_in_four_cells(g, k, i, d1, d2, d3, d4) {
        let m1 = places(g, k, i, d1);
        let m2 = places(g, k, i, d2);
        let m3 = places(g, k, i, d3);
        let m4 = places(g, k, i, d4);
        assert(popcount(m1) != 1 && popcount(m1) <= 4);
        assert(popcount(m2) != 1 && popcount(m2) <= 4);
        assert(popcount(m3) != 1 && popcount(m3) <= 4);
        assert(popcount(m4) != 1 && popcount(m4) <= 4);
        crate::bits::lemma_or_subset(m1 | m2, m3);
        crate::bits::lemma_or_subset(m1 | m2 | m3, m4);
        crate::bits::lemma_popcount_mono(m1 | m2 | m3, m1 | m2 | m3 | m4);
        crate::bits::lemma_popcount_mono(m1 | m2, m1 | m2 | m3);
    }
}

/// If four different digits of a unit, none with exactly one place and none with more than
/// four, have exactly four cells as places together, and one of those cells has another
/// candidate, a hidden quad applies to the grid.
pub proof fn lemma_hidden_quad_found(g: Grid, k: Kind, i: int, d1: int, d2: int, d3: int, d4: int, j: int)
    requires
        four_digits_in_four_cells(g, k, i, d1, d2, d3, d4),
        0 <= j < 9,
        has_bit(quad_places(g, k, i, d1, d2, d3, d4), j),
        g.unit_cell(k, i, j).0 & !four_bits(d1, d2, d3, d4) != 0,
    ensures
        hidden_quad_applies(g),
{
    lemma_four_digits_quad(g, k, i, d1, d2, d3, d4);
    assert(is_quad(g, k, i, d1, d2, d3, d4));
    assert(hidden_quad_at(g, k, i, d1, d2, d3, d4, j));
    assert(hidden_quad_in(g, k));
}

/// Four different digits of a unit, none with exactly one place and none with more than four,
/// whose places together are exactly four cells: when no hidden quad acts in a kind of unit
/// taken before `k`, each of those cells keeps only those four digits after the pass.
pub proof fn lemma_hidden_quad_fills(g: Grid, h: Grid, k: Kind, i: int, d1: int, d2: int, d3: int, d4: int)
    requires
        hidden_quad_result(g, h),
        four_digits_in_four_cells(g, k, i, d1, d2, d3, d4),
        k != Kind::Box ==> !hidden_quad_in(g, Kind::Box),
        k == Kind::Row ==> !hidden_quad_in(g, Kind::Col),
    ensures
        forall|j: int|
            0 <= j < 9 && has_bit(quad_places(g, k, i, d1, d2, d3, d4), j) ==> #[trigger] h.unit_cell(k, i, j).0 & !four_bits(
                d1,
                d2,
                d3,
                d4,
            ) == 0,
{
    lemma_four_digits_quad(g, k, i, d1, d2, d3, d4);
    let m = four_bits(d1, d2, d3, d4);
    if hidden_quad_in(g, k) || k == Kind::Row {
        assert(quads_done(g, h, k));
        assert(quad_kept(g, h, k, i, d1, d2, d3, d4));
    } else {
        assert forall|j: int|
            0 <= j < 9 && has_bit(quad_places(g, k, i, d1, d2, d3, d4), j) implies #[trigger] h.unit_cell(k, i, j).0 & !m
            == 0 by {
            if g.unit_cell(k, i, j).0 & !m != 0 {
                assert(hidden_quad_at(g, k, i, d1, d2, d3, d4, j));
            }
            lemma_unit_in_range(k, i, j);
            assert(h.unit_cell(k, i, j).within(g.unit_cell(k, i, j)));
            crate::bits::lemma_subset_disjoint(h.unit_cell(k, i, j).0, g.unit_cell(k, i, j).0, !m);
        }
    }
}

impl Grid {
    /// hidden_quad looks in each unit for four digits whose places, taken together, are four
    /// cells; the other candidates are removed from those cells. Boxes, then columns, then
    /// rows; it stops after the first kind of unit where it changed something. Returns true if
    /// it changed any cell.
    pub fn hidden_quad(&mut self) -> (res: bool)
        ensures
            narrows(*old(self), *final(self)),
            res == differs(*final(self), *old(self)),
            res == hidden_quad_applies(*old(self)),
            hidden_quad_result(*old(self), *final(self)),
            hidden_quad_in(*old(self), Kind::Box) ==> quads_done(*old(self), *final(self), Kind::Box),
            !hidden_quad_in(*old(self), Kind::Box) && hidden_quad_in(*old(self), Kind::Col) ==> quads_done(
                *old(self),
                *final(self),
                Kind::Col,
            ),
            !hidden_quad_in(*old(self), Kind::Box) && !hidden_quad_in(*old(self), Kind::Col) ==> quads_done(
                *old(self),
                *final(self),
                Kind::Row,
            ),
    {
        if self.hidden_quad_group(&Group::new(Kind::Box)) {
            return true;
        }
        if self.hidden_quad_group(&Group::new(Kind::Col)) {
            return true;
        }
        self.hidden_quad_group(&Group::new(Kind::Row))
    }

    pub fn hidden_quad_group(&mut self, group: &Group) -> (res: bool)
        requires
            group.wf(),
        ensures
            narrows(*old(self), *final(self)),
            res == differs(*final(self), *old(self)),
            res == hidden_quad_in(*old(self), group.kind),
            !res ==> *final(self) == *old(self),
            quads_done(*old(self), *final(self), group.kind),
    {
        let ghost g0 = *self;
        let ghost k = group.kind;
        let mut res = false;
        proof {
            lemma_narrows_refl(g0);
        }
        let mut ci: usize = 0;
        while ci < 9
            invariant
                ci <= 9,
                group.wf(),
                k == group.kind,
                narrows(g0, *self),
                res == differs(*self, g0),
                !res ==> *self == g0,
                res ==> hidden_quad_in(g0, k),
                !res ==> forall|i: int, a: int, b: int, c: int, d: int, j: int|
                    0 <= i < ci ==> !#[trigger] hidden_quad_at(g0, k, i, a, b, c, d, j),
                forall|i: int, j: int| ci <= i < 9 && 0 <= j < 9 ==> #[trigger] self.unit_cell(k, i, j) == g0.unit_cell(k, i, j),
                forall|i: int, a: int, b: int, c: int, d: int| 0 <= i < ci ==> #[trigger] quad_kept(g0, *self, k, i, a, b, c, d),
                forall|i: int, j: int, e: int|
                    0 <= i < ci && 0 <= j < 9 && g0.unit_cell(k, i, j).has(e) && in_all_quads(g0, k, i, j, e) ==> #[trigger] self.unit_cell(
                        k,
                        i,
                        j,
                    ).has(e),
                forall|i: int, j: int| 0 <= i < ci && 0 <= j < 9 && !on_quad(g0, k, i, j) ==> #[trigger] self.unit_cell(k, i, j)
                    == g0.unit_cell(k, i, j),
            decreases 9 - ci,
        {
            let ghost g1 = *self;
            let places = self.digit_places(group, ci);
            proof {
                lemma_narrows_refl(g1);
            }
            let mut i1: usize = 1;
            while i1 <= 9
                invariant
                    1 <= i1 <= 10,
                    ci < 9,
                    group.wf(),
                    k == group.kind,
                    forall|e: int| 1 <= e <= 9 ==> #[trigger] places[e] == crate::strategies::places(g1, k, ci as int, e),
                    forall|e: int| 0 <= e < 10 ==> #[trigger] places[e] < 512,
                    narrows(g0, g1),
                    narrows(g1, *self),
                    !res ==> g1 == g0,
                    res == differs(*self, g0),
                    !res ==> *self == g0,
                    res ==> hidden_quad_in(g0, k),
                    !res ==> forall|i: int, a: int, b: int, c: int, d: int, j: int|
                        0 <= i < ci ==> !#[trigger] hidden_quad_at(g0, k, i, a, b, c, d, j),
                    !res ==> forall|a: int, b: int, c: int, d: int, j: int|
                        a < i1 ==> !#[trigger] hidden_quad_at(g0, k, ci as int, a, b, c, d, j),
                    forall|i: int, j: int| 0 <= i < 9 && i != ci && 0 <= j < 9 ==> #[trigger] self.unit_cell(k, i, j) == g1.unit_cell(k, i, j),
                    forall|a: int, b: int, c: int, d: int| a < i1 ==> #[trigger] quad_kept(g1, *self, k, ci as int, a, b, c, d),
                    forall|j: int, e: int|
                        0 <= j < 9 && g1.unit_cell(k, ci as int, j).has(e) && in_all_quads(g1, k, ci as int, j, e)
                            ==> #[trigger] self.unit_cell(k, ci as int, j).has(e),
                    forall|j: int| 0 <= j < 9 && #[trigger] self.unit_cell(k, ci as int, j) != g1.unit_cell(k, ci as int, j)
                        ==> on_quad(g1, k, ci as int, j),
                decreases 10 - i1,
            {
                let ghost before = *self;
                let ch = self.hidden_quad_1(group, ci, &places, i1, Ghost(g1));
                proof {
                    assert forall|a: int, b: int, c: int, d: int| a < i1 + 1 implies #[trigger] quad_kept(g1, *self, k, ci as int, a, b, c, d) by {
                        if a < i1 {
                            lemma_kept_stays(g1, before, *self, k, ci as int, a, b, c, d);
                        }
                    }
                    assert forall|j: int| 0 <= j < 9 && #[trigger] self.unit_cell(k, ci as int, j) != g1.unit_cell(k, ci as int, j)
                        implies on_quad(g1, k, ci as int, j) by {
                        if self.unit_cell(k, ci as int, j) != before.unit_cell(k, ci as int, j) {
                        }
                    }
                    lemma_narrows_trans(g0, g1, *self);
                    if res {
                        lemma_narrows_trans(g0, g1, before);
                        lemma_differs_stays(g0, before, *self);
                    } else {
                        assert(before == g0);
                        if ch {
                            let (b, c, d, j) = choose|b: int, c: int, d: int, j: int|
                                #[trigger] hidden_quad_at(g1, k, ci as int, i1 as int, b, c, d, j);
                            assert(hidden_quad_at(g0, k, ci as int, i1 as int, b, c, d, j));
                        }
                    }
                }
                if ch {
                    res = true;
                }
                i1 += 1;
            }
            proof {
                lemma_narrows_trans(g0, g1, *self);
                assert forall|a: int, b: int, c: int, d: int, j: int| !(1 <= a <= 9) implies
                    !#[trigger] hidden_quad_at(g0, k, ci as int, a, b, c, d, j) by {}
                assert forall|j: int| 0 <= j < 9 implies #[trigger] g0.unit_cell(k, ci as int, j) == g1.unit_cell(k, ci as int, j) by {}
                assert forall|i: int, a: int, b: int, c: int, d: int| 0 <= i < ci + 1 implies #[trigger] quad_kept(g0, *self, k, i, a, b, c, d) by {
                    if i < ci {
                        assert(quad_kept(g0, g1, k, i, a, b, c, d));
                        assert forall|j: int| 0 <= j < 9 implies #[trigger] self.unit_cell(k, i, j) == g1.unit_cell(k, i, j) by {}
                    } else {
                        lemma_quad_same(g0, g1, k, ci as int, a, b, c, d);
                        if !(a < 10) {
                            assert(!is_quad(g0, k, ci as int, a, b, c, d));
                        } else {
                            assert(quad_kept(g1, *self, k, ci as int, a, b, c, d));
                        }
                    }
                }
                assert forall|i: int, j: int, e: int|
                    0 <= i < ci + 1 && 0 <= j < 9 && g0.unit_cell(k, i, j).has(e) && in_all_quads(g0, k, i, j, e) implies #[trigger] self.unit_cell(
                        k,
                        i,
                        j,
                    ).has(e) by {
                    if i < ci {
                        assert(g1.unit_cell(k, i, j).has(e));
                        assert(self.unit_cell(k, i, j) == g1.unit_cell(k, i, j));
                    } else {
                        lemma_all_quads_same(g0, g1, k, ci as int, j, e);
                    }
                }
                assert forall|i: int, j: int| 0 <= i < ci + 1 && 0 <= j < 9 && !on_quad(g0, k, i, j) implies #[trigger] self.unit_cell(k, i, j)
                    == g0.unit_cell(k, i, j) by {
                    if i < ci {
                        assert(g1.unit_cell(k, i, j) == g0.unit_cell(k, i, j));
                    } else if self.unit_cell(k, i, j) != g1.unit_cell(k, i, j) {
                        assert(on_quad(g1, k, ci as int, j));
                        let (a, b, c, d) = choose|a: int, b: int, c: int, d: int|
                            #[trigger] is_quad(g1, k, ci as int, a, b, c, d) && has_bit(quad_places(g1, k, ci as int, a, b, c, d), j);
                        lemma_quad_same(g0, g1, k, ci as int, a, b, c, d);
                        assert(is_quad(g0, k, ci as int, a, b, c, d) && has_bit(quad_places(g0, k, ci as int, a, b, c, d), j));
                    }
                }
            }
            ci += 1;
        }
        res
    }

    /// The hidden quads of unit `ci` (places taken in `g1`) whose first digit is `i1`.
    fn hidden_quad_1(&mut self, group: &Group, ci: usize, places: &[u16; 10], i1: usize, Ghost(g1): Ghost<Grid>) -> (res: bool)
        requires
            group.wf(),
            ci < 9,
            1 <= i1 <= 9,
            forall|e: int| 1 <= e <= 9 ==> #[trigger] places[e] == crate::strategies::places(g1, group.kind, ci as int, e),
            forall|e: int| 0 <= e < 10 ==> #[trigger] places[e] < 512,
            narrows(g1, *old(self)),
        ensures
            narrows(g1, *final(self)),
            narrows(*old(self), *final(self)),
            res == differs(*final(self), *old(self)),
            !res ==> *final(self) == *old(self),
            *old(self) == g1 ==> (res == exists|b: int, c: int, d: int, j: int|
                #[trigger] hidden_quad_at(g1, group.kind, ci as int, i1 as int, b, c, d, j)),
            forall|i: int, j: int| 0 <= i < 9 && i != ci && 0 <= j < 9 ==> #[trigger] final(self).unit_cell(group.kind, i, j)
                == old(self).unit_cell(group.kind, i, j),
            forall|b: int, c: int, d: int| #[trigger] quad_kept(g1, *final(self), group.kind, ci as int, i1 as int, b, c, d),
            forall|j: int| 0 <= j < 9 && #[trigger] final(self).unit_cell(group.kind, ci as int, j) != old(self).unit_cell(
                group.kind,
                ci as int,
                j,
            ) ==> on_quad(g1, group.kind, ci as int, j),
            forall|j: int, e: int|
                0 <= j < 9 && old(self).unit_cell(group.kind, ci as int, j).has(e) && in_all_quads(g1, group.kind, ci as int, j, e)
                    ==> #[trigger] final(self).unit_cell(group.kind, ci as int, j).has(e),
    {
        let ghost gs = *self;
        let ghost k = group.kind;
        proof {
            lemma_narrows_refl(gs);
        }
        let p1 = places[i1];
        let c1 = count(p1);
        if c1 == 1 || c1 > 4 {
            proof {
                assert forall|b: int, c: int, d: int| true implies #[trigger] quad_kept(g1, *self, k, ci as int, i1 as int, b, c, d) by {
                    assert(!is_quad(g1, k, ci as int, i1 as int, b, c, d));
                }
            }
            return false;
        }
        let mut res = false;
        let mut i2: usize = 1;
        while i2 <= 9
            invariant
                1 <= i1 <= 9,
                1 <= i2 <= 10,
                ci < 9,
                group.wf(),
                k == group.kind,
                forall|e: int| 1 <= e <= 9 ==> #[trigger] places[e] == crate::strategies::places(g1, k, ci as int, e),
                forall|e: int| 0 <= e < 10 ==> #[trigger] places[e] < 512,
                p1 == places[i1 as int],
                quad_member(p1),
                narrows(g1, gs),
                narrows(g1, *self),
                narrows(gs, *self),
                res == differs(*self, gs),
                !res ==> *self == gs,
                gs == g1 && res ==> exists|b: int, c: int, d: int, j: int|
                    #[trigger] hidden_quad_at(g1, k, ci as int, i1 as int, b, c, d, j),
                gs == g1 && !res ==> forall|b: int, c: int, d: int, j: int|
                    b < i2 ==> !#[trigger] hidden_quad_at(g1, k, ci as int, i1 as int, b, c, d, j),
                forall|i: int, j: int| 0 <= i < 9 && i != ci && 0 <= j < 9 ==> #[trigger] self.unit_cell(k, i, j) == gs.unit_cell(k, i, j),
                forall|b: int, c: int, d: int| b < i2 ==> #[trigger] quad_kept(g1, *self, k, ci as int, i1 as int, b, c, d),
                forall|j: int, e: int|
                    0 <= j < 9 && gs.unit_cell(k, ci as int, j).has(e) && in_all_quads(g1, k, ci as int, j, e)
                        ==> #[trigger] self.unit_cell(k, ci as int, j).has(e),
                forall|j: int| 0 <= j < 9 && #[trigger] self.unit_cell(k, ci as int, j) != gs.unit_cell(k, ci as int, j)
                    ==> on_quad(g1, k, ci as int, j),
            decreases 10 - i2,
        {
            let ghost before = *self;
            if i1 != i2 {
                let p2 = places[i2];
                proof {
                    lemma_or_fits(p1, p2);
                }
                let c2 = count(p2);
                if c2 != 1 && c2 <= 4 && count(p1 | p2) <= 4 {
                    let ch = self.hidden_quad_2(group, ci, places, i1, i2, Ghost(g1));
                    proof {
                        assert forall|b: int, c: int, d: int| b < i2 + 1 implies #[trigger] quad_kept(g1, *self, k, ci as int, i1 as int, b, c, d) by {
                            if b < i2 {
                                lemma_kept_stays(g1, before, *self, k, ci as int, i1 as int, b, c, d);
                            }
                        }
                        assert forall|j: int| 0 <= j < 9 && #[trigger] self.unit_cell(k, ci as int, j) != gs.unit_cell(k, ci as int, j)
                            implies on_quad(g1, k, ci as int, j) by {
                            if self.unit_cell(k, ci as int, j) != before.unit_cell(k, ci as int, j) {
                            }
                        }
                        lemma_narrows_trans(gs, before, *self);
                        if res {
                            lemma_differs_stays(gs, before, *self);
                        } else if gs == g1 && ch {
                            let (c, d, j) = choose|c: int, d: int, j: int|
                                #[trigger] hidden_quad_at(g1, k, ci as int, i1 as int, i2 as int, c, d, j);
                            assert(hidden_quad_at(g1, k, ci as int, i1 as int, i2 as int, c, d, j));
                        }
                    }
                    if ch {
                        res = true;
                    }
                } else {
                    proof {
                        assert forall|c: int, d: int, j: int| true implies
                            !#[trigger] hidden_quad_at(g1, k, ci as int, i1 as int, i2 as int, c, d, j) by {}
                        assert forall|c: int, d: int| true implies #[trigger] quad_kept(g1, *self, k, ci as int, i1 as int, i2 as int, c, d) by {
                            assert(!is_quad(g1, k, ci as int, i1 as int, i2 as int, c, d));
                        }
                    }
                }
            } else {
                proof {
                    assert forall|c: int, d: int, j: int| true implies
                        !#[trigger] hidden_quad_at(g1, k, ci as int, i1 as int, i2 as int, c, d, j) by {}
                    assert forall|c: int, d: int| true implies #[trigger] quad_kept(g1, *self, k, ci as int, i1 as int, i2 as int, c, d) by {
                        assert(!is_quad(g1, k, ci as int, i1 as int, i2 as int, c, d));
                    }
                }
            }
            i2 += 1;
        }
        proof {
            assert forall|b: int, c: int, d: int, j: int| !(1 <= b <= 9) implies
                !#[trigger] hidden_quad_at(g1, k, ci as int, i1 as int, b, c, d, j) by {}
            assert forall|b: int, c: int, d: int| true implies #[trigger] quad_kept(g1, *self, k, ci as int, i1 as int, b, c, d) by {
                if !(b < i2) {
                    assert(!is_quad(g1, k, ci as int, i1 as int, b, c, d));
                }
            }
        }
        res
    }

    /// The hidden quads of unit `ci` (places taken in `g1`) whose first digits are `i1`, `i2`.
    fn hidden_quad_2(&mut self, group: &Group, ci: usize, places: &[u16; 10], i1: usize, i2: usize, Ghost(g1): Ghost<Grid>) -> (res: bool)
        requires
            group.wf(),
            ci < 9,
            1 <= i1 <= 9,
            1 <= i2 <= 9,
            i1 != i2,
            forall|e: int| 1 <= e <= 9 ==> #[trigger] places[e] == crate::strategies::places(g1, group.kind, ci as int, e),
            forall|e: int| 0 <= e < 10 ==> #[trigger] places[e] < 512,
            quad_member(places[i1 as int]),
            quad_member(places[i2 as int]),
            popcount(places[i1 as int] | places[i2 as int]) <= 4,
            narrows(g1, *old(self)),
        ensures
            narrows(g1, *final(self)),
            narrows(*old(self), *final(self)),
            res == differs(*final(self), *old(self)),
            !res ==> *final(self) == *old(self),
            *old(self) == g1 ==> (res == exists|c: int, d: int, j: int|
                #[trigger] hidden_quad_at(g1, group.kind, ci as int, i1 as int, i2 as int, c, d, j)),
            forall|i: int, j: int| 0 <= i < 9 && i != ci && 0 <= j < 9 ==> #[trigger] final(self).unit_cell(group.kind, i, j)
                == old(self).unit_cell(group.kind, i, j),
            forall|c: int, d: int| #[trigger] quad_kept(g1, *final(self), group.kind, ci as int, i1 as int, i2 as int, c, d),
            forall|j: int| 0 <= j < 9 && #[trigger] final(self).unit_cell(group.kind, ci as int, j) != old(self).unit_cell(
                group.kind,
                ci as int,
                j,
            ) ==> on_quad(g1, group.kind, ci as int, j),
            forall|j: int, e: int|
                0 <= j < 9 && old(self).unit_cell(group.kind, ci as int, j).has(e) && in_all_quads(g1, group.kind, ci as int, j, e)
                    ==> #[trigger] final(self).unit_cell(group.kind, ci as int, j).has(e),
    {
        let ghost gs = *self;
        let ghost k = group.kind;
        proof {
            lemma_narrows_refl(gs);
        }
        let p12 = places[i1] | places[i2];
        let mut res = false;
        let mut i3: usize = 1;
        while i3 <= 9
            invariant
                1 <= i1 <= 9,
                1 <= i2 <= 9,
                i1 != i2,
                1 <= i3 <= 10,
                ci < 9,
                group.wf(),
                k == group.kind,
                forall|e: int| 1 <= e <= 9 ==> #[trigger] places[e] == crate::strategies::places(g1, k, ci as int, e),
                forall|e: int| 0 <= e < 10 ==> #[trigger] places[e] < 512,
                p12 == places[i1 as int] | places[i2 as int],
                quad_member(places[i1 as int]),
                quad_member(places[i2 as int]),
                popcount(p12) <= 4,
                narrows(g1, gs),
                narrows(g1, *self),
                narrows(gs, *self),
                res == differs(*self, gs),
                !res ==> *self == gs,
                gs == g1 && res ==> exists|c: int, d: int, j: int|
                    #[trigger] hidden_quad_at(g1, k, ci as int, i1 as int, i2 as int, c, d, j),
                gs == g1 && !res ==> forall|c: int, d: int, j: int|
                    c < i3 ==> !#[trigger] hidden_quad_at(g1, k, ci as int, i1 as int, i2 as int, c, d, j),
                forall|i: int, j: int| 0 <= i < 9 && i != ci && 0 <= j < 9 ==> #[trigger] self.unit_cell(k, i, j) == gs.unit_cell(k, i, j),
                forall|c: int, d: int| c < i3 ==> #[trigger] quad_kept(g1, *self, k, ci as int, i1 as int, i2 as int, c, d),
                forall|j: int, e: int|
                    0 <= j < 9 && gs.unit_cell(k, ci as int, j).has(e) && in_all_quads(g1, k, ci as int, j, e)
                        ==> #[trigger] self.unit_cell(k, ci as int, j).has(e),
                forall|j: int| 0 <= j < 9 && #[trigger] self.unit_cell(k, ci as int, j) != gs.unit_cell(k, ci as int, j)
                    ==> on_quad(g1, k, ci as int, j),
            decreases 10 - i3,
        {
            let ghost before = *self;
            if i1 != i3 && i2 != i3 {
                let p3 = places[i3];
                proof {
                    lemma_or_fits(places[i1 as int], places[i2 as int]);
                    lemma_or_fits(p12, p3);
                }
                let c3 = count(p3);
                if c3 != 1 && c3 <= 4 && count(p12 | p3) <= 4 {
                    let ch = self.hidden_quad_3(group, ci, places, i1, i2, i3, Ghost(g1));
                    proof {
                        assert forall|c: int, d: int| c < i3 + 1 implies #[trigger] quad_kept(g1, *self, k, ci as int, i1 as int, i2 as int, c, d) by {
                            if c < i3 {
                                lemma_kept_stays(g1, before, *self, k, ci as int, i1 as int, i2 as int, c, d);
                            }
                        }
                        assert forall|j: int| 0 <= j < 9 && #[trigger] self.unit_cell(k, ci as int, j) != gs.unit_cell(k, ci as int, j)
                            implies on_quad(g1, k, ci as int, j) by {
                            if self.unit_cell(k, ci as int, j) != before.unit_cell(k, ci as int, j) {
                            }
                        }
                        lemma_narrows_trans(gs, before, *self);
                        if res {
                            lemma_differs_stays(gs, before, *self);
                        } else if gs == g1 && ch {
                            let (d, j) = choose|d: int, j: int|
                                #[trigger] hidden_quad_at(g1, k, ci as int, i1 as int, i2 as int, i3 as int, d, j);
                            assert(hidden_quad_at(g1, k, ci as int, i1 as int, i2 as int, i3 as int, d, j));
                        }
                    }
                    if ch {
                        res = true;
                    }
                } else {
                    proof {
                        assert forall|d: int, j: int| true implies
                            !#[trigger] hidden_quad_at(g1, k, ci as int, i1 as int, i2 as int, i3 as int, d, j) by {}
                        assert forall|d: int| true implies #[trigger] quad_kept(g1, *self, k, ci as int, i1 as int, i2 as int, i3 as int, d) by {
                            assert(!is_quad(g1, k, ci as int, i1 as int, i2 as int, i3 as int, d));
                        }
                    }
                }
            } else {
                proof {
                    assert forall|d: int, j: int| true implies
                        !#[trigger] hidden_quad_at(g1, k, ci as int, i1 as int, i2 as int, i3 as int, d, j) by {}
                    assert forall|d: int| true implies #[trigger] quad_kept(g1, *self, k, ci as int, i1 as int, i2 as int, i3 as int, d) by {
                        assert(!is_quad(g1, k, ci as int, i1 as int, i2 as int, i3 as int, d));
                    }
                }
            }
            i3 += 1;
        }
        proof {
            assert forall|c: int, d: int, j: int| !(1 <= c <= 9) implies
                !#[trigger] hidden_quad_at(g1, k, ci as int, i1 as int, i2 as int, c, d, j) by {}
            assert forall|c: int, d: int| true implies #[trigger] quad_kept(g1, *self, k, ci as int, i1 as int, i2 as int, c, d) by {
                if !(c < i3) {
                    assert(!is_quad(g1, k, ci as int, i1 as int, i2 as int, c, d));
                }
            }
        }
        res
    }

    /// The hidden quads of unit `ci` (places taken in `g1`) whose first digits are `i1`, `i2`, `i3`.
    fn hidden_quad_3(&mut self, group: &Group, ci: usize, places: &[u16; 10], i1: usize, i2: usize, i3: usize, Ghost(g1): Ghost<Grid>) -> (res: bool)
        requires
            group.wf(),
            ci < 9,
            1 <= i1 <= 9,
            1 <= i2 <= 9,
            1 <= i3 <= 9,
            i1 != i2 && i3 != i1 && i3 != i2,
            forall|e: int| 1 <= e <= 9 ==> #[trigger] places[e] == crate::strategies::places(g1, group.kind, ci as int, e),
            forall|e: int| 0 <= e < 10 ==> #[trigger] places[e] < 512,
            quad_member(places[i1 as int]),
            quad_member(places[i2 as int]),
            quad_member(places[i3 as int]),
            popcount(places[i1 as int] | places[i2 as int]) <= 4,
            popcount(places[i1 as int] | places[i2 as int] | places[i3 as int]) <= 4,
            narrows(g1, *old(self)),
        ensures
            narrows(g1, *final(self)),
            narrows(*old(self), *final(self)),
            res == differs(*final(self), *old(self)),
            !res ==> *final(self) == *old(self),
            *old(self) == g1 ==> (res == exists|d: int, j: int|
                #[trigger] hidden_quad_at(g1, group.kind, ci as int, i1 as int, i2 as int, i3 as int, d, j)),
            forall|i: int, j: int| 0 <= i < 9 && i != ci && 0 <= j < 9 ==> #[trigger] final(self).unit_cell(group.kind, i, j)
                == old(self).unit_cell(group.kind, i, j),
            forall|d: int| #[trigger] quad_kept(g1, *final(self), group.kind, ci as int, i1 as int, i2 as int, i3 as int, d),
            forall|j: int| 0 <= j < 9 && #[trigger] final(self).unit_cell(group.kind, ci as int, j) != old(self).unit_cell(
                group.kind,
                ci as int,
                j,
            ) ==> on_quad(g1, group.kind, ci as int, j),
            forall|j: int, e: int|
                0 <= j < 9 && old(self).unit_cell(group.kind, ci as int, j).has(e) && in_all_quads(g1, group.kind, ci as int, j, e)
                    ==> #[trigger] final(self).unit_cell(group.kind, ci as int, j).has(e),
    {
        let ghost gs = *self;
        let ghost k = group.kind;
        proof {
            lemma_narrows_refl(gs);
        }
        let p123 = places[i1] | places[i2] | places[i3];
        let mut res = false;
        let mut i4: usize = 1;
        while i4 <= 9
            invariant
                1 <= i1 <= 9,
                1 <= i2 <= 9,
                1 <= i3 <= 9,
                i1 != i2 && i3 != i1 && i3 != i2,
                1 <= i4 <= 10,
                ci < 9,
                group.wf(),
                k == group.kind,
                forall|e: int| 1 <= e <= 9 ==> #[trigger] places[e] == crate::strategies::places(g1, k, ci as int, e),
                forall|e: int| 0 <= e < 10 ==> #[trigger] places[e] < 512,
                p123 == places[i1 as int] | places[i2 as int] | places[i3 as int],
                quad_member(places[i1 as int]),
                quad_member(places[i2 as int]),
                quad_member(places[i3 as int]),
                popcount(places[i1 as int] | places[i2 as int]) <= 4,
                popcount(p123) <= 4,
                narrows(g1, gs),
                narrows(g1, *self),
                narrows(gs, *self),
                res == differs(*self, gs),
                !res ==> *self == gs,
                gs == g1 && res ==> exists|d: int, j: int|
                    #[trigger] hidden_quad_at(g1, k, ci as int, i1 as int, i2 as int, i3 as int, d, j),
                gs == g1 && !res ==> forall|d: int, j: int|
                    d < i4 ==> !#[trigger] hidden_quad_at(g1, k, ci as int, i1 as int, i2 as int, i3 as int, d, j),
                forall|i: int, j: int| 0 <= i < 9 && i != ci && 0 <= j < 9 ==> #[trigger] self.unit_cell(k, i, j) == gs.unit_cell(k, i, j),
                forall|d: int| d < i4 ==> #[trigger] quad_kept(g1, *self, k, ci as int, i1 as int, i2 as int, i3 as int, d),
                forall|j: int, e: int|
                    0 <= j < 9 && gs.unit_cell(k, ci as int, j).has(e) && in_all_quads(g1, k, ci as int, j, e)
                        ==> #[trigger] self.unit_cell(k, ci as int, j).has(e),
                forall|j: int| 0 <= j < 9 && #[trigger] self.unit_cell(k, ci as int, j) != gs.unit_cell(k, ci as int, j)
                    ==> on_quad(g1, k, ci as int, j),
            decreases 10 - i4,
        {
            let ghost before = *self;
            if i1 != i4 && i2 != i4 && i3 != i4 {
                let p4 = places[i4];
                proof {
                    lemma_or_fits(places[i1 as int], places[i2 as int]);
                    lemma_or_fits(places[i1 as int] | places[i2 as int], places[i3 as int]);
                    lemma_or_fits(p123, p4);
                }
                let c4 = count(p4);
                let comb = p123 | p4;
                if c4 != 1 && c4 <= 4 && count(comb) == 4 {
                    let bits: u16 = 1u16 << i1 as u16 | 1u16 << i2 as u16 | 1u16 << i3 as u16 | 1u16 << i4 as u16;
                    proof {
                        assert(bits == four_bits(i1 as int, i2 as int, i3 as int, i4 as int));
                        lemma_hidden_quad_sound(g1, k, ci as int, i1 as int, i2 as int, i3 as int, i4 as int);
                        assert forall|s: spec_fn(int, int) -> int, j: int|
                            is_solution(s) && #[trigger] compatible(before, s) && 0 <= j < 9 && has_bit(comb, j)
                                implies has_bit(bits, #[trigger] sol_at(s, k, ci as int, j)) by {
                            crate::model::lemma_compatible_wider(before, g1, s);
                        }
                    }
                    let ch = self.keep_unit(group, ci, comb, bits);
                    proof {
                        assert(is_quad(g1, k, ci as int, i1 as int, i2 as int, i3 as int, i4 as int));
                        assert(comb == quad_places(g1, k, ci as int, i1 as int, i2 as int, i3 as int, i4 as int));
                        assert forall|j: int, e: int|
                            0 <= j < 9 && gs.unit_cell(k, ci as int, j).has(e) && in_all_quads(g1, k, ci as int, j, e)
                                implies #[trigger] self.unit_cell(k, ci as int, j).has(e) by {
                            assert(before.unit_cell(k, ci as int, j).has(e));
                            if has_bit(comb, j) {
                                assert(has_bit(four_bits(i1 as int, i2 as int, i3 as int, i4 as int), e));
                                crate::bits::lemma_bit_and(before.unit_cell(k, ci as int, j).0, bits, e);
                            }
                        }
                        assert forall|d: int| d < i4 + 1 implies #[trigger] quad_kept(g1, *self, k, ci as int, i1 as int, i2 as int, i3 as int, d) by {
                            if d < i4 {
                                lemma_kept_stays(g1, before, *self, k, ci as int, i1 as int, i2 as int, i3 as int, d);
                            }
                        }
                        assert forall|j: int| 0 <= j < 9 && #[trigger] self.unit_cell(k, ci as int, j) != gs.unit_cell(k, ci as int, j)
                            implies on_quad(g1, k, ci as int, j) by {
                            if self.unit_cell(k, ci as int, j) != before.unit_cell(k, ci as int, j) {
                                assert(has_bit(comb, j));
                                assert(is_quad(g1, k, ci as int, i1 as int, i2 as int, i3 as int, i4 as int) && has_bit(
                                    quad_places(g1, k, ci as int, i1 as int, i2 as int, i3 as int, i4 as int), j));
                            }
                        }
                        lemma_narrows_trans(g1, before, *self);
                        lemma_narrows_trans(gs, before, *self);
                        if res {
                            lemma_differs_stays(gs, before, *self);
                        } else if gs == g1 {
                            if ch {
                                let j = choose|j: int| 0 <= j < 9 && has_bit(comb, j)
                                    && #[trigger] g1.unit_cell(k, ci as int, j).0 & !bits != 0;
                                assert(hidden_quad_at(g1, k, ci as int, i1 as int, i2 as int, i3 as int, i4 as int, j));
                            } else {
                                assert forall|j: int| true implies
                                    !#[trigger] hidden_quad_at(g1, k, ci as int, i1 as int, i2 as int, i3 as int, i4 as int, j) by {
                                    if hidden_quad_at(g1, k, ci as int, i1 as int, i2 as int, i3 as int, i4 as int, j) {
                                        assert(g1.unit_cell(k, ci as int, j).0 & !bits != 0);
                                    }
                                }
                            }
                        }
                    }
                    if ch {
                        res = true;
                    }
                } else {
                    proof {
                        assert forall|j: int| true implies
                            !#[trigger] hidden_quad_at(g1, k, ci as int, i1 as int, i2 as int, i3 as int, i4 as int, j) by {}
                        assert(!is_quad(g1, k, ci as int, i1 as int, i2 as int, i3 as int, i4 as int));
                        assert(quad_kept(g1, *self, k, ci as int, i1 as int, i2 as int, i3 as int, i4 as int));
                    }
                }
            } else {
                proof {
                    assert forall|j: int| true implies
                        !#[trigger] hidden_quad_at(g1, k, ci as int, i1 as int, i2 as int, i3 as int, i4 as int, j) by {}
                    assert(!is_quad(g1, k, ci as int, i1 as int, i2 as int, i3 as int, i4 as int));
                    assert(quad_kept(g1, *self, k, ci as int, i1 as int, i2 as int, i3 as int, i4 as int));
                }
            }
            i4 += 1;
        }
        proof {
            assert forall|d: int, j: int| !(1 <= d <= 9) implies
                !#[trigger] hidden_quad_at(g1, k, ci as int, i1 as int, i2 as int, i3 as int, d, j) by {}
            assert forall|d: int| true implies #[trigger] quad_kept(g1, *self, k, ci as int, i1 as int, i2 as int, i3 as int, d) by {
                if !(d < i4) {
                    assert(!is_quad(g1, k, ci as int, i1 as int, i2 as int, i3 as int, d));
                }
            }
        }
        res
    }
}

} // verus!
