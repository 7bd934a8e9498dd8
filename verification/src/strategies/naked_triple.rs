//! Naked triple: three cells of a unit whose candidates lie within three digits remove those
//! digits from the rest of the unit.
use vstd::prelude::*;
use crate::bits::{has_bit, popcount, lemma_bit_single, lemma_bit_or, lemma_popcount_exhausted, lemma_or_fits,
    lemma_or_subset, lemma_subset_bit};
use crate::cell::Cell;
use crate::grid::{Grid, Group, Kind, differs, lemma_narrower_keeps};
use crate::model::{is_solution, compatible, narrows, sol_at, lemma_narrows_refl, lemma_narrows_trans,
    lemma_differs_stays};
use crate::strategies::pass::{cells_of, grid_is, same_fn, unit_fn, clear_fn, lemma_clear_same};

verus! {

/// The count filter of a naked triple member: not solved, at most three candidates.
pub open spec fn triple_member(c: Cell) -> bool {
    c.size() != 1 && c.size() <= 3
}

/// Cells `j1`, `j2`, `j3` of unit `i` together hold at most three candidates, which cell `j`
/// still shares.
pub open spec fn naked_triple_at(g: Grid, k: Kind, i: int, j1: int, j2: int, j3: int, j: int) -> bool {
    let c1 = g.unit_cell(k, i, j1);
    let c2 = g.unit_cell(k, i, j2);
    let c3 = g.unit_cell(k, i, j3);
    &&& j1 != j2 && j3 != j1 && j3 != j2
    &&& j != j1 && j != j2 && j != j3
    &&& triple_member(c1) && triple_member(c2) && triple_member(c3)
    &&& Cell(c1.0 | c2.0).size() <= 3
    &&& Cell(c1.0 | c2.0 | c3.0).size() <= 3
    &&& g.unit_cell(k, i, j).0 & (c1.0 | c2.0 | c3.0) != 0
}

/// A naked triple can remove a candidate in some unit of kind `k`.
pub open spec fn naked_triple_in(g: Grid, k: Kind) -> bool {
    exists|i: int, j1: int, j2: int, j3: int, j: int|
        0 <= i < 9 && 0 <= j1 < 9 && 0 <= j2 < 9 && 0 <= j3 < 9 && 0 <= j < 9
            && #[trigger] naked_triple_at(g, k, i, j1, j2, j3, j)
}

/// A naked triple can remove a candidate somewhere in the grid.
pub open spec fn naked_triple_applies(g: Grid) -> bool {
    naked_triple_in(g, Kind::Box) || naked_triple_in(g, Kind::Col) || naked_triple_in(g, Kind::Row)
}

/// Cells `j1` and `j2` of unit `ci` can start a naked triple: different cells, each with two or
/// three candidates, at most three together.
pub open spec fn nt_start(f: spec_fn(int, int) -> Cell, k: Kind, ci: int, j1: int, j2: int) -> bool {
    let c1 = unit_fn(f, k, ci, j1);
    let c2 = unit_fn(f, k, ci, j2);
    &&& j1 != j2
    &&& triple_member(c1)
    &&& triple_member(c2)
    &&& Cell(c1.0 | c2.0).size() <= 3
}

/// One step of the pass: if cells `j1`, `j2`, `j3` of unit `ci` hold at most three candidates
/// together, each two or three, those candidates leave the other cells of the unit.
pub open spec fn nt_step(f: spec_fn(int, int) -> Cell, k: Kind, ci: int, j1: int, j2: int, j3: int) -> spec_fn(int, int) -> Cell {
    let c3 = unit_fn(f, k, ci, j3);
    let m = unit_fn(f, k, ci, j1).0 | unit_fn(f, k, ci, j2).0 | c3.0;
    if nt_start(f, k, ci, j1, j2) && j3 != j1 && j3 != j2 && triple_member(c3) && Cell(m).size() <= 3 {
        clear_fn(f, k, ci, |x: int| x == j1 || x == j2 || x == j3, m)
    } else {
        f
    }
}

/// The steps for the first `n` third cells, with first cells `j1` and `j2`.
pub open spec fn nt_third(f: spec_fn(int, int) -> Cell, k: Kind, ci: int, j1: int, j2: int, n: int) -> spec_fn(int, int) -> Cell
    decreases n,
{
    if n <= 0 {
        f
    } else {
        nt_step(nt_third(f, k, ci, j1, j2, n - 1), k, ci, j1, j2, n - 1)
    }
}

/// The steps for the first `n` second cells, with first cell `j1`.
pub open spec fn nt_second(f: spec_fn(int, int) -> Cell, k: Kind, ci: int, j1: int, n: int) -> spec_fn(int, int) -> Cell
    decreases n,
{
    if n <= 0 {
        f
    } else {
        nt_third(nt_second(f, k, ci, j1, n - 1), k, ci, j1, n - 1, 9)
    }
}

/// The steps for the first `n` first cells of unit `ci`.
pub open spec fn nt_unit(f: spec_fn(int, int) -> Cell, k: Kind, ci: int, n: int) -> spec_fn(int, int) -> Cell
    decreases n,
{
    if n <= 0 {
        f
    } else {
        nt_second(nt_unit(f, k, ci, n - 1), k, ci, n - 1, 9)
    }
}

/// The pass over the first `n` units of kind `k`, in order.
pub open spec fn nt_pass(f: spec_fn(int, int) -> Cell, k: Kind, n: int) -> spec_fn(int, int) -> Cell
    decreases n,
{
    if n <= 0 {
        f
    } else {
        nt_unit(nt_pass(f, k, n - 1), k, n - 1, 9)
    }
}

/// What `naked_triple` makes of `g`: the pass over the boxes if a naked triple can act in a
/// box, else over the columns if it can act in a column, else over the rows.
pub open spec fn naked_triple_result(g: Grid) -> spec_fn(int, int) -> Cell {
    if naked_triple_in(g, Kind::Box) {
        nt_pass(cells_of(g), Kind::Box, 9)
    } else if naked_triple_in(g, Kind::Col) {
        nt_pass(cells_of(g), Kind::Col, 9)
    } else {
        nt_pass(cells_of(g), Kind::Row, 9)
    }
}

/// With no triple starting at `j1` and `j2`, the third-cell steps change nothing.
proof fn lemma_third_none(f: spec_fn(int, int) -> Cell, k: Kind, ci: int, j1: int, j2: int, n: int)
    requires
        !nt_start(f, k, ci, j1, j2),
    ensures
        nt_third(f, k, ci, j1, j2, n) == f,
    decreases n,
{
    if n > 0 {
        lemma_third_none(f, k, ci, j1, j2, n - 1);
    }
}

/// With a first cell that cannot be in a naked triple, its steps change nothing.
proof fn lemma_second_none(f: spec_fn(int, int) -> Cell, k: Kind, ci: int, j1: int, n: int)
    requires
        !triple_member(unit_fn(f, k, ci, j1)),
    ensures
        nt_second(f, k, ci, j1, n) == f,
    decreases n,
{
    if n > 0 {
        lemma_second_none(f, k, ci, j1, n - 1);
        lemma_third_none(f, k, ci, j1, n - 1, 9);
    }
}

pub proof fn lemma_three_bits(a: u16, b: u16, c: u16, i: int)
    requires
        a < 16,
        b < 16,
        c < 16,
    ensures
        has_bit((1u16 << a) | (1u16 << b) | (1u16 << c), i) == (i == a || i == b || i == c),
{
    lemma_bit_or((1u16 << a) | (1u16 << b), 1u16 << c, i);
    lemma_bit_or(1u16 << a, 1u16 << b, i);
    lemma_bit_single(a, i);
    lemma_bit_single(b, i);
    lemma_bit_single(c, i);
}

/// Cells `j1`, `j2`, `j3` of unit `i`: three different cells, none with exactly one candidate
/// and none with more than three, holding at most three digits together.
pub open spec fn three_cells_three_digits(g: Grid, k: Kind, i: int, j1: int, j2: int, j3: int) -> bool {
    &&& 0 <= i < 9 && 0 <= j1 < 9 && 0 <= j2 < 9 && 0 <= j3 < 9
    &&& j1 != j2 && j1 != j3 && j2 != j3
    &&& forall|j: int|
        (j == j1 || j == j2 || j == j3) ==> (#[trigger] g.unit_cell(k, i, j)).size() != 1 && g.unit_cell(k, i, j).size()
            <= 3
    &&& popcount(g.unit_cell(k, i, j1).0 | g.unit_cell(k, i, j2).0 | g.unit_cell(k, i, j3).0) <= 3
}

/// The digits of cells `j1`, `j2`, `j3` of unit `i`, together.
pub open spec fn three_cells_digits(g: Grid, k: Kind, i: int, j1: int, j2: int, j3: int) -> u16 {
    g.unit_cell(k, i, j1).0 | g.unit_cell(k, i, j2).0 | g.unit_cell(k, i, j3).0
}

/// Facts on masks: the union of three does not depend on their order, and a mask cleared of
/// `m` shares nothing with `m`, nor does a part of a mask that shares nothing with `m`.
proof fn lemma_triple_masks(a: u16, b: u16, c: u16, x: u16, y: u16, m: u16)
    by (bit_vector)
    ensures
        a | b | c == a | c | b,
        a | b | c == b | a | c,
        a | b | c == b | c | a,
        a | b | c == c | a | b,
        a | b | c == c | b | a,
        (x & !m) & m == 0,
        x & m == 0 ==> (x & !y) & m == 0,
{
}

/// A naked triple acts at cell `j` of unit `i` exactly when cells `j1`, `j2`, `j3` are three
/// different cells, none with exactly one candidate and none with more than three, holding at
/// most three digits together, and `j` is another cell of the unit with one of those digits.
pub proof fn lemma_naked_triple_cells(g: Grid, k: Kind, i: int, j1: int, j2: int, j3: int, j: int)
    requires
        0 <= i < 9,
        0 <= j1 < 9,
        0 <= j2 < 9,
        0 <= j3 < 9,
        0 <= j < 9,
    ensures
        naked_triple_at(g, k, i, j1, j2, j3, j) == (three_cells_three_digits(g, k, i, j1, j2, j3) && j != j1 && j != j2
            && j != j3 && g.unit_cell(k, i, j).0 & three_cells_digits(g, k, i, j1, j2, j3) != 0),
{
    let c1 = g.unit_cell(k, i, j1);
    let c2 = g.unit_cell(k, i, j2);
    let c3 = g.unit_cell(k, i, j3);
    crate::bits::lemma_or_subset(c1.0 | c2.0, c3.0);
    crate::bits::lemma_popcount_mono(c1.0 | c2.0, c1.0 | c2.0 | c3.0);
    if three_cells_three_digits(g, k, i, j1, j2, j3) {
        assert(c1.size() != 1 && c1.size() <= 3);
        assert(c2.size() != 1 && c2.size() <= 3);
        assert(c3.size() != 1 && c3.size() <= 3);
    }
}

/// Unit `i` of `f` agrees with unit `i` of `h`.
spec fn nt_agree(f: spec_fn(int, int) -> Cell, h: spec_fn(int, int) -> Cell, k: Kind, i: int) -> bool {
    forall|j: int| 0 <= j < 9 ==> #[trigger] unit_fn(f, k, i, j) == unit_fn(h, k, i, j)
}

/// No cell of unit `i` but `j1`, `j2`, `j3` has a digit of `m`.
spec fn nt_done(f: spec_fn(int, int) -> Cell, k: Kind, i: int, j1: int, j2: int, j3: int, m: u16) -> bool {
    forall|j: int| 0 <= j < 9 && j != j1 && j != j2 && j != j3 ==> #[trigger] unit_fn(f, k, i, j).0 & m == 0
}

/// In unit `i` of `g`, cells `j1`, `j2`, `j3` hold a naked triple and every other cell has more
/// than three candidates.
spec fn lone_triple(g: Grid, k: Kind, i: int, j1: int, j2: int, j3: int) -> bool {
    &&& three_cells_three_digits(g, k, i, j1, j2, j3)
    &&& forall|j: int| 0 <= j < 9 && j != j1 && j != j2 && j != j3 ==> (#[trigger] g.unit_cell(k, i, j)).size() > 3
}

/// One step of the pass keeps unit `i` as it was, or with the triple's digits gone from its
/// other cells; the step of the triple itself takes it there.
proof fn lemma_nt_step_lone(f: spec_fn(int, int) -> Cell, g: Grid, k: Kind, ci: int, i: int, a: int, b: int, c: int, j1: int, j2: int, j3: int)
    requires
        lone_triple(g, k, i, j1, j2, j3),
        0 <= ci < 9,
        0 <= a < 9 && 0 <= b < 9 && 0 <= c < 9,
        nt_agree(f, cells_of(g), k, i) || nt_done(f, k, i, j1, j2, j3, three_cells_digits(g, k, i, j1, j2, j3)),
    ensures
        nt_agree(nt_step(f, k, ci, a, b, c), cells_of(g), k, i) || nt_done(nt_step(f, k, ci, a, b, c), k, i, j1, j2, j3, three_cells_digits(g, k, i, j1, j2, j3)),
        nt_done(f, k, i, j1, j2, j3, three_cells_digits(g, k, i, j1, j2, j3)) ==> nt_done(nt_step(f, k, ci, a, b, c), k, i, j1, j2, j3, three_cells_digits(g, k, i, j1, j2, j3)),
        ci == i && a == j1 && b == j2 && c == j3 ==> nt_done(nt_step(f, k, ci, a, b, c), k, i, j1, j2, j3, three_cells_digits(g, k, i, j1, j2, j3)),
{
    let m = three_cells_digits(g, k, i, j1, j2, j3);
    let s = nt_step(f, k, ci, a, b, c);
    let fa = unit_fn(f, k, ci, a);
    let fb = unit_fn(f, k, ci, b);
    let fc = unit_fn(f, k, ci, c);
    let mm = fa.0 | fb.0 | fc.0;
    let keep = |x: int| x == a || x == b || x == c;
    let acts = nt_start(f, k, ci, a, b) && c != a && c != b && triple_member(fc) && Cell(mm).size() <= 3;
    assert forall|j: int| 0 <= j < 9 implies #[trigger] unit_fn(s, k, i, j) == (if acts && ci == i && !keep(j) {
        Cell(unit_fn(f, k, i, j).0 & !mm)
    } else {
        unit_fn(f, k, i, j)
    }) by {
        crate::strategies::pass::lemma_unit_coords(k, i, j);
    }
    assert forall|j: int| 0 <= j < 9 implies #[trigger] unit_fn(cells_of(g), k, i, j) == g.unit_cell(k, i, j) by {}
    if nt_done(f, k, i, j1, j2, j3, m) {
        assert forall|j: int| 0 <= j < 9 && j != j1 && j != j2 && j != j3 implies #[trigger] unit_fn(s, k, i, j).0 & m == 0 by {
            assert(unit_fn(f, k, i, j).0 & m == 0);
            lemma_triple_masks(0, 0, 0, unit_fn(f, k, i, j).0, mm, m);
        }
    }
    if acts && ci == i && nt_agree(f, cells_of(g), k, i) {
        let c1 = g.unit_cell(k, i, j1);
        let c2 = g.unit_cell(k, i, j2);
        let c3 = g.unit_cell(k, i, j3);
        assert(unit_fn(f, k, i, a) == g.unit_cell(k, i, a));
        assert(unit_fn(f, k, i, b) == g.unit_cell(k, i, b));
        assert(unit_fn(f, k, i, c) == g.unit_cell(k, i, c));
        assert(a == j1 || a == j2 || a == j3);
        assert(b == j1 || b == j2 || b == j3);
        assert(c == j1 || c == j2 || c == j3);
        lemma_triple_masks(c1.0, c2.0, c3.0, 0, 0, 0);
        assert(mm == m);
        assert forall|j: int| 0 <= j < 9 && j != j1 && j != j2 && j != j3 implies #[trigger] unit_fn(s, k, i, j).0 & m == 0 by {
            lemma_triple_masks(0, 0, 0, unit_fn(f, k, i, j).0, 0, m);
        }
    }
    if ci == i && a == j1 && b == j2 && c == j3 && nt_agree(f, cells_of(g), k, i) {
        let c1 = g.unit_cell(k, i, j1);
        let c2 = g.unit_cell(k, i, j2);
        let c3 = g.unit_cell(k, i, j3);
        assert(unit_fn(f, k, i, j1) == c1);
        assert(unit_fn(f, k, i, j2) == c2);
        assert(unit_fn(f, k, i, j3) == c3);
        assert(c1.size() != 1 && c1.size() <= 3);
        assert(c2.size() != 1 && c2.size() <= 3);
        assert(c3.size() != 1 && c3.size() <= 3);
        crate::bits::lemma_or_subset(c1.0 | c2.0, c3.0);
        crate::bits::lemma_popcount_mono(c1.0 | c2.0, c1.0 | c2.0 | c3.0);
        assert(acts);
    }
}

proof fn lemma_nt_third_lone(f: spec_fn(int, int) -> Cell, g: Grid, k: Kind, ci: int, i: int, a: int, b: int, n: int, j1: int, j2: int, j3: int)
    requires
        lone_triple(g, k, i, j1, j2, j3),
        0 <= ci < 9,
        0 <= a < 9 && 0 <= b < 9 && n <= 9,
        nt_agree(f, cells_of(g), k, i) || nt_done(f, k, i, j1, j2, j3, three_cells_digits(g, k, i, j1, j2, j3)),
    ensures
        nt_agree(nt_third(f, k, ci, a, b, n), cells_of(g), k, i) || nt_done(nt_third(f, k, ci, a, b, n), k, i, j1, j2, j3, three_cells_digits(g, k, i, j1, j2, j3)),
        nt_done(f, k, i, j1, j2, j3, three_cells_digits(g, k, i, j1, j2, j3)) ==> nt_done(nt_third(f, k, ci, a, b, n), k, i, j1, j2, j3, three_cells_digits(g, k, i, j1, j2, j3)),
        ci == i && a == j1 && b == j2 && n > j3 ==> nt_done(nt_third(f, k, ci, a, b, n), k, i, j1, j2, j3, three_cells_digits(g, k, i, j1, j2, j3)),
    decreases n,
{
    if n > 0 {
        lemma_nt_third_lone(f, g, k, ci, i, a, b, n - 1, j1, j2, j3);
        lemma_nt_step_lone(nt_third(f, k, ci, a, b, n - 1), g, k, ci, i, a, b, n - 1, j1, j2, j3);
    }
}

proof fn lemma_nt_second_lone(f: spec_fn(int, int) -> Cell, g: Grid, k: Kind, ci: int, i: int, a: int, n: int, j1: int, j2: int, j3: int)
    requires
        lone_triple(g, k, i, j1, j2, j3),
        0 <= ci < 9,
        0 <= a < 9 && n <= 9,
        nt_agree(f, cells_of(g), k, i) || nt_done(f, k, i, j1, j2, j3, three_cells_digits(g, k, i, j1, j2, j3)),
    ensures
        nt_agree(nt_second(f, k, ci, a, n), cells_of(g), k, i) || nt_done(nt_second(f, k, ci, a, n), k, i, j1, j2, j3, three_cells_digits(g, k, i, j1, j2, j3)),
        nt_done(f, k, i, j1, j2, j3, three_cells_digits(g, k, i, j1, j2, j3)) ==> nt_done(nt_second(f, k, ci, a, n), k, i, j1, j2, j3, three_cells_digits(g, k, i, j1, j2, j3)),
        ci == i && a == j1 && n > j2 ==> nt_done(nt_second(f, k, ci, a, n), k, i, j1, j2, j3, three_cells_digits(g, k, i, j1, j2, j3)),
    decreases n,
{
    if n > 0 {
        lemma_nt_second_lone(f, g, k, ci, i, a, n - 1, j1, j2, j3);
        lemma_nt_third_lone(nt_second(f, k, ci, a, n - 1), g, k, ci, i, a, n - 1, 9, j1, j2, j3);
    }
}

proof fn lemma_nt_unit_lone(f: spec_fn(int, int) -> Cell, g: Grid, k: Kind, ci: int, i: int, n: int, j1: int, j2: int, j3: int)
    requires
        lone_triple(g, k, i, j1, j2, j3),
        0 <= ci < 9,
        n <= 9,
        nt_agree(f, cells_of(g), k, i) || nt_done(f, k, i, j1, j2, j3, three_cells_digits(g, k, i, j1, j2, j3)),
    ensures
        nt_agree(nt_unit(f, k, ci, n), cells_of(g), k, i) || nt_done(nt_unit(f, k, ci, n), k, i, j1, j2, j3, three_cells_digits(g, k, i, j1, j2, j3)),
        nt_done(f, k, i, j1, j2, j3, three_cells_digits(g, k, i, j1, j2, j3)) ==> nt_done(nt_unit(f, k, ci, n), k, i, j1, j2, j3, three_cells_digits(g, k, i, j1, j2, j3)),
        ci == i && n > j1 ==> nt_done(nt_unit(f, k, ci, n), k, i, j1, j2, j3, three_cells_digits(g, k, i, j1, j2, j3)),
    decreases n,
{
    if n > 0 {
        lemma_nt_unit_lone(f, g, k, ci, i, n - 1, j1, j2, j3);
        lemma_nt_second_lone(nt_unit(f, k, ci, n - 1), g, k, ci, i, n - 1, 9, j1, j2, j3);
    }
}

proof fn lemma_nt_pass_lone(g: Grid, k: Kind, i: int, n: int, j1: int, j2: int, j3: int)
    requires
        lone_triple(g, k, i, j1, j2, j3),
        n <= 9,
    ensures
        nt_agree(nt_pass(cells_of(g), k, n), cells_of(g), k, i) || nt_done(nt_pass(cells_of(g), k, n), k, i, j1, j2, j3, three_cells_digits(g, k, i, j1, j2, j3)),
        n > i ==> nt_done(nt_pass(cells_of(g), k, n), k, i, j1, j2, j3, three_cells_digits(g, k, i, j1, j2, j3)),
    decreases n,
{
    if n > 0 {
        lemma_nt_pass_lone(g, k, i, n - 1, j1, j2, j3);
        lemma_nt_unit_lone(nt_pass(cells_of(g), k, n - 1), g, k, n - 1, i, 9, j1, j2, j3);
    }
}

/// Three different cells of a unit, none with exactly one candidate and none with more than
/// three, holding at most three digits together, while every other cell of the unit has more
/// than three candidates and one of them has a digit of the three: when no naked triple acts
/// in a kind of unit taken before `k`, no other cell of the unit has any of those digits after
/// the pass.
pub proof fn lemma_naked_triple_clears(g: Grid, k: Kind, i: int, j1: int, j2: int, j3: int, j: int)
    requires
        three_cells_three_digits(g, k, i, j1, j2, j3),
        forall|x: int| 0 <= x < 9 && x != j1 && x != j2 && x != j3 ==> (#[trigger] g.unit_cell(k, i, x)).size() > 3,
        0 <= j < 9,
        j != j1 && j != j2 && j != j3,
        g.unit_cell(k, i, j).0 & three_cells_digits(g, k, i, j1, j2, j3) != 0,
        k != Kind::Box ==> !naked_triple_in(g, Kind::Box),
        k == Kind::Row ==> !naked_triple_in(g, Kind::Col),
    ensures
        forall|x: int|
            0 <= x < 9 && x != j1 && x != j2 && x != j3 ==> #[trigger] unit_fn(naked_triple_result(g), k, i, x).0
                & three_cells_digits(g, k, i, j1, j2, j3) == 0,
{
    lemma_naked_triple_cells(g, k, i, j1, j2, j3, j);
    assert(naked_triple_in(g, k));
    lemma_nt_pass_lone(g, k, i, 9, j1, j2, j3);
}

impl Grid {
    /// naked_triple looks in each unit for three cells whose candidates, taken together, are at
    /// most three digits; those digits are removed from the other cells of the unit. Boxes,
    /// then columns, then rows; it stops after the first kind of unit where it changed
    /// something. Returns true if it changed any cell.
    pub fn naked_triple(&mut self) -> (res: bool)
        requires
            old(self).fits(),
        ensures
            narrows(*old(self), *final(self)),
            res == differs(*final(self), *old(self)),
            res == naked_triple_applies(*old(self)),
            grid_is(*final(self), naked_triple_result(*old(self))),
    {
        if self.naked_triple_group(&Group::new(Kind::Box)) {
            return true;
        }
        if self.naked_triple_group(&Group::new(Kind::Col)) {
            return true;
        }
        self.naked_triple_group(&Group::new(Kind::Row))
    }

    pub fn naked_triple_group(&mut self, group: &Group) -> (res: bool)
        requires
            old(self).fits(),
            group.wf(),
        ensures
            narrows(*old(self), *final(self)),
            res == differs(*final(self), *old(self)),
            res == naked_triple_in(*old(self), group.kind),
            !res ==> *final(self) == *old(self),
            grid_is(*final(self), nt_pass(cells_of(*old(self)), group.kind, 9)),
    {
        let ghost g0 = *self;
        let ghost k = group.kind;
        let mut res = false;
        proof {
            lemma_narrows_refl(g0);
        }
        let mut ci: usize = 0;
        while ci < 9
            invariant
                ci <= 9,
                group.wf(),
                k == group.kind,
                g0.fits(),
                narrows(g0, *self),
                res == differs(*self, g0),
                !res ==> *self == g0,
                res ==> naked_triple_in(g0, k),
                !res ==> forall|i: int, a: int, b: int, c: int, d: int|
                    0 <= i < ci && 0 <= a < 9 && 0 <= b < 9 && 0 <= c < 9 && 0 <= d < 9
                        ==> !#[trigger] naked_triple_at(g0, k, i, a, b, c, d),
                grid_is(*self, nt_pass(cells_of(g0), k, ci as int)),
            decreases 9 - ci,
        {
            let mut j1: usize = 0;
            while j1 < 9
                invariant
                    ci < 9,
                    j1 <= 9,
                    group.wf(),
                    k == group.kind,
                    g0.fits(),
                    narrows(g0, *self),
                    res == differs(*self, g0),
                    !res ==> *self == g0,
                    res ==> naked_triple_in(g0, k),
                    !res ==> forall|i: int, a: int, b: int, c: int, d: int|
                        0 <= i < ci && 0 <= a < 9 && 0 <= b < 9 && 0 <= c < 9 && 0 <= d < 9
                            ==> !#[trigger] naked_triple_at(g0, k, i, a, b, c, d),
                    !res ==> forall|a: int, b: int, c: int, d: int|
                        0 <= a < j1 && 0 <= b < 9 && 0 <= c < 9 && 0 <= d < 9
                            ==> !#[trigger] naked_triple_at(g0, k, ci as int, a, b, c, d),
                    grid_is(*self, nt_unit(nt_pass(cells_of(g0), k, ci as int), k, ci as int, j1 as int)),
                decreases 9 - j1,
            {
                proof {
                    lemma_narrower_keeps(*self, g0);
                }
                let ghost before = *self;
                let ch = self.naked_triple_from(group, ci, j1, Ghost(nt_unit(nt_pass(cells_of(g0), k, ci as int), k, ci as int, j1 as int)));
                proof {
                    lemma_narrows_trans(g0, before, *self);
                    if res {
                        lemma_differs_stays(g0, before, *self);
                    }
                }
                if ch {
                    res = true;
                }
                j1 += 1;
            }
            ci += 1;
        }
        res
    }

    /// The naked triples of unit `ci` whose first cell is `j1`.
    fn naked_triple_from(&mut self, group: &Group, ci: usize, j1: usize, Ghost(f0): Ghost<spec_fn(int, int) -> Cell>) -> (res: bool)
        requires
            old(self).fits(),
            group.wf(),
            ci < 9,
            j1 < 9,
            grid_is(*old(self), f0),
        ensures
            grid_is(*final(self), nt_second(f0, group.kind, ci as int, j1 as int, 9)),
            narrows(*old(self), *final(self)),
            res == differs(*final(self), *old(self)),
            !res ==> *final(self) == *old(self),
            res ==> exists|b: int, c: int, d: int|
                0 <= b < 9 && 0 <= c < 9 && 0 <= d < 9
                    && #[trigger] naked_triple_at(*old(self), group.kind, ci as int, j1 as int, b, c, d),
            !res ==> forall|b: int, c: int, d: int|
                0 <= b < 9 && 0 <= c < 9 && 0 <= d < 9
                    ==> !#[trigger] naked_triple_at(*old(self), group.kind, ci as int, j1 as int, b, c, d),
    {
        let ghost g0 = *self;
        let ghost k = group.kind;
        proof {
            lemma_narrows_refl(g0);
        }
        let p1 = group.cells[ci][j1];
        let cell1 = self.get(p1);
        proof {
            assert(self.at(p1.0 as int, p1.1 as int).fits());
        }
        let count1 = cell1.count();
        proof {
            crate::grid::lemma_unit_in_range(group.kind, ci as int, j1 as int);
            assert(cell1 == unit_fn(f0, group.kind, ci as int, j1 as int));
        }
        if count1 == 1 || count1 > 3 {
            proof {
                lemma_second_none(f0, group.kind, ci as int, j1 as int, 9);
            }
            return false;
        }
        let mut res = false;
        let mut j2: usize = 0;
        while j2 < 9
            invariant
                ci < 9,
                j1 < 9,
                j2 <= 9,
                group.wf(),
                k == group.kind,
                g0.fits(),
                cell1 == g0.unit_cell(k, ci as int, j1 as int),
                triple_member(cell1),
                cell1 == self.unit_cell(k, ci as int, j1 as int),
                narrows(g0, *self),
                res == differs(*self, g0),
                !res ==> *self == g0,
                res ==> exists|b: int, c: int, d: int|
                    0 <= b < 9 && 0 <= c < 9 && 0 <= d < 9
                        && #[trigger] naked_triple_at(g0, k, ci as int, j1 as int, b, c, d),
                !res ==> forall|b: int, c: int, d: int|
                    0 <= b < j2 && 0 <= c < 9 && 0 <= d < 9
                        ==> !#[trigger] naked_triple_at(g0, k, ci as int, j1 as int, b, c, d),
                grid_is(*self, nt_second(f0, k, ci as int, j1 as int, j2 as int)),
                cell1 == unit_fn(f0, k, ci as int, j1 as int),
            decreases 9 - j2,
        {
            proof {
                lemma_narrower_keeps(*self, g0);
            }
            if j1 != j2 {
                let p2 = group.cells[ci][j2];
                let cell2 = self.get(p2);
                proof {
                    assert(self.at(p2.0 as int, p2.1 as int).fits());
                    lemma_or_fits(cell1.0, cell2.0);
                }
                let count2 = cell2.count();
                let ghost fs = nt_second(f0, k, ci as int, j1 as int, j2 as int);
                proof {
                    crate::grid::lemma_unit_in_range(k, ci as int, j2 as int);
                    assert(cell2 == unit_fn(fs, k, ci as int, j2 as int));
                    assert(cell1 == unit_fn(fs, k, ci as int, j1 as int));
                }
                if count2 != 1 && count2 <= 3 && (cell1 | cell2).count() <= 3 {
                    let ghost before = *self;
                    let ch = self.naked_triple_with(group, ci, j1, j2, cell1, cell2, Ghost(fs));
                    proof {
                        lemma_narrows_trans(g0, before, *self);
                        if res {
                            lemma_differs_stays(g0, before, *self);
                        }
                    }
                    if ch {
                        res = true;
                    }
                } else {
                    proof {
                        lemma_third_none(fs, k, ci as int, j1 as int, j2 as int, 9);
                    }
                }
            } else {
                proof {
                    lemma_third_none(nt_second(f0, k, ci as int, j1 as int, j2 as int), k, ci as int, j1 as int, j2 as int, 9);
                }
            }
            j2 += 1;
        }
        res
    }

    /// The naked triples of unit `ci` whose first two cells are `j1` and `j2`.
    #[verifier::spinoff_prover]
    #[verifier::rlimit(100)]
    fn naked_triple_with(&mut self, group: &Group, ci: usize, j1: usize, j2: usize, cell1: Cell, cell2: Cell, Ghost(f0): Ghost<spec_fn(int, int) -> Cell>) -> (res: bool)
        requires
            grid_is(*old(self), f0),
            old(self).fits(),
            group.wf(),
            ci < 9,
            j1 < 9,
            j2 < 9,
            j1 != j2,
            cell1 == old(self).unit_cell(group.kind, ci as int, j1 as int),
            cell2 == old(self).unit_cell(group.kind, ci as int, j2 as int),
            triple_member(cell1),
            triple_member(cell2),
            Cell(cell1.0 | cell2.0).size() <= 3,
        ensures
            narrows(*old(self), *final(self)),
            res == differs(*final(self), *old(self)),
            !res ==> *final(self) == *old(self),
            res ==> exists|c: int, d: int|
                0 <= c < 9 && 0 <= d < 9
                    && #[trigger] naked_triple_at(*old(self), group.kind, ci as int, j1 as int, j2 as int, c, d),
            !res ==> forall|c: int, d: int|
                0 <= c < 9 && 0 <= d < 9
                    ==> !#[trigger] naked_triple_at(*old(self), group.kind, ci as int, j1 as int, j2 as int, c, d),
            final(self).unit_cell(group.kind, ci as int, j1 as int) == cell1,
            final(self).unit_cell(group.kind, ci as int, j2 as int) == cell2,
            grid_is(*final(self), nt_third(f0, group.kind, ci as int, j1 as int, j2 as int, 9)),
    {
        let ghost g0 = *self;
        let ghost k = group.kind;
        proof {
            lemma_narrows_refl(g0);
        }
        let mut res = false;
        let mut j3: usize = 0;
        while j3 < 9
            invariant
                ci < 9,
                j1 < 9,
                j2 < 9,
                j1 != j2,
                j3 <= 9,
                group.wf(),
                k == group.kind,
                g0.fits(),
                cell1 == g0.unit_cell(k, ci as int, j1 as int),
                cell2 == g0.unit_cell(k, ci as int, j2 as int),
                triple_member(cell1),
                triple_member(cell2),
                Cell(cell1.0 | cell2.0).size() <= 3,
                cell1 == self.unit_cell(k, ci as int, j1 as int),
                cell2 == self.unit_cell(k, ci as int, j2 as int),
                narrows(g0, *self),
                res == differs(*self, g0),
                !res ==> *self == g0,
                res ==> exists|c: int, d: int|
                    0 <= c < 9 && 0 <= d < 9
                        && #[trigger] naked_triple_at(g0, k, ci as int, j1 as int, j2 as int, c, d),
                !res ==> forall|c: int, d: int|
                    0 <= c < j3 && 0 <= d < 9
                        ==> !#[trigger] naked_triple_at(g0, k, ci as int, j1 as int, j2 as int, c, d),
                grid_is(*self, nt_third(f0, k, ci as int, j1 as int, j2 as int, j3 as int)),
            decreases 9 - j3,
        {
            proof {
                lemma_narrower_keeps(*self, g0);
            }
            if j3 != j1 && j3 != j2 {
                let p3 = group.cells[ci][j3];
                let cell3 = self.get(p3);
                proof {
                    assert(self.at(p3.0 as int, p3.1 as int).fits());
                    lemma_or_fits(cell1.0, cell2.0);
                    lemma_or_fits(cell1.0 | cell2.0, cell3.0);
                }
                let count3 = cell3.count();
                let ghost ft = nt_third(f0, k, ci as int, j1 as int, j2 as int, j3 as int);
                proof {
                    crate::grid::lemma_unit_in_range(k, ci as int, j1 as int);
                    crate::grid::lemma_unit_in_range(k, ci as int, j2 as int);
                    crate::grid::lemma_unit_in_range(k, ci as int, j3 as int);
                    assert(cell1 == unit_fn(ft, k, ci as int, j1 as int));
                    assert(cell2 == unit_fn(ft, k, ci as int, j2 as int));
                    assert(cell3 == unit_fn(ft, k, ci as int, j3 as int));
                    assert(nt_start(ft, k, ci as int, j1 as int, j2 as int));
                }
                if count3 != 1 && count3 <= 3 {
                    let comb = cell1 | cell2 | cell3;
                    if comb.count() <= 3 {
                        let keep = (1u16 << j1 as u16) | (1u16 << j2 as u16) | (1u16 << j3 as u16);
                        let ghost before = *self;
                        proof {
                            assert forall|s: spec_fn(int, int) -> int, j: int|
                                is_solution(s) && #[trigger] compatible(before, s) && 0 <= j < 9
                                    && !has_bit(keep, j) implies !has_bit(
                                comb.0,
                                #[trigger] sol_at(s, k, ci as int, j),
                            ) by {
                                lemma_three_bits(j1 as u16, j2 as u16, j3 as u16, j);
                                let v1 = sol_at(s, k, ci as int, j1 as int);
                                let v2 = sol_at(s, k, ci as int, j2 as int);
                                let v3 = sol_at(s, k, ci as int, j3 as int);
                                assert(before.unit_cell(k, ci as int, j1 as int).has(v1));
                                assert(before.unit_cell(k, ci as int, j2 as int).has(v2));
                                assert(before.unit_cell(k, ci as int, j3 as int).has(v3));
                                lemma_or_subset(cell1.0, cell2.0);
                                lemma_or_subset(cell1.0 | cell2.0, cell3.0);
                                crate::bits::lemma_subset_trans(cell1.0, cell1.0 | cell2.0, comb.0);
                                crate::bits::lemma_subset_trans(cell2.0, cell1.0 | cell2.0, comb.0);
                                lemma_subset_bit(cell1.0, comb.0, v1);
                                lemma_subset_bit(cell2.0, comb.0, v2);
                                lemma_subset_bit(cell3.0, comb.0, v3);
                                if has_bit(comb.0, sol_at(s, k, ci as int, j)) {
                                    lemma_popcount_exhausted(comb.0, set![v1, v2, v3], sol_at(s, k, ci as int, j));
                                }
                            }
                        }
                        let ch = self.clear_unit(group, ci, keep, comb.0);
                        proof {
                            assert forall|x: int| 0 <= x < 9 implies #[trigger] has_bit(keep, x) == (x == j1 || x == j2 || x == j3) by {
                                lemma_three_bits(j1 as u16, j2 as u16, j3 as u16, x);
                            }
                            assert(comb.0 == cell1.0 | cell2.0 | cell3.0);
                            assert(same_fn(cells_of(before), ft));
                            lemma_clear_same(cells_of(before), ft, k, ci as int, |x: int| has_bit(keep, x), |x: int| x == j1 || x == j2 || x == j3, comb.0);
                            assert(grid_is(*self, nt_third(f0, k, ci as int, j1 as int, j2 as int, j3 + 1)));
                        }
                        proof {
                            lemma_three_bits(j1 as u16, j2 as u16, j3 as u16, j1 as int);
                            lemma_three_bits(j1 as u16, j2 as u16, j3 as u16, j2 as int);
                            lemma_narrows_trans(g0, before, *self);
                            if res {
                                lemma_differs_stays(g0, before, *self);
                            }
                            if !res {
                                if ch {
                                    let d = choose|d: int| 0 <= d < 9 && !has_bit(keep, d)
                                        && #[trigger] g0.unit_cell(k, ci as int, d).0 & comb.0 != 0;
                                    lemma_three_bits(j1 as u16, j2 as u16, j3 as u16, d);
                                    assert(naked_triple_at(g0, k, ci as int, j1 as int, j2 as int, j3 as int, d));
                                } else {
                                    assert forall|d: int| 0 <= d < 9 implies
                                        !#[trigger] naked_triple_at(g0, k, ci as int, j1 as int, j2 as int, j3 as int, d) by {
                                        lemma_three_bits(j1 as u16, j2 as u16, j3 as u16, d);
                                    }
                                }
                            }
                        }
                        if ch {
                            res = true;
                        }
                    }
                }
            }
            j3 += 1;
        }
        res
    }
}

} // verus!
