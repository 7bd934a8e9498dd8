//! Completed boards, and what it means for a grid step to keep every one of them.
use vstd::prelude::*;
use crate::bits::{subset, lemma_subset_bit, lemma_subset_trans, lemma_subset_strict_stays,
    lemma_subset_refl, lemma_subset_strict_below};
use crate::grid::{Grid, Kind, unit_row, unit_col, narrower, differs, same_cells, updated,
    lemma_same_grid};

verus! {

/// The digit that board `s` puts at the `j`-th cell of unit `i` of kind `k`.
pub open spec fn sol_at(s: spec_fn(int, int) -> int, k: Kind, i: int, j: int) -> int {
    s(unit_row(k, i, j), unit_col(k, i, j))
}

/// Board `s` puts digit `d` somewhere in unit `i` of kind `k`.
pub open spec fn unit_holds(s: spec_fn(int, int) -> int, k: Kind, i: int, d: int) -> bool {
    exists|j: int| 0 <= j < 9 && #[trigger] sol_at(s, k, i, j) == d
}

/// `s` is a completed sudoku: every cell holds a digit 1 to 9, and every box, column and
/// row holds each digit exactly once.
pub open spec fn is_solution(s: spec_fn(int, int) -> int) -> bool {
    &&& forall|r: int, c: int| 0 <= r < 9 && 0 <= c < 9 ==> 1 <= #[trigger] s(r, c) <= 9
    &&& forall|k: Kind, i: int, j1: int, j2: int|
        0 <= i < 9 && 0 <= j1 < 9 && 0 <= j2 < 9 && j1 != j2 ==> #[trigger] sol_at(s, k, i, j1)
            != #[trigger] sol_at(s, k, i, j2)
    &&& forall|k: Kind, i: int, d: int| 0 <= i < 9 && 1 <= d <= 9 ==> #[trigger] unit_holds(s, k, i, d)
}

/// Every digit of board `s` is still a candidate of its cell in `g`.
pub open spec fn compatible(g: Grid, s: spec_fn(int, int) -> int) -> bool {
    forall|r: int, c: int| 0 <= r < 9 && 0 <= c < 9 ==> (#[trigger] g.at(r, c)).has(s(r, c))
}

/// Every completed sudoku that fits `before` still fits `after`.
pub open spec fn sound(before: Grid, after: Grid) -> bool {
    forall|s: spec_fn(int, int) -> int|
        is_solution(s) && #[trigger] compatible(before, s) ==> compatible(after, s)
}

/// `after` comes from `before` by removing only candidates that no completed sudoku needs.
pub open spec fn narrows(before: Grid, after: Grid) -> bool {
    &&& narrower(after, before)
    &&& sound(before, after)
}

pub proof fn lemma_narrows_refl(a: Grid)
    ensures
        narrows(a, a),
{
    crate::grid::lemma_narrower_refl(a);
}

pub proof fn lemma_narrows_trans(a: Grid, b: Grid, c: Grid)
    requires
        narrows(a, b),
        narrows(b, c),
    ensures
        narrows(a, c),
{
    assert forall|r: int, col: int| 0 <= r < 9 && 0 <= col < 9 implies (#[trigger] c.at(
        r,
        col,
    )).within(a.at(r, col)) by {
        assert(c.at(r, col).within(b.at(r, col)));
        assert(b.at(r, col).within(a.at(r, col)));
        lemma_subset_trans(c.at(r, col).0, b.at(r, col).0, a.at(r, col).0);
    }
    assert forall|s: spec_fn(int, int) -> int| is_solution(s) && #[trigger] compatible(a, s) implies compatible(c, s) by {
        assert(compatible(b, s));
    }
}

/// A board that fits a narrower grid fits the wider one.
pub proof fn lemma_compatible_wider(a: Grid, b: Grid, s: spec_fn(int, int) -> int)
    requires
        narrower(a, b),
        compatible(a, s),
    ensures
        compatible(b, s),
{
    assert forall|r: int, c: int| 0 <= r < 9 && 0 <= c < 9 implies (#[trigger] b.at(r, c)).has(
        s(r, c),
    ) by {
        assert(a.at(r, c).has(s(r, c)));
        lemma_subset_bit(a.at(r, c).0, b.at(r, c).0, s(r, c));
    }
}

/// A narrowing that changed some cell cannot be undone by further narrowing.
pub proof fn lemma_differs_stays(a: Grid, b: Grid, c: Grid)
    requires
        narrower(b, a),
        narrower(c, b),
        differs(b, a),
    ensures
        differs(c, a),
{
    let (r, col) = choose|r: int, col: int|
        0 <= r < 9 && 0 <= col < 9 && #[trigger] b.at(r, col) != a.at(r, col);
    assert(c.at(r, col).within(b.at(r, col)));
    assert(b.at(r, col).within(a.at(r, col)));
    lemma_subset_strict_stays(c.at(r, col).0, b.at(r, col).0, a.at(r, col).0);
    assert(c.at(r, col) != a.at(r, col));
}

/// One cell update that keeps every completed sudoku fitting the grid.
pub proof fn lemma_narrow_step(g0: Grid, before: Grid, after: Grid, r: int, c: int)
    requires
        0 <= r < 9,
        0 <= c < 9,
        narrows(g0, before),
        updated(before, after, r, c, after.at(r, c)),
        after.at(r, c).within(before.at(r, c)),
        forall|s: spec_fn(int, int) -> int|
            is_solution(s) && #[trigger] compatible(before, s) ==> after.at(r, c).has(s(r, c)),
    ensures
        narrows(g0, after),
        narrows(before, after),
        differs(before, g0) ==> differs(after, g0),
        after.at(r, c) != before.at(r, c) ==> differs(after, g0),
        after.at(r, c) == before.at(r, c) ==> after == before,
{
    assert forall|r2: int, c2: int| 0 <= r2 < 9 && 0 <= c2 < 9 implies (#[trigger] after.at(
        r2,
        c2,
    )).within(before.at(r2, c2)) by {
        if r2 == r && c2 == c {
        } else {
            lemma_subset_refl(before.at(r2, c2).0);
        }
    }
    assert(narrower(after, before));
    assert forall|s: spec_fn(int, int) -> int| is_solution(s) && #[trigger] compatible(before, s) implies compatible(after, s) by {
        assert forall|r2: int, c2: int| 0 <= r2 < 9 && 0 <= c2 < 9 implies (#[trigger] after.at(
            r2,
            c2,
        )).has(s(r2, c2)) by {
            if r2 == r && c2 == c {
            } else {
                assert(before.at(r2, c2).has(s(r2, c2)));
            }
        }
    }
    assert(narrows(before, after));
    lemma_narrows_trans(g0, before, after);
    if differs(before, g0) {
        lemma_differs_stays(g0, before, after);
    }
    if after.at(r, c) != before.at(r, c) {
        assert(differs(after, before));
        assert(before.at(r, c).within(g0.at(r, c)));
        lemma_subset_strict_below(after.at(r, c).0, before.at(r, c).0, g0.at(r, c).0);
        assert(after.at(r, c) != g0.at(r, c));
    }
    if after.at(r, c) == before.at(r, c) {
        assert(same_cells(after, before));
        lemma_same_grid(after, before);
    }
}

/// The number of candidates of the first `n` cells in row-major order.
pub open spec fn total_upto(g: Grid, n: int) -> nat
    decreases n,
{
    if n <= 0 {
        0
    } else {
        total_upto(g, n - 1) + g.at((n - 1) / 9, (n - 1) % 9).size()
    }
}

/// The number of candidates left in the whole grid.
pub open spec fn total(g: Grid) -> nat {
    total_upto(g, 81)
}

proof fn lemma_total_upto_mono(a: Grid, b: Grid, n: int)
    requires
        narrower(a, b),
        0 <= n <= 81,
    ensures
        total_upto(a, n) <= total_upto(b, n),
        (exists|t: int| 0 <= t < n && #[trigger] a.at(t / 9, t % 9) != b.at(t / 9, t % 9)) ==> total_upto(a, n) < total_upto(b, n),
    decreases n,
{
    if n > 0 {
        lemma_total_upto_mono(a, b, n - 1);
        let r = (n - 1) / 9;
        let c = (n - 1) % 9;
        assert(a.at(r, c).within(b.at(r, c)));
        crate::bits::lemma_popcount_mono(a.at(r, c).0, b.at(r, c).0);
        if exists|t: int| 0 <= t < n && #[trigger] a.at(t / 9, t % 9) != b.at(t / 9, t % 9) {
            let t = choose|t: int| 0 <= t < n && #[trigger] a.at(t / 9, t % 9) != b.at(t / 9, t % 9);
            if t == n - 1 {
                assert(a.at(r, c).0 != b.at(r, c).0);
            }
        }
    }
}

/// Narrowing never adds candidates, and a narrowing that changed a cell removes at least one.
pub proof fn lemma_total_mono(a: Grid, b: Grid)
    requires
        narrower(a, b),
    ensures
        total(a) <= total(b),
        differs(a, b) ==> total(a) < total(b),
{
    lemma_total_upto_mono(a, b, 81);
    if differs(a, b) {
        let (r, c) = choose|r: int, c: int| 0 <= r < 9 && 0 <= c < 9 && #[trigger] a.at(r, c) != b.at(r, c);
        let t = r * 9 + c;
        assert(t / 9 == r && t % 9 == c) by (nonlinear_arith)
            requires
                t == r * 9 + c,
                0 <= c < 9,
        ;
        assert(a.at(t / 9, t % 9) != b.at(t / 9, t % 9));
    }
}

} // verus!
