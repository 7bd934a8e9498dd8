//! A solved grid stands for exactly one completed sudoku.
use vstd::prelude::*;
use vstd::set_lib::{set_int_range, lemma_int_range, lemma_map_size, lemma_subset_equality};
use crate::bits::{has_bit, lemma_bit_high, lemma_bit_zero, lemma_bits_ext};
use crate::cell::Cell;
use crate::grid::{Grid, Kind, digit_count, solved_spec, unit_solved, unit_row, unit_col, lemma_unit_in_range};
use crate::model::{is_solution, compatible, sol_at, unit_holds};
use crate::search::{has_solution, covers, found_in, lemma_digits_only_size};
use crate::grid::{differs, narrower};
use crate::cell::ALL;

verus! {

/// Some digit that the cell still has.
pub open spec fn some_digit(c: Cell) -> int {
    choose|d: int| 1 <= d <= 9 && c.has(d)
}

/// The board that puts in each cell of `g` some digit it still has.
pub open spec fn board_of(g: Grid) -> spec_fn(int, int) -> int {
    |r: int, c: int| some_digit(g.at(r, c))
}

/// Exactly one completed sudoku fits `g`: one fits, and any two that fit agree on every cell.
pub open spec fn unique_solution(g: Grid) -> bool {
    &&& has_solution(g)
    &&& forall|s1: spec_fn(int, int) -> int, s2: spec_fn(int, int) -> int|
        is_solution(s1) && #[trigger] compatible(g, s1) && is_solution(s2) && #[trigger] compatible(g, s2) ==> same_board(s1, s2)
}

/// Two boards put the same digit in every cell.
pub open spec fn same_board(s1: spec_fn(int, int) -> int, s2: spec_fn(int, int) -> int) -> bool {
    forall|r: int, c: int| 0 <= r < 9 && 0 <= c < 9 ==> #[trigger] s1(r, c) == s2(r, c)
}

/// Every cell holds only digit bits.
pub open spec fn digit_cells(g: Grid) -> bool {
    forall|r: int, c: int| 0 <= r < 9 && 0 <= c < 9 ==> (#[trigger] g.at(r, c)).digits_only()
}

/// A nonempty cell with only digit bits has some digit.
proof fn lemma_has_digit(c: Cell)
    requires
        c.digits_only(),
        c.0 != 0,
    ensures
        exists|d: int| 1 <= d <= 9 && c.has(d),
{
    lemma_digits_only_size(c);
    if forall|d: int| 1 <= d <= 9 ==> !c.has(d) {
        assert forall|i: int| 0 <= i < 16 implies #[trigger] has_bit(c.0, i) == has_bit(0u16, i) by {
            lemma_bit_zero(i);
            if 1 <= i <= 9 {
                assert(!c.has(i));
            }
            if 10 <= i {
                lemma_bit_high(c.0, i);
            }
        }
        lemma_bits_ext(c.0, 0u16);
    }
}

/// Some cell of unit `i` of kind `k` has digit `d`.
pub open spec fn present(g: Grid, k: Kind, i: int, d: int) -> bool {
    exists|j: int| 0 <= j < 9 && #[trigger] g.unit_cell(k, i, j).has(d)
}

/// Two cells of a unit with the same digit count it twice.
proof fn lemma_count_two(g: Grid, k: Kind, i: int, d: int, j1: int, j2: int, n: int)
    requires
        0 <= j1 < j2 < n,
        g.unit_cell(k, i, j1).has(d),
        g.unit_cell(k, i, j2).has(d),
    ensures
        digit_count(g, k, i, d, n) >= 2,
    decreases n,
{
    if j2 < n - 1 {
        lemma_count_two(g, k, i, d, j1, j2, n - 1);
    } else {
        lemma_count_one(g, k, i, d, j1, n - 1);
    }
}

proof fn lemma_count_one(g: Grid, k: Kind, i: int, d: int, j: int, n: int)
    requires
        0 <= j < n,
        g.unit_cell(k, i, j).has(d),
    ensures
        digit_count(g, k, i, d, n) >= 1,
    decreases n,
{
    if j < n - 1 {
        lemma_count_one(g, k, i, d, j, n - 1);
    }
}

/// In a solved unit with digit cells only, each cell has exactly one digit, and each digit is
/// in some cell.
proof fn lemma_solved_unit(g: Grid, k: Kind, i: int)
    requires
        0 <= i < 9,
        digit_cells(g),
        unit_solved(g, k, i),
    ensures
        forall|j: int, d: int, e: int|
            0 <= j < 9 && 1 <= d <= 9 && 1 <= e <= 9 && #[trigger] g.unit_cell(k, i, j).has(d) && #[trigger] g.unit_cell(k, i, j).has(e)
                ==> d == e,
        forall|d: int| 1 <= d <= 9 ==> #[trigger] present(g, k, i, d),
{
    let f = |j: int| some_digit(g.unit_cell(k, i, j));
    assert forall|j: int| 0 <= j < 9 implies 1 <= #[trigger] f(j) <= 9 && g.unit_cell(k, i, j).has(f(j)) by {
        lemma_unit_in_range(k, i, j);
        assert(g.unit_cell(k, i, j).0 != 0);
        lemma_has_digit(g.unit_cell(k, i, j));
    }
    // two positions never share a digit
    assert forall|j1: int, j2: int, d: int|
        0 <= j1 < 9 && 0 <= j2 < 9 && 1 <= d <= 9 && #[trigger] g.unit_cell(k, i, j1).has(d) && #[trigger] g.unit_cell(k, i, j2).has(d)
            implies j1 == j2 by {
        assert(digit_count(g, k, i, d, 9) == 1);
        if j1 < j2 {
            lemma_count_two(g, k, i, d, j1, j2, 9);
        } else if j2 < j1 {
            lemma_count_two(g, k, i, d, j2, j1, 9);
        }
    }
    let x = set_int_range(0, 9);
    let y = x.map(f);
    let all = set_int_range(1, 10);
    lemma_int_range(0, 9);
    lemma_int_range(1, 10);
    assert(vstd::relations::injective_on(f, x)) by {
        assert forall|j1: int, j2: int| x.contains(j1) && x.contains(j2) && #[trigger] f(j1) == #[trigger] f(j2) implies j1 == j2 by {
            assert(g.unit_cell(k, i, j1).has(f(j1)));
            assert(g.unit_cell(k, i, j2).has(f(j2)));
        }
    }
    lemma_map_size(x, y, f);
    assert(y.subset_of(all)) by {
        assert forall|d: int| y.contains(d) implies all.contains(d) by {
            let j = choose|j: int| x.contains(j) && f(j) == d;
            assert(1 <= f(j) <= 9);
        }
    }
    lemma_subset_equality(y, all);
    assert forall|d: int| 1 <= d <= 9 implies #[trigger] present(g, k, i, d) by {
        assert(all.contains(d));
        assert(y.contains(d));
        let j = choose|j: int| x.contains(j) && f(j) == d;
        assert(g.unit_cell(k, i, j).has(f(j)));
    }
    assert forall|j: int, d: int, e: int|
        0 <= j < 9 && 1 <= d <= 9 && 1 <= e <= 9 && #[trigger] g.unit_cell(k, i, j).has(d) && #[trigger] g.unit_cell(k, i, j).has(e)
            implies d == e by {
        assert(all.contains(d) && all.contains(e));
        assert(y.contains(d) && y.contains(e));
        let jd = choose|jd: int| x.contains(jd) && f(jd) == d;
        let je = choose|je: int| x.contains(je) && f(je) == e;
        assert(g.unit_cell(k, i, jd).has(f(jd)));
        assert(g.unit_cell(k, i, je).has(f(je)));
        assert(jd == j);
        assert(je == j);
    }
}

/// A solved grid with digit cells only stands for exactly one completed sudoku: the board
/// that puts in each cell its digit. Every cell has exactly that one digit left.
pub proof fn lemma_solved_grid_is_sudoku(g: Grid)
    requires
        digit_cells(g),
        solved_spec(g),
    ensures
        is_solution(board_of(g)),
        compatible(g, board_of(g)),
        forall|r: int, c: int, d: int| 0 <= r < 9 && 0 <= c < 9 && #[trigger] g.at(r, c).has(d) ==> d == board_of(g)(r, c),
        unique_solution(g),
{
    let s = board_of(g);
    assert forall|k: Kind, i: int| 0 <= i < 9 implies #[trigger] unit_solved(g, k, i) by {
        assert(crate::grid::kind_solved(g, k));
    }
    // every cell has exactly one digit, the one of the board
    assert forall|r: int, c: int, d: int| 0 <= r < 9 && 0 <= c < 9 && #[trigger] g.at(r, c).has(d) implies d == s(r, c)
        && 1 <= s(r, c) <= 9 && g.at(r, c).has(s(r, c)) by {
        assert(unit_solved(g, Kind::Row, r));
        lemma_solved_unit(g, Kind::Row, r);
        assert(g.unit_cell(Kind::Row, r, c) == g.at(r, c));
        assert(g.at(r, c).0 != 0);
        lemma_has_digit(g.at(r, c));
        assert(g.at(r, c).digits_only());
        lemma_digits_only_size(g.at(r, c));
        if !(1 <= d <= 9) {
            if d >= 10 {
                lemma_bit_high(g.at(r, c).0, d);
            }
        }
    }
    assert forall|r: int, c: int| 0 <= r < 9 && 0 <= c < 9 implies 1 <= #[trigger] s(r, c) <= 9 && g.at(r, c).has(s(r, c)) by {
        assert(unit_solved(g, Kind::Row, r));
        lemma_solved_unit(g, Kind::Row, r);
        assert(g.unit_cell(Kind::Row, r, c) == g.at(r, c));
        assert(g.at(r, c).0 != 0);
        lemma_has_digit(g.at(r, c));
    }
    assert forall|k: Kind, i: int, j1: int, j2: int|
        0 <= i < 9 && 0 <= j1 < 9 && 0 <= j2 < 9 && j1 != j2 implies #[trigger] sol_at(s, k, i, j1) != #[trigger] sol_at(s, k, i, j2) by {
        lemma_unit_in_range(k, i, j1);
        lemma_unit_in_range(k, i, j2);
        assert(unit_solved(g, k, i));
        let d = sol_at(s, k, i, j1);
        assert(g.unit_cell(k, i, j1).has(d));
        if sol_at(s, k, i, j2) == d {
            assert(g.unit_cell(k, i, j2).has(d));
            assert(digit_count(g, k, i, d, 9) == 1);
            if j1 < j2 {
                lemma_count_two(g, k, i, d, j1, j2, 9);
            } else {
                lemma_count_two(g, k, i, d, j2, j1, 9);
            }
        }
    }
    assert forall|k: Kind, i: int, d: int| 0 <= i < 9 && 1 <= d <= 9 implies #[trigger] unit_holds(s, k, i, d) by {
        lemma_solved_unit(g, k, i);
        assert(present(g, k, i, d));
        let j = choose|j: int| 0 <= j < 9 && #[trigger] g.unit_cell(k, i, j).has(d);
        lemma_unit_in_range(k, i, j);
        assert(g.at(unit_row(k, i, j), unit_col(k, i, j)).has(d));
        assert(sol_at(s, k, i, j) == d);
    }
    assert(is_solution(s));
    assert(compatible(g, s));
    assert forall|s1: spec_fn(int, int) -> int, s2: spec_fn(int, int) -> int|
        is_solution(s1) && #[trigger] compatible(g, s1) && is_solution(s2) && #[trigger] compatible(g, s2) implies same_board(s1, s2) by {
        assert forall|r: int, c: int| 0 <= r < 9 && 0 <= c < 9 implies #[trigger] s1(r, c) == s2(r, c) by {
            assert(g.at(r, c).has(s1(r, c)));
            assert(g.at(r, c).has(s2(r, c)));
        }
    }
}

/// A grid narrower than a well-formed one has digit cells only.
proof fn lemma_digit_cells_below(a: Grid, g: Grid)
    requires
        g.wf(),
        narrower(a, g),
    ensures
        digit_cells(a),
{
    assert forall|r: int, c: int| 0 <= r < 9 && 0 <= c < 9 implies (#[trigger] a.at(r, c)).digits_only() by {
        assert(g.at(r, c).digits_only());
        assert(a.at(r, c).within(g.at(r, c)));
        crate::bits::lemma_subset_within_mask(a.at(r, c).0, g.at(r, c).0, ALL);
    }
}

/// A solved grid found inside a well-formed grid gives it a completed sudoku.
pub proof fn lemma_found_has_solution(g: Grid, x: Grid)
    requires
        g.wf(),
        found_in(x, g),
    ensures
        has_solution(g),
{
    lemma_digit_cells_below(x, g);
    lemma_solved_grid_is_sudoku(x);
    crate::model::lemma_compatible_wider(x, g, board_of(x));
}

/// A well-formed grid that a sound narrowing turns into a solved grid has exactly one
/// completed sudoku, the one of the solved grid.
pub proof fn lemma_narrowed_to_solved(g0: Grid, g: Grid)
    requires
        g0.wf(),
        crate::model::narrows(g0, g),
        solved_spec(g),
    ensures
        unique_solution(g0),
{
    lemma_digit_cells_below(g, g0);
    lemma_solved_grid_is_sudoku(g);
    let b = board_of(g);
    crate::model::lemma_compatible_wider(g, g0, b);
    assert forall|s1: spec_fn(int, int) -> int, s2: spec_fn(int, int) -> int|
        is_solution(s1) && #[trigger] compatible(g0, s1) && is_solution(s2) && #[trigger] compatible(g0, s2)
            implies same_board(s1, s2) by {
        assert(compatible(g, s1));
        assert(compatible(g, s2));
        assert forall|r: int, c: int| 0 <= r < 9 && 0 <= c < 9 implies #[trigger] s1(r, c) == s2(r, c) by {
            assert(g.at(r, c).has(s1(r, c)));
            assert(g.at(r, c).has(s2(r, c)));
        }
    }
}

/// Every cell of a solved grid with digit cells only has at most one candidate.
pub proof fn lemma_solved_single(g: Grid, r: int, c: int)
    requires
        digit_cells(g),
        solved_spec(g),
        0 <= r < 9,
        0 <= c < 9,
    ensures
        g.at(r, c).size() <= 1,
{
    lemma_solved_grid_is_sudoku(g);
    let d = board_of(g)(r, c);
    let x = g.at(r, c).0;
    assert(1 <= d <= 9);
    let e = d as u16;
    assert forall|i: int| 0 <= i < 16 implies #[trigger] has_bit(x & (1u16 << e), i) == has_bit(x, i) by {
        crate::bits::lemma_bit_and(x, 1u16 << e, i);
        crate::bits::lemma_bit_single(e, i);
        if g.at(r, c).has(i) {
            assert(i == d);
        }
    }
    lemma_bits_ext(x & (1u16 << e), x);
    crate::bits::lemma_popcount_mono(x, 1u16 << e);
    crate::search::lemma_single_count(e);
}

/// Two different solved grids found inside a well-formed grid are two completed sudokus
/// that fit it.
pub proof fn lemma_two_found(g: Grid, a: Grid, b: Grid)
    requires
        g.wf(),
        found_in(a, g),
        found_in(b, g),
        differs(a, b),
    ensures
        !unique_solution(g),
{
    lemma_digit_cells_below(a, g);
    lemma_digit_cells_below(b, g);
    lemma_solved_grid_is_sudoku(a);
    lemma_solved_grid_is_sudoku(b);
    let sa = board_of(a);
    let sb = board_of(b);
    crate::model::lemma_compatible_wider(a, g, sa);
    crate::model::lemma_compatible_wider(b, g, sb);
    let (r, c) = choose|r: int, c: int| 0 <= r < 9 && 0 <= c < 9 && #[trigger] a.at(r, c) != b.at(r, c);
    if sa(r, c) == sb(r, c) {
        assert(a.at(r, c).digits_only() && b.at(r, c).digits_only());
        lemma_digits_only_size(a.at(r, c));
        lemma_digits_only_size(b.at(r, c));
        assert forall|i: int| 0 <= i < 16 implies #[trigger] has_bit(a.at(r, c).0, i) == has_bit(b.at(r, c).0, i) by {
            if 10 <= i {
                lemma_bit_high(a.at(r, c).0, i);
                lemma_bit_high(b.at(r, c).0, i);
            }
            if a.at(r, c).has(i) {
                assert(i == sa(r, c));
            }
            if b.at(r, c).has(i) {
                assert(i == sb(r, c));
            }
        }
        lemma_bits_ext(a.at(r, c).0, b.at(r, c).0);
    }
    assert(!same_board(sa, sb));
}

/// With nothing found before, what the search finds decides a well-formed grid: nothing
/// when no completed sudoku fits it, one grid when exactly one does, two when several do.
pub proof fn lemma_search_decides(g: Grid, found: Seq<Grid>)
    requires
        g.wf(),
        forall|t: int| 0 <= t < found.len() ==> found_in(#[trigger] found[t], g),
        forall|a: int, b: int| 0 <= a < b < found.len() ==> differs(#[trigger] found[a], #[trigger] found[b]),
        found.len() == 0 ==> !has_solution(g),
        found.len() == 1 ==> covers(found[0], g),
    ensures
        (found.len() == 0) == !has_solution(g),
        (found.len() == 1) == unique_solution(g),
{
    if found.len() >= 1 {
        lemma_digit_cells_below(found[0], g);
        lemma_solved_grid_is_sudoku(found[0]);
        crate::model::lemma_compatible_wider(found[0], g, board_of(found[0]));
    }
    if found.len() == 1 {
        crate::generate::lemma_unique_puzzle(g, found[0]);
    }
    if found.len() >= 2 {
        lemma_two_found(g, found[0], found[1]);
    }
}

} // verus!
