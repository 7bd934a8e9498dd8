//! Brute-force search: branch on the digits of a cell, reducing each branch.
use vstd::prelude::*;
use crate::bits::{has_bit, popcount, bits_upto, lemma_popcount_low, lemma_popcount_exhausted, lemma_bit_single,
    lemma_single_subset, lemma_popcount_mono, lemma_single_nonzero};
use crate::cell::{Cell, ALL, digit_seq};
use crate::grid::{Grid, Kind, Point, narrower, differs, solved_spec, has_empty, kind_solved, unit_solved, digit_count,
    branchable, min_more_than_one_digit, updated, lemma_narrower_keeps, unit_row, unit_col, lemma_unit_in_range};
use crate::model::{is_solution, compatible, sound, narrows, sol_at, unit_holds, total, lemma_total_mono,
    lemma_narrows_trans, lemma_narrows_refl, lemma_narrow_step, lemma_compatible_wider};
use crate::reduce::StrategySet;

verus! {

/// The outcome of a search.
pub enum Solution {
    NotFound,
    Single(Grid),
    Multiple(Grid, Grid),
}

/// Some completed sudoku fits the grid.
pub open spec fn has_solution(g: Grid) -> bool {
    exists|s: spec_fn(int, int) -> int| is_solution(s) && #[trigger] compatible(g, s)
}

/// Every completed sudoku that fits `g` also fits `x`.
pub open spec fn covers(x: Grid, g: Grid) -> bool {
    forall|s: spec_fn(int, int) -> int| is_solution(s) && #[trigger] compatible(g, s) ==> compatible(x, s)
}

/// The grid is unsolved, has no empty cell, and no cell to branch on.
pub open spec fn stuck(g: Grid) -> bool {
    &&& !solved_spec(g)
    &&& !has_empty(g)
    &&& forall|r: int, c: int| 0 <= r < 9 && 0 <= c < 9 ==> !branchable(#[trigger] g.at(r, c))
}

/// A grid found by the search for `g`: solved, and narrower than `g`.
pub open spec fn found_in(x: Grid, g: Grid) -> bool {
    solved_spec(x) && narrower(x, g)
}

/// What `search(grid, other)` returns.
pub open spec fn search_result(grid: Grid, other: Option<Grid>, r: Solution) -> bool {
    match r {
        Solution::NotFound => !has_solution(grid),
        Solution::Single(x) => (other == Some(x) && !has_solution(grid)) || (other is None && found_in(x, grid)
            && covers(x, grid)),
        Solution::Multiple(a, b) => (other == Some(a) || found_in(a, grid)) && (other == Some(b) || found_in(b, grid)),
    }
}

/// Every grid that the search returns is `other` or a solved grid narrower than `grid`.
pub open spec fn search_found(grid: Grid, other: Option<Grid>, r: Solution) -> bool {
    match r {
        Solution::NotFound => true,
        Solution::Single(x) => other == Some(x) || found_in(x, grid),
        Solution::Multiple(a, b) => (other == Some(a) || found_in(a, grid)) && (other == Some(b) || found_in(b, grid)),
    }
}

/// A mask with only digit bits has at most nine bits.
pub proof fn lemma_digits_only_size(c: Cell)
    requires
        c.digits_only(),
    ensures
        c.fits(),
        c.size() <= 9,
        !c.has(0),
{
    let x = c.0;
    assert(x < 1024 && x & (1u16 << 0u16) == 0) by (bit_vector)
        requires
            x & !0b_111111111_0u16 == 0,
    ;
    lemma_popcount_low(x);
    lemma_bits_upto_skip0(x, 10);
}

/// A well-formed grid can be counted.
pub proof fn lemma_wf_fits(g: Grid)
    requires
        g.wf(),
    ensures
        g.fits(),
{
    assert forall|r: int, c: int| 0 <= r < 9 && 0 <= c < 9 implies (#[trigger] g.at(r, c)).fits() by {
        assert(g.at(r, c).digits_only());
        lemma_digits_only_size(g.at(r, c));
    }
}

proof fn lemma_bits_upto_skip0(x: u16, n: int)
    requires
        !has_bit(x, 0),
        n >= 1,
    ensures
        bits_upto(x, n) <= n - 1,
    decreases n,
{
    if n > 1 {
        lemma_bits_upto_skip0(x, n - 1);
    } else {
        assert(bits_upto(x, 0) == 0);
    }
}

/// `digit_seq` lists exactly the digit bits of a mask.
pub proof fn lemma_digit_seq(x: u16, n: int, d: int)
    requires
        n <= 10,
    ensures
        digit_seq(x, n).contains(d as usize) <== (1 <= d < n && has_bit(x, d)),
        forall|t: int| 0 <= t < digit_seq(x, n).len() ==> 1 <= #[trigger] digit_seq(x, n)[t] < n && has_bit(x, digit_seq(x, n)[t] as int),
    decreases n,
{
    if n > 1 {
        lemma_digit_seq(x, n - 1, d);
        let s = digit_seq(x, n - 1);
        if has_bit(x, n - 1) {
            assert(digit_seq(x, n) == s.push((n - 1) as usize));
            if 1 <= d < n && has_bit(x, d) {
                if d == n - 1 {
                    assert(digit_seq(x, n)[s.len() as int] == d as usize);
                } else {
                    let t = choose|t: int| 0 <= t < s.len() && s[t] == d as usize;
                    assert(digit_seq(x, n)[t] == d as usize);
                }
            }
        }
    }
}

/// With only digit bits, a grid without empty cells and without cells to branch on has single
/// candidates everywhere; if it is not solved, no completed sudoku fits it.
pub proof fn lemma_stuck_no_solution(g: Grid)
    requires
        g.wf(),
        stuck(g),
    ensures
        !has_solution(g),
{
    if has_solution(g) {
        let s = choose|s: spec_fn(int, int) -> int| is_solution(s) && #[trigger] compatible(g, s);
        // every cell is exactly the digit of s
        assert forall|r: int, c: int, v: int| 0 <= r < 9 && 0 <= c < 9 implies #[trigger] g.at(r, c).has(v) == (v == s(r, c)) by {
            assert(g.at(r, c).digits_only());
            lemma_digits_only_size(g.at(r, c));
            assert(!branchable(g.at(r, c)));
            assert(g.at(r, c).0 != 0);
            crate::bits::lemma_popcount_zero(g.at(r, c).0);
            assert(g.at(r, c).has(s(r, c)));
            if g.at(r, c).has(v) {
                lemma_popcount_exhausted(g.at(r, c).0, set![s(r, c)], v);
            }
        }
        assert forall|k: Kind, i: int| 0 <= i < 9 implies #[trigger] unit_solved(g, k, i) by {
            assert forall|j: int| 0 <= j < 9 implies (#[trigger] g.unit_cell(k, i, j)).0 != 0 by {
                lemma_unit_in_range(k, i, j);
                assert(g.at(unit_row(k, i, j), unit_col(k, i, j)).0 != 0);
            }
            assert forall|d: int| 1 <= d <= 9 implies #[trigger] digit_count(g, k, i, d, 9) == 1 by {
                assert(unit_holds(s, k, i, d));
                let j0 = choose|j: int| 0 <= j < 9 && #[trigger] sol_at(s, k, i, j) == d;
                assert forall|j: int| 0 <= j < 9 implies #[trigger] g.unit_cell(k, i, j).has(d) == (j == j0) by {
                    lemma_unit_in_range(k, i, j);
                    if j != j0 {
                        assert(sol_at(s, k, i, j) != sol_at(s, k, i, j0));
                    }
                }
                lemma_count_unique(g, k, i, d, j0, 9);
            }
        }
        assert(kind_solved(g, Kind::Box));
        assert(kind_solved(g, Kind::Col));
        assert(kind_solved(g, Kind::Row));
    }
}

proof fn lemma_count_unique(g: Grid, k: Kind, i: int, d: int, j0: int, n: int)
    requires
        0 <= j0 < 9,
        n <= 9,
        forall|j: int| 0 <= j < 9 ==> #[trigger] g.unit_cell(k, i, j).has(d) == (j == j0),
    ensures
        digit_count(g, k, i, d, n) == if j0 < n { 1nat } else { 0nat },
    decreases n,
{
    if n > 0 {
        lemma_count_unique(g, k, i, d, j0, n - 1);
        assert(g.unit_cell(k, i, n - 1).has(d) == (n - 1 == j0));
    }
}

/// `copy` is `grid` with the cell `p` set to the single digit `d`, one of its candidates.
pub proof fn lemma_branch(grid: Grid, copy: Grid, p: Point, d: int)
    requires
        p.0 < 9,
        p.1 < 9,
        1 <= d <= 9,
        grid.at(p.0 as int, p.1 as int).has(d),
        grid.at(p.0 as int, p.1 as int).size() > 1,
        updated(grid, copy, p.0 as int, p.1 as int, Cell(1u16 << d as u16)),
    ensures
        narrower(copy, grid),
        differs(copy, grid),
        forall|s: spec_fn(int, int) -> int| is_solution(s) && #[trigger] compatible(grid, s) && s(p.0 as int, p.1 as int) == d
            ==> compatible(copy, s),
        total(copy) < total(grid),
{
    let r = p.0 as int;
    let c = p.1 as int;
    lemma_single_subset(grid.at(r, c).0, d as u16);
    assert forall|r2: int, c2: int| 0 <= r2 < 9 && 0 <= c2 < 9 implies (#[trigger] copy.at(r2, c2)).within(grid.at(r2, c2)) by {
        if !(r2 == r && c2 == c) {
            crate::bits::lemma_subset_refl(grid.at(r2, c2).0);
        }
    }
    // a single bit is not a branchable cell
    lemma_single_count(d as u16);
    assert(copy.at(r, c) != grid.at(r, c));
    assert(differs(copy, grid));
    assert forall|s: spec_fn(int, int) -> int| is_solution(s) && #[trigger] compatible(grid, s) && s(r, c) == d implies compatible(copy, s) by {
        assert forall|r2: int, c2: int| 0 <= r2 < 9 && 0 <= c2 < 9 implies (#[trigger] copy.at(r2, c2)).has(s(r2, c2)) by {
            if r2 == r && c2 == c {
                lemma_bit_single(d as u16, d);
            } else {
                assert(grid.at(r2, c2).has(s(r2, c2)));
            }
        }
    }
    lemma_total_mono(copy, grid);
}

/// A single bit has one bit.
pub proof fn lemma_single_count(e: u16)
    requires
        e < 16,
    ensures
        popcount(1u16 << e) == 1,
{
    lemma_bits_upto_single(e, 16);
}

proof fn lemma_bits_upto_single(e: u16, n: int)
    requires
        e < 16,
        n <= 16,
    ensures
        bits_upto(1u16 << e, n) == if n > e { 1nat } else { 0nat },
    decreases n,
{
    if n > 0 {
        lemma_bits_upto_single(e, n - 1);
        lemma_bit_single(e, n - 1);
    }
}

/// search finds the solutions of a grid by trying each candidate of the cell with the fewest
/// candidates (the first such cell) and reducing; `other` is a solution found before, in
/// another branch. It returns `Single` with the one solution it holds at the end, `NotFound`
/// when it holds none, and `Multiple` as soon as a branch gives a second result. A branch
/// that finds nothing new hands back the solution it was given, so `Multiple` may hold the
/// same grid twice.
pub fn search(grid: &Grid, other: Option<Grid>) -> (result: Solution)
    requires
        grid.fits(),
        grid.givens_fixed(),
        !stuck(*grid),
    ensures
        search_found(*grid, other, result),
        grid.wf() ==> search_result(*grid, other, result),
        grid.wf() && other is None ==> (result is NotFound) == !has_solution(*grid),
        grid.wf() && other is None && result is Single ==> crate::unique::unique_solution(*grid),
{
    let result = search_from(grid, other);
    proof {
        if grid.wf() && other is None {
            match result {
                Solution::Single(x) => {
                    crate::unique::lemma_found_has_solution(*grid, x);
                    crate::generate::lemma_unique_puzzle(*grid, x);
                },
                Solution::Multiple(a, b) => {
                    crate::unique::lemma_found_has_solution(*grid, a);
                },
                Solution::NotFound => {},
            }
        }
    }
    result
}

/// The search of `search`, also on grids reached by branching. On a grid that is unsolved,
/// without an empty cell and without a cell to branch on, it returns what it found so far.
fn search_from(grid: &Grid, other: Option<Grid>) -> (result: Solution)
    requires
        grid.fits(),
        grid.givens_fixed(),
    ensures
        search_found(*grid, other, result),
        grid.wf() ==> search_result(*grid, other, result),
    decreases total(*grid),
{
    if grid.solved() {
        proof {
            crate::grid::lemma_narrower_refl(*grid);
        }
        if let Some(sol) = other {
            return Solution::Multiple(*grid, sol);
        }
        return Solution::Single(*grid);
    }
    if grid.empty_cell() {
        proof {
            let (r, c) = choose|r: int, c: int| 0 <= r < 9 && 0 <= c < 9 && (#[trigger] grid.at(r, c)).0 == 0;
            assert forall|s: spec_fn(int, int) -> int| is_solution(s) implies !#[trigger] compatible(*grid, s) by {
                crate::bits::lemma_bit_zero(s(r, c));
                if compatible(*grid, s) {
                    assert(grid.at(r, c).has(s(r, c)));
                }
            }
        }
        return Solution::NotFound;
    }
    let point = match min_more_than_one_digit(grid) {
        Some(p) => p,
        None => {
            proof {
                if grid.wf() {
                    lemma_stuck_no_solution(*grid);
                }
            }
            return match other {
                Some(sol) => Solution::Single(sol),
                None => Solution::NotFound,
            };
        },
    };
    let ghost pr = point.0 as int;
    let ghost pc = point.1 as int;
    let ghost cellp = grid.at(pr, pc);
    let digits = grid.get(point).digits();
    let mut solution = other;
    let mut t: usize = 0;
    while t < digits.len()
        invariant
            grid.fits(),
            grid.givens_fixed(),
            point.0 < 9 && point.1 < 9,
            pr == point.0 && pc == point.1,
            cellp == grid.at(pr, pc),
            branchable(cellp),
            digits@ == cellp.digit_list(),
            t <= digits.len(),
            solution == other || (other is None && (solution matches Some(x) && found_in(x, *grid))),
            grid.wf() && solution == other ==> forall|s: spec_fn(int, int) -> int|
                is_solution(s) && #[trigger] compatible(*grid, s) ==> !digits@.subrange(0, t as int).contains(s(pr, pc) as usize),
            grid.wf() && solution != other ==> forall|s: spec_fn(int, int) -> int|
                is_solution(s) && #[trigger] compatible(*grid, s) && digits@.subrange(0, t as int).contains(s(pr, pc) as usize)
                    ==> compatible(solution->0, s),
        decreases digits.len() - t,
    {
        let d = digits[t];
        proof {
            lemma_digit_seq(cellp.0, 10, d as int);
            assert(1 <= d <= 9 && cellp.has(d as int));
        }
        let mut copy = *grid;
        copy.set_at(point.0, point.1, Cell(1u16 << d as u16));
        let ghost copy0 = copy;
        proof {
            lemma_branch(*grid, copy0, point, d as int);
            lemma_narrower_keeps(copy0, *grid);
        }
        let mut scratch = StrategySet::new();
        let (_, solved) = copy.reduce(&mut scratch);
        proof {
            lemma_narrower_keeps(copy, copy0);
            lemma_total_mono(copy, copy0);
            assert(narrower(copy, *grid)) by {
                assert forall|r: int, c: int| 0 <= r < 9 && 0 <= c < 9 implies (#[trigger] copy.at(r, c)).within(grid.at(r, c)) by {
                    assert(copy.at(r, c).within(copy0.at(r, c)));
                    assert(copy0.at(r, c).within(grid.at(r, c)));
                    crate::bits::lemma_subset_trans(copy.at(r, c).0, copy0.at(r, c).0, grid.at(r, c).0);
                }
            }
            // the completed sudokus of this branch fit the reduced copy
            assert forall|s: spec_fn(int, int) -> int| is_solution(s) && #[trigger] compatible(*grid, s) && s(pr, pc) == d implies compatible(copy, s) by {
                assert(compatible(copy0, s));
            }
            let sub = digits@.subrange(0, t as int);
            let sub1 = digits@.subrange(0, t + 1);
            assert(sub1 =~= sub.push(d));
            assert forall|v: usize| #[trigger] sub1.contains(v) == (sub.contains(v) || v == d) by {
                if sub1.contains(v) {
                    let u = choose|u: int| 0 <= u < sub1.len() && sub1[u] == v;
                    if u < t {
                        assert(sub[u] == v);
                    }
                }
                if sub.contains(v) {
                    let u = choose|u: int| 0 <= u < sub.len() && sub[u] == v;
                    assert(sub1[u] == v);
                }
                if v == d {
                    assert(sub1[t as int] == v);
                }
            }
        }
        proof {
            if grid.wf() {
                lemma_narrower_keeps(copy, *grid);
            }
        }
        if solved {
            if let Some(sol) = solution {
                return Solution::Multiple(sol, copy);
            }
            solution = Some(copy);
            t += 1;
            proof {
                if grid.wf() {
                    assert forall|s: spec_fn(int, int) -> int| is_solution(s) && #[trigger] compatible(*grid, s) && digits@.subrange(0, t as int).contains(s(pr, pc) as usize)
                        implies compatible(solution->0, s) by {
                        if s(pr, pc) as usize != d {
                            assert(digits@.subrange(0, t - 1).contains(s(pr, pc) as usize));
                        }
                        assert(1 <= s(pr, pc) <= 9);
                    }
                }
            }
            continue;
        }
        match search_from(&copy, solution) {
            Solution::NotFound => {
                proof {
                    if grid.wf() {
                        assert forall|s: spec_fn(int, int) -> int| is_solution(s) && #[trigger] compatible(*grid, s) implies s(pr, pc) != d by {
                            if s(pr, pc) == d {
                                assert(compatible(copy, s));
                            }
                        }
                    }
                }
                t += 1;
                proof {
                    if grid.wf() {
                        assert forall|s: spec_fn(int, int) -> int| is_solution(s) && #[trigger] compatible(*grid, s) implies
                            (digits@.subrange(0, t as int).contains(s(pr, pc) as usize) == digits@.subrange(0, t - 1).contains(s(pr, pc) as usize)) by {
                            assert(1 <= s(pr, pc) <= 9);
                            assert(s(pr, pc) != d);
                        }
                    }
                }
                continue;
            },
            Solution::Single(o) => {
                match solution {
                    Some(sol) => {
                        proof {
                            if found_in(o, copy) {
                                crate::grid::lemma_narrower_trans(o, copy, *grid);
                            }
                        }
                        return Solution::Multiple(sol, o);
                    },
                    None => {
                        proof {
                            crate::grid::lemma_narrower_trans(o, copy, *grid);
                        }
                        solution = Some(o);
                        t += 1;
                        proof {
                            if grid.wf() {
                                assert forall|s: spec_fn(int, int) -> int| is_solution(s) && #[trigger] compatible(*grid, s) && digits@.subrange(0, t as int).contains(s(pr, pc) as usize)
                                    implies compatible(solution->0, s) by {
                                    assert(1 <= s(pr, pc) <= 9);
                                    if s(pr, pc) as usize != d {
                                        assert(digits@.subrange(0, t - 1).contains(s(pr, pc) as usize));
                                    } else {
                                        assert(compatible(copy, s));
                                    }
                                }
                            }
                        }
                        continue;
                    },
                }
            },
            Solution::Multiple(a, b) => {
                proof {
                    if found_in(a, copy) {
                        crate::grid::lemma_narrower_trans(a, copy, *grid);
                    }
                    if found_in(b, copy) {
                        crate::grid::lemma_narrower_trans(b, copy, *grid);
                    }
                }
                return Solution::Multiple(a, b);
            },
        }
    }
    proof {
        assert(digits@.subrange(0, digits.len() as int) =~= digits@);
        assert forall|s: spec_fn(int, int) -> int| is_solution(s) && #[trigger] compatible(*grid, s) implies digits@.contains(s(pr, pc) as usize) by {
            assert(grid.at(pr, pc).has(s(pr, pc)));
            assert(1 <= s(pr, pc) <= 9);
            lemma_digit_seq(cellp.0, 10, s(pr, pc));
        }
    }
    match solution {
        Some(sol) => Solution::Single(sol),
        None => Solution::NotFound,
    }
}

/// A solved grid has no empty cell.
pub proof fn lemma_solved_nonzero(g: Grid, r: int, c: int)
    requires
        solved_spec(g),
        0 <= r < 9,
        0 <= c < 9,
    ensures
        g.at(r, c).0 != 0,
{
    crate::strategies::box_line::lemma_cell_in_box(r, c);
    let b = crate::grid::box_index(r, c);
    assert(unit_solved(g, Kind::Box, b));
    assert(g.unit_cell(Kind::Box, b, r % 3 * 3 + c % 3).0 != 0);
}

/// The digits of a mask are listed in increasing order, so without repetition.
pub proof fn lemma_digit_seq_increasing(x: u16, n: int)
    requires
        n <= 10,
    ensures
        forall|a: int, b: int| 0 <= a < b < digit_seq(x, n).len() ==> digit_seq(x, n)[a] < digit_seq(x, n)[b],
        digit_seq(x, n).no_duplicates(),
    decreases n,
{
    if n > 1 {
        lemma_digit_seq_increasing(x, n - 1);
        lemma_digit_seq(x, n - 1, 0);
    }
}

/// Returns a cell with the fewest candidates among those with more than one; when several
/// have that many, one of them chosen at random. `None` when no cell has more than one.
fn min_point(grid: &Grid) -> (point: Option<Point>)
    requires
        grid.fits(),
    ensures
        point is None <==> forall|r: int, c: int| 0 <= r < 9 && 0 <= c < 9 ==> 1 >= (#[trigger] grid.at(r, c)).size(),
        point matches Some(p) ==> {
            &&& p.0 < 9 && p.1 < 9
            &&& grid.at(p.0 as int, p.1 as int).size() > 1
            &&& forall|r: int, c: int| 0 <= r < 9 && 0 <= c < 9 && (#[trigger] grid.at(r, c)).size() > 1
                ==> grid.at(r, c).size() >= grid.at(p.0 as int, p.1 as int).size()
        },
{
    let mut min: usize = 10;
    let mut min_points: Vec<Point> = Vec::new();
    let mut found = false;
    let mut r: usize = 0;
    while r < 9
        invariant
            r <= 9,
            grid.fits(),
            !found ==> min == 10 && min_points.len() == 0,
            !found ==> forall|a: int, b: int| 0 <= a < r && 0 <= b < 9 ==> 1 >= (#[trigger] grid.at(a, b)).size(),
            found ==> min_points.len() > 0 && 1 < min <= 10,
            forall|t: int| 0 <= t < min_points.len() ==> (#[trigger] min_points[t]).0 < 9 && min_points[t].1 < 9
                && grid.at(min_points[t].0 as int, min_points[t].1 as int).size() == min,
            forall|a: int, b: int| 0 <= a < r && 0 <= b < 9 && (#[trigger] grid.at(a, b)).size() > 1 ==> grid.at(a, b).size() >= min,
        decreases 9 - r,
    {
        let mut c: usize = 0;
        while c < 9
            invariant
                r < 9,
                c <= 9,
                grid.fits(),
                !found ==> min == 10 && min_points.len() == 0,
                !found ==> forall|a: int, b: int| 0 <= a < r && 0 <= b < 9 ==> 1 >= (#[trigger] grid.at(a, b)).size(),
                !found ==> forall|b: int| 0 <= b < c ==> 1 >= (#[trigger] grid.at(r as int, b)).size(),
                found ==> min_points.len() > 0 && 1 < min <= 10,
                forall|t: int| 0 <= t < min_points.len() ==> (#[trigger] min_points[t]).0 < 9 && min_points[t].1 < 9
                    && grid.at(min_points[t].0 as int, min_points[t].1 as int).size() == min,
                forall|a: int, b: int| 0 <= a < r && 0 <= b < 9 && (#[trigger] grid.at(a, b)).size() > 1 ==> grid.at(a, b).size() >= min,
                forall|b: int| 0 <= b < c && (#[trigger] grid.at(r as int, b)).size() > 1 ==> grid.at(r as int, b).size() >= min,
            decreases 9 - c,
        {
            let cell = grid.cells[r][c];
            proof {
                assert(grid.at(r as int, c as int).fits());
            }
            let count = cell.count();
            if count > 1 && count < min {
                min = count;
                min_points.truncate(0);
                min_points.push((r, c));
                found = true;
            } else if count == min {
                min_points.push((r, c));
                found = true;
            }
            c += 1;
        }
        r += 1;
    }
    if found {
        let ghost before = min_points@;
        crate::rng::shuffle(&mut min_points);
        proof {
            assert(before.len() == min_points@.len()) by {
                vstd::seq_lib::to_multiset_len(before);
                vstd::seq_lib::to_multiset_len(min_points@);
            }
            let x = min_points@[0];
            assert(min_points@.contains(x)) by {
                assert(min_points@[0] == x);
            }
            vstd::seq_lib::to_multiset_contains(min_points@, x);
            vstd::seq_lib::to_multiset_contains(before, x);
            assert(before.contains(x));
            let u = choose|u: int| 0 <= u < before.len() && before[u] == x;
            assert(before[u] == x);
        }
        return Some(min_points[0]);
    }
    None
}

/// The cell `(pr, pc)` of `x` is the single digit `digits[w]` for some `w < t`.
pub open spec fn tagged(x: Grid, pr: int, pc: int, digits: Seq<usize>, t: int) -> bool {
    exists|w: int| 0 <= w < t && x.at(pr, pc) == Cell(1u16 << #[trigger] digits[w] as u16)
}

/// The grids of `v` from position `n0` on are pairwise different.
pub open spec fn distinct_from(v: Seq<Grid>, n0: int) -> bool {
    forall|a: int, b: int| n0 <= a < b < v.len() ==> differs(#[trigger] v[a], #[trigger] v[b])
}

impl Grid {
    /// search appends solutions of the grid to `solutions`: the grid itself when it is solved,
    /// then, branching on a cell with the fewest candidates (chosen at random among ties) and
    /// on its digits in random order, the solved reductions and the solutions found below
    /// them. It stops as soon as `solutions` holds more than one grid. Started with no
    /// solutions, it finds none exactly when no completed sudoku fits a well-formed grid, and
    /// one exactly when one does.
    pub fn search(&self, solutions: &mut Vec<Grid>)
        requires
            self.fits(),
            self.givens_fixed(),
        ensures
            final(solutions).len() >= old(solutions).len(),
            final(solutions)@.subrange(0, old(solutions).len() as int) == old(solutions)@,
            forall|t: int| old(solutions).len() <= t < final(solutions).len() ==> found_in(#[trigger] final(solutions)@[t], *self),
            distinct_from(final(solutions)@, old(solutions).len() as int),
            solved_spec(*self) ==> final(solutions).len() > old(solutions).len() && final(solutions)@[old(solutions).len() as int] == *self,
            self.wf() && old(solutions).len() <= 1 && final(solutions).len() == old(solutions).len() ==> !has_solution(*self),
            self.wf() && old(solutions).len() == 0 && final(solutions).len() == 1 ==> covers(final(solutions)@[0], *self),
            self.wf() && old(solutions).len() <= 1 ==> final(solutions).len() <= 2,
            self.wf() && old(solutions).len() == 0 ==> (final(solutions).len() == 0) == !has_solution(*self)
                && (final(solutions).len() == 1) == crate::unique::unique_solution(*self),
    {
        self.search_into(solutions);
        proof {
            if self.wf() && old(solutions).len() == 0 {
                crate::unique::lemma_search_decides(*self, solutions@);
            }
        }
    }

    /// The search of `search`, appending to `solutions`.
    fn search_into(&self, solutions: &mut Vec<Grid>)
        requires
            self.fits(),
            self.givens_fixed(),
        ensures
            final(solutions).len() >= old(solutions).len(),
            final(solutions)@.subrange(0, old(solutions).len() as int) == old(solutions)@,
            forall|t: int| old(solutions).len() <= t < final(solutions).len() ==> found_in(#[trigger] final(solutions)@[t], *self),
            distinct_from(final(solutions)@, old(solutions).len() as int),
            solved_spec(*self) ==> final(solutions).len() > old(solutions).len() && final(solutions)@[old(solutions).len() as int] == *self,
            self.wf() && old(solutions).len() <= 1 && final(solutions).len() == old(solutions).len() ==> !has_solution(*self),
            self.wf() && old(solutions).len() == 0 && final(solutions).len() == 1 ==> covers(final(solutions)@[0], *self),
            self.wf() && old(solutions).len() <= 1 ==> final(solutions).len() <= 2,
        decreases total(*self),
    {
        let ghost n0 = solutions.len() as int;
        let ghost v0 = solutions@;
        proof {
            crate::grid::lemma_narrower_refl(*self);
        }
        let solved_self = self.solved();
        if solved_self {
            solutions.push(*self);
        }
        proof {
            assert(solutions@.subrange(0, n0) =~= v0);
        }
        if self.empty_cell() {
            proof {
                let (r, c) = choose|r: int, c: int| 0 <= r < 9 && 0 <= c < 9 && (#[trigger] self.at(r, c)).0 == 0;
                assert forall|s: spec_fn(int, int) -> int| is_solution(s) implies !#[trigger] compatible(*self, s) by {
                    crate::bits::lemma_bit_zero(s(r, c));
                    if compatible(*self, s) {
                        assert(self.at(r, c).has(s(r, c)));
                    }
                }
            }
            return;
        }
        let point = match min_point(self) {
            Some(p) => p,
            None => {
                proof {
                    if !solved_self && self.wf() {
                        lemma_stuck_no_solution(*self);
                    }
                }
                return;
            },
        };
        let ghost pr = point.0 as int;
        let ghost pc = point.1 as int;
        let ghost cellp = self.at(pr, pc);
        proof {
            if self.wf() && solved_self {
                assert(crate::unique::digit_cells(*self));
                crate::unique::lemma_solved_single(*self, pr, pc);
            }
        }
        let mut digits = self.get(point).digits();
        let ghost listed = digits@;
        crate::rng::shuffle(&mut digits);
        proof {
            lemma_digit_seq_increasing(cellp.0, 10);
            listed.lemma_multiset_has_no_duplicates();
            digits@.lemma_multiset_has_no_duplicates_conv();
            assert forall|v: usize| #[trigger] digits@.contains(v) == listed.contains(v) by {
                vstd::seq_lib::to_multiset_contains(digits@, v);
                vstd::seq_lib::to_multiset_contains(listed, v);
            }
            lemma_digit_seq(cellp.0, 10, 0);
            assert forall|w: int| 0 <= w < digits.len() implies 1 <= #[trigger] digits@[w] <= 9 by {
                assert(digits@.contains(digits@[w]));
                assert(listed.contains(digits@[w]));
            }
        }
        let mut t: usize = 0;
        while t < digits.len()
            invariant
                self.fits(),
                self.givens_fixed(),
                point.0 < 9 && point.1 < 9,
                pr == point.0 && pc == point.1,
                cellp == self.at(pr, pc),
                cellp.size() > 1,
                listed == cellp.digit_list(),
                forall|v: usize| #[trigger] digits@.contains(v) == listed.contains(v),
                digits@.no_duplicates(),
                forall|w: int| 0 <= w < digits.len() ==> 1 <= #[trigger] digits@[w] <= 9,
                t <= digits.len(),
                0 <= n0 == old(solutions).len(),
                v0 == old(solutions)@,
                solved_self == solved_spec(*self),
                solutions.len() >= n0 + (if solved_self { 1int } else { 0int }),
                solutions@.subrange(0, n0) == v0,
                solved_self ==> solutions@[n0] == *self,
                forall|u: int| n0 <= u < solutions.len() ==> found_in(#[trigger] solutions@[u], *self),
                distinct_from(solutions@, n0),
                forall|u: int| n0 + (if solved_self { 1int } else { 0int }) <= u < solutions.len() ==> tagged(
                    #[trigger] solutions@[u], pr, pc, digits@, t as int),
                t > 0 ==> solutions.len() <= 1,
                self.wf() ==> !solved_self,
                self.wf() && n0 <= 1 ==> solutions.len() <= 1,
                self.wf() && solutions.len() == n0 + (if solved_self { 1int } else { 0int }) ==> forall|s: spec_fn(int, int) -> int|
                    is_solution(s) && #[trigger] compatible(*self, s) ==> !digits@.subrange(0, t as int).contains(s(pr, pc) as usize),
                self.wf() && n0 == 0 && !solved_self && solutions.len() == 1 ==> forall|s: spec_fn(int, int) -> int|
                    is_solution(s) && #[trigger] compatible(*self, s) && digits@.subrange(0, t as int).contains(s(pr, pc) as usize)
                        ==> compatible(solutions@[0], s),
            decreases digits.len() - t,
        {
            let d = digits[t];
            proof {
                assert(digits@.contains(d));
                assert(listed.contains(d));
                let w = choose|w: int| 0 <= w < listed.len() && listed[w] == d;
                lemma_digit_seq(cellp.0, 10, 0);
                assert(1 <= d <= 9 && cellp.has(d as int));
            }
            let mut copy = *self;
            copy.set_at(point.0, point.1, Cell(1u16 << d as u16));
            let ghost copy0 = copy;
            proof {
                lemma_branch(*self, copy0, point, d as int);
                lemma_narrower_keeps(copy0, *self);
            }
            let mut scratch = StrategySet::new();
            let (_, solved) = copy.reduce(&mut scratch);
            let ghost before = solutions@;
            proof {
                lemma_narrower_keeps(copy, copy0);
                lemma_total_mono(copy, copy0);
                crate::grid::lemma_narrower_trans(copy, copy0, *self);
                assert forall|s: spec_fn(int, int) -> int| is_solution(s) && #[trigger] compatible(*self, s) && s(pr, pc) == d implies compatible(copy, s) by {
                    assert(compatible(copy0, s));
                }
                let sub = digits@.subrange(0, t as int);
                let sub1 = digits@.subrange(0, t + 1);
                assert forall|v: usize| #[trigger] sub1.contains(v) == (sub.contains(v) || v == d) by {
                    if sub1.contains(v) {
                        let u = choose|u: int| 0 <= u < sub1.len() && sub1[u] == v;
                        if u < t {
                            assert(sub[u] == v);
                        }
                    }
                    if sub.contains(v) {
                        let u = choose|u: int| 0 <= u < sub.len() && sub[u] == v;
                        assert(sub1[u] == v);
                    }
                    if v == d {
                        assert(sub1[t as int] == v);
                    }
                }
            }
            if solved {
                solutions.push(copy);
                proof {
                    lemma_branch_found(*self, copy0, copy, point, d as int);
                        lemma_push_distinct(before, copy, n0, solved_self, *self, pr, pc, digits@, t as int);
                    assert(solutions@.subrange(0, n0) =~= v0);
                }
                if solutions.len() > 1 {
                    return;
                }
                t += 1;
                proof {
                    assert forall|u: int| n0 + (if solved_self { 1int } else { 0int }) <= u < solutions.len() implies tagged(
                        #[trigger] solutions@[u], pr, pc, digits@, t as int) by {
                        if u < solutions.len() - 1 {
                            assert(solutions@[u] == before[u]);
                            assert(tagged(before[u], pr, pc, digits@, t - 1));
                            let w = choose|w: int| 0 <= w < t - 1 && before[u].at(pr, pc) == Cell(1u16 << #[trigger] digits@[w] as u16);
                            assert(0 <= w < t && solutions@[u].at(pr, pc) == Cell(1u16 << digits@[w] as u16));
                        } else {
                            assert(solutions@[u].at(pr, pc) == Cell(1u16 << digits@[t - 1] as u16));
                        }
                    }
                    if self.wf() {
                        assert forall|s: spec_fn(int, int) -> int| is_solution(s) && #[trigger] compatible(*self, s) && digits@.subrange(0, t as int).contains(s(pr, pc) as usize)
                            implies compatible(solutions@[0], s) by {
                            assert(1 <= s(pr, pc) <= 9);
                            if s(pr, pc) as usize != d {
                                assert(digits@.subrange(0, t - 1).contains(s(pr, pc) as usize));
                            }
                        }
                    }
                }
                continue;
            }
            copy.search_into(solutions);
            proof {
                assert(solutions@.subrange(0, before.len() as int) == before);
                assert forall|u: int| 0 <= u < before.len() implies #[trigger] solutions@[u] == before[u] by {
                    assert(solutions@.subrange(0, before.len() as int)[u] == before[u]);
                }
                assert(before.subrange(0, n0) == v0);
                assert forall|u: int| 0 <= u < n0 implies #[trigger] solutions@[u] == v0[u] by {
                    assert(before.subrange(0, n0)[u] == before[u]);
                }
                assert(solutions@.subrange(0, n0) =~= v0);
                assert forall|u: int| before.len() <= u < solutions.len() implies (#[trigger] solutions@[u]).at(pr, pc) == Cell(1u16 << d as u16)
                    && found_in(solutions@[u], *self) by {
                    crate::grid::lemma_narrower_trans(solutions@[u], copy, copy0);
                    lemma_branch_found(*self, copy0, solutions@[u], point, d as int);
                }
                assert forall|u: int| n0 <= u < solutions.len() implies found_in(#[trigger] solutions@[u], *self) by {
                    if u < before.len() {
                        assert(solutions@[u] == before[u]);
                    }
                }
                assert forall|a: int, b: int| n0 <= a < b < solutions.len() implies differs(#[trigger] solutions@[a], #[trigger] solutions@[b]) by {
                    if b < before.len() {
                        assert(solutions@[a] == before[a]);
                        assert(solutions@[b] == before[b]);
                    } else if a < before.len() {
                        assert(solutions@[a] == before[a]);
                        lemma_tag_differs(before, solutions@[b], a, n0, solved_self, *self, pr, pc, digits@, t as int);
                    }
                }
            }
            if solutions.len() > 1 {
                return;
            }
            t += 1;
            proof {
                assert forall|u: int| n0 + (if solved_self { 1int } else { 0int }) <= u < solutions.len() implies tagged(
                    #[trigger] solutions@[u], pr, pc, digits@, t as int) by {
                    if u < before.len() {
                        assert(solutions@[u] == before[u]);
                        assert(tagged(before[u], pr, pc, digits@, t - 1));
                        let w = choose|w: int| 0 <= w < t - 1 && before[u].at(pr, pc) == Cell(1u16 << #[trigger] digits@[w] as u16);
                        assert(0 <= w < t && solutions@[u].at(pr, pc) == Cell(1u16 << digits@[w] as u16));
                    } else {
                        assert(solutions@[u].at(pr, pc) == Cell(1u16 << digits@[t - 1] as u16));
                    }
                }
                if self.wf() {
                    lemma_narrower_keeps(copy0, *self);
                    lemma_narrower_keeps(copy, copy0);
                }
                if !self.wf() {
                } else if solutions.len() == before.len() {
                    assert forall|s: spec_fn(int, int) -> int| is_solution(s) && #[trigger] compatible(*self, s) implies s(pr, pc) != d by {
                        if s(pr, pc) == d {
                            assert(compatible(copy, s));
                        }
                    }
                    assert forall|s: spec_fn(int, int) -> int| is_solution(s) && #[trigger] compatible(*self, s) implies
                        (digits@.subrange(0, t as int).contains(s(pr, pc) as usize) == digits@.subrange(0, t - 1).contains(s(pr, pc) as usize)) by {
                        assert(1 <= s(pr, pc) <= 9);
                        assert(s(pr, pc) != d);
                    }
                } else if n0 == 0 && !solved_self && solutions.len() == 1 {
                    assert(before.len() == 0);
                    assert forall|s: spec_fn(int, int) -> int| is_solution(s) && #[trigger] compatible(*self, s) && digits@.subrange(0, t as int).contains(s(pr, pc) as usize)
                        implies compatible(solutions@[0], s) by {
                        assert(1 <= s(pr, pc) <= 9);
                        if s(pr, pc) as usize != d {
                            assert(digits@.subrange(0, t - 1).contains(s(pr, pc) as usize));
                        } else {
                            assert(compatible(copy, s));
                        }
                    }
                }
            }
        }
        proof {
            assert(digits@.subrange(0, digits.len() as int) =~= digits@);
            assert forall|s: spec_fn(int, int) -> int| is_solution(s) && #[trigger] compatible(*self, s) implies digits@.contains(s(pr, pc) as usize) by {
                assert(self.at(pr, pc).has(s(pr, pc)));
                assert(1 <= s(pr, pc) <= 9);
                lemma_digit_seq(cellp.0, 10, s(pr, pc));
            }
            if n0 == 0 && solutions.len() == 1 && solved_self {
                assert forall|s: spec_fn(int, int) -> int| is_solution(s) && #[trigger] compatible(*self, s) implies compatible(solutions@[0], s) by {
                }
            }
        }
    }
}

/// A solved grid found in the branch `p = d` has the single candidate `d` at `p`, and is
/// narrower than the grid branched on.
pub proof fn lemma_branch_found(grid: Grid, copy0: Grid, x: Grid, p: Point, d: int)
    requires
        p.0 < 9,
        p.1 < 9,
        1 <= d <= 9,
        narrower(copy0, grid),
        copy0.at(p.0 as int, p.1 as int) == Cell(1u16 << d as u16),
        found_in(x, copy0) || (solved_spec(x) && narrower(x, copy0)),
    ensures
        x.at(p.0 as int, p.1 as int) == Cell(1u16 << d as u16),
        found_in(x, grid),
{
    crate::grid::lemma_narrower_trans(x, copy0, grid);
    lemma_solved_nonzero(x, p.0 as int, p.1 as int);
    assert(x.at(p.0 as int, p.1 as int).within(copy0.at(p.0 as int, p.1 as int)));
    crate::bits::lemma_inside_single(x.at(p.0 as int, p.1 as int).0, d as u16);
}

/// Appending a grid tagged with a new digit keeps the found grids pairwise different.
pub proof fn lemma_push_distinct(before: Seq<Grid>, y: Grid, n0: int, solved_self: bool, grid: Grid, pr: int, pc: int, digits: Seq<usize>, t: int)
    requires
        0 <= n0 <= before.len(),
        0 <= pr < 9,
        0 <= pc < 9,
        0 <= t < digits.len(),
        digits.no_duplicates(),
        forall|w: int| 0 <= w < digits.len() ==> 1 <= #[trigger] digits[w] <= 9,
        solved_self ==> before[n0] == grid,
        grid.at(pr, pc).size() > 1,
        forall|u: int| n0 + (if solved_self { 1int } else { 0int }) <= u < before.len() ==> tagged(#[trigger] before[u], pr, pc, digits, t),
        before.len() >= n0 + (if solved_self { 1int } else { 0int }),
        y.at(pr, pc) == Cell(1u16 << digits[t] as u16),
        distinct_from(before, n0),
    ensures
        distinct_from(before.push(y), n0),
{
    let v = before.push(y);
    assert forall|a: int, b: int| n0 <= a < b < v.len() implies differs(#[trigger] v[a], #[trigger] v[b]) by {
        if b < before.len() {
            assert(v[a] == before[a] && v[b] == before[b]);
        } else {
            assert(v[a] == before[a] && v[b] == y);
            lemma_tag_differs(before, y, a, n0, solved_self, grid, pr, pc, digits, t);
        }
    }
}

/// A grid tagged with a new digit differs from the grids found before it.
pub proof fn lemma_tag_differs(before: Seq<Grid>, y: Grid, a: int, n0: int, solved_self: bool, grid: Grid, pr: int, pc: int, digits: Seq<usize>, t: int)
    requires
        n0 <= a < before.len(),
        0 <= pr < 9,
        0 <= pc < 9,
        0 <= t < digits.len(),
        digits.no_duplicates(),
        forall|w: int| 0 <= w < digits.len() ==> 1 <= #[trigger] digits[w] <= 9,
        solved_self ==> before[n0] == grid,
        grid.at(pr, pc).size() > 1,
        forall|u: int| n0 + (if solved_self { 1int } else { 0int }) <= u < before.len() ==> tagged(#[trigger] before[u], pr, pc, digits, t),
        before.len() >= n0 + (if solved_self { 1int } else { 0int }),
        y.at(pr, pc) == Cell(1u16 << digits[t] as u16),
    ensures
        differs(before[a], y),
{
    if solved_self && a == n0 {
        lemma_single_count(digits[t] as u16);
        assert(before[a].at(pr, pc) != y.at(pr, pc));
    } else {
        assert(tagged(before[a], pr, pc, digits, t));
        let w = choose|w: int| 0 <= w < t && before[a].at(pr, pc) == Cell(1u16 << #[trigger] digits[w] as u16);
        assert(digits[w] != digits[t]);
        lemma_bit_single(digits[w] as u16, digits[w] as int);
        lemma_bit_single(digits[t] as u16, digits[w] as int);
        assert(before[a].at(pr, pc) != y.at(pr, pc));
    }
}

} // verus!
