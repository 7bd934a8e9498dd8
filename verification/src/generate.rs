//! Puzzle generation: a random grid is solved, then thinned out while its solution stays unique.
use vstd::prelude::*;
use crate::bits::{has_bit, subset};
use crate::cell::{Cell, ALL};
use crate::grid::{Grid, Group, Kind, Point, box_index, unit_row, unit_col, solved_spec, narrower, updated, has_empty,
    lemma_narrower_keeps, lemma_box_point_in_box};
use crate::level::Level;
use crate::model::{is_solution, compatible, narrows};
use crate::reduce::{Strategy, StrategySet, join_names, used_names, index_of, reduces_to, strategies_solve, lemma_solve_by_run,
    lemma_empty_unsolvable};
use crate::search::{covers, found_in, has_solution};
use crate::unique::{unique_solution, same_board, board_of, lemma_solved_grid_is_sudoku};
use crate::strategies::box_line::lemma_cell_in_box;

verus! {

/// A generated puzzle with its solution.
pub struct Game {
    pub level: Level,
    /// Number of given cells of the puzzle.
    pub clues: u8,
    /// The strategies that solve the puzzle, in alphabetical order, separated by `", "`.
    pub strategies: String,
    pub puzzle: Box<Grid>,
    /// The solution, with the puzzle's given cells marked as given.
    pub solution: Box<Grid>,
}

/// What one round of generation gave.
pub enum Attempt {
    /// The random starting grid has no solution.
    Unsolvable,
    /// The thinned-out puzzle is not solved by the strategies, not of the requested level, or
    /// does not have a unique solution.
    Rejected,
    /// A puzzle of the requested level.
    Accepted(Game),
}

/// `perm` lists the digits 1 to 9, each once.
pub open spec fn digit_order(perm: Seq<u16>) -> bool {
    &&& perm.len() == 9
    &&& perm.no_duplicates()
    &&& forall|i: int| 0 <= i < 9 ==> 1 <= #[trigger] perm[i] <= 9
}

/// No cell of `g` is a given.
pub open spec fn no_givens(g: Grid) -> bool {
    forall|r: int, c: int| 0 <= r < 9 && 0 <= c < 9 ==> !#[trigger] g.orig[r][c]
}

/// Box `b` of `g` holds the digits of `perm` in order as single candidates, every other cell
/// has all nine candidates, and no cell is a given.
pub open spec fn seeded(g: Grid, b: int, perm: Seq<u16>) -> bool {
    &&& no_givens(g)
    &&& forall|r: int, c: int|
        0 <= r < 9 && 0 <= c < 9 ==> #[trigger] g.at(r, c) == if box_index(r, c) == b {
            Cell(1u16 << perm[r % 3 * 3 + c % 3])
        } else {
            Cell(ALL)
        }
}

/// Number of cells with exactly one candidate among the first `n` cells in row-major order.
pub open spec fn single_count(g: Grid, n: int) -> nat
    decreases n,
{
    if n <= 0 {
        0
    } else {
        single_count(g, n - 1) + if g.at((n - 1) / 9, (n - 1) % 9).size() == 1 {
            1nat
        } else {
            0nat
        }
    }
}

/// `g` with the cell at `p` opened: given all nine candidates.
pub open spec fn opened(g: Grid, p: Point) -> Grid {
    choose|x: Grid| updated(g, x, p.0 as int, p.1 as int, Cell(ALL))
}

/// One thinning step: the cell at `p` is opened, unless several completed sudokus would then
/// fit the grid.
pub open spec fn open_step(g: Grid, p: Point) -> Grid {
    let x = opened(g, p);
    if has_solution(x) && !unique_solution(x) {
        g
    } else {
        x
    }
}

/// The grid that thinning `g` along `order` gives: the points are taken from the last to the
/// first, each with one thinning step.
pub open spec fn thinned(g: Grid, order: Seq<Point>) -> Grid
    decreases order.len(),
{
    if order.len() == 0 {
        g
    } else {
        thinned(open_step(g, order.last()), order.drop_last())
    }
}

/// Every point of `order` is a cell of the grid.
pub open spec fn on_grid(order: Seq<Point>) -> bool {
    forall|t: int| 0 <= t < order.len() ==> (#[trigger] order[t]).0 < 9 && order[t].1 < 9
}

/// A grid updated at `p` to all nine candidates is the opened grid.
proof fn lemma_opened(g: Grid, x: Grid, p: Point)
    requires
        p.0 < 9,
        p.1 < 9,
        updated(g, x, p.0 as int, p.1 as int, Cell(ALL)),
    ensures
        opened(g, p) == x,
{
    let y = opened(g, p);
    assert(updated(g, y, p.0 as int, p.1 as int, Cell(ALL)));
    assert forall|r: int, c: int| 0 <= r < 9 && 0 <= c < 9 implies #[trigger] y.at(r, c) == x.at(r, c) by {}
    crate::grid::lemma_same_grid(y, x);
}

/// The opened grid is the grid with the cell at `p` given all nine candidates.
proof fn lemma_opened_updated(g: Grid, p: Point)
    requires
        p.0 < 9,
        p.1 < 9,
    ensures
        updated(g, opened(g, p), p.0 as int, p.1 as int, Cell(ALL)),
{
    broadcast use vstd::array::group_array_axioms;
    let x = opened(g, p);
    let row = vstd::array::spec_array_update(g.cells[p.0 as int], p.1 as int, Cell(ALL));
    let w = Grid { orig: g.orig, cells: vstd::array::spec_array_update(g.cells, p.0 as int, row) };
    assert(w.cells@ == g.cells@.update(p.0 as int, row));
    assert(row@ == g.cells[p.0 as int]@.update(p.1 as int, Cell(ALL)));
    assert forall|r: int, c: int| 0 <= r < 9 && 0 <= c < 9 && !(r == p.0 && c == p.1) implies #[trigger] w.at(r, c) == g.at(r, c) by {
        assert(w.cells[r] == w.cells@[r]);
        if r == p.0 {
            assert(w.cells[r] == row);
            assert(row[c] == row@[c]);
        }
    }
    assert(w.at(p.0 as int, p.1 as int) == Cell(ALL)) by {
        assert(w.cells[p.0 as int] == row);
        assert(row[p.1 as int] == row@[p.1 as int]);
    }
    assert(updated(g, w, p.0 as int, p.1 as int, Cell(ALL)));
}

/// Opening a cell of a well-formed grid without givens keeps it so, keeps every completed
/// sudoku that fitted it, and only widens the grid.
proof fn lemma_opened_keeps(g: Grid, p: Point)
    requires
        p.0 < 9,
        p.1 < 9,
        g.wf(),
        no_givens(g),
    ensures
        opened(g, p).wf(),
        no_givens(opened(g, p)),
        has_solution(g) ==> has_solution(opened(g, p)),
        narrower(g, opened(g, p)),
{
    let x = opened(g, p);
    lemma_opened_updated(g, p);
    assert(ALL & !ALL == 0) by (bit_vector);
    assert forall|r: int, c: int| 0 <= r < 9 && 0 <= c < 9 implies (#[trigger] g.at(r, c)).within(x.at(r, c)) by {
        if r == p.0 && c == p.1 {
            assert(g.at(r, c).digits_only());
            lemma_within_all(g.at(r, c).0);
        } else {
            crate::bits::lemma_subset_refl(g.at(r, c).0);
        }
    }
    assert forall|r: int, c: int| 0 <= r < 9 && 0 <= c < 9 implies (#[trigger] x.at(r, c)).digits_only() by {
        if !(r == p.0 && c == p.1) {
            assert(x.at(r, c) == g.at(r, c));
        }
    }
    if has_solution(g) {
        let s = choose|s: spec_fn(int, int) -> int| is_solution(s) && #[trigger] compatible(g, s);
        assert forall|r: int, c: int| 0 <= r < 9 && 0 <= c < 9 implies (#[trigger] x.at(r, c)).has(s(r, c)) by {
            assert(g.at(r, c).has(s(r, c)));
            if r == p.0 && c == p.1 {
                assert(1 <= s(r, c) <= 9);
                let d = s(r, c) as u16;
                assert(ALL & (1u16 << d) != 0) by (bit_vector)
                    requires
                        1 <= d <= 9,
                        ALL == 0b_111111111_0u16,
                ;
            } else {
                assert(x.at(r, c) == g.at(r, c));
            }
        }
        assert(compatible(x, s));
    }
}

/// Thinning a well-formed grid without givens that has exactly one completed sudoku gives such
/// a grid again.
pub proof fn lemma_thinned_keeps(g: Grid, order: Seq<Point>)
    requires
        g.wf(),
        no_givens(g),
        unique_solution(g),
        on_grid(order),
    ensures
        thinned(g, order).wf(),
        no_givens(thinned(g, order)),
        unique_solution(thinned(g, order)),
    decreases order.len(),
{
    if order.len() > 0 {
        let p = order.last();
        assert(order[order.len() - 1] == p);
        lemma_opened_keeps(g, p);
        let next = open_step(g, p);
        assert(on_grid(order.drop_last())) by {
            assert forall|t: int| 0 <= t < order.drop_last().len() implies (#[trigger] order.drop_last()[t]).0 < 9
                && order.drop_last()[t].1 < 9 by {
                assert(order.drop_last()[t] == order[t]);
            }
        }
        lemma_thinned_keeps(next, order.drop_last());
    }
}

/// A digit-only mask is inside `ALL`, and one that holds all of `ALL` is `ALL`.
proof fn lemma_within_all(x: u16)
    requires
        x & !ALL == 0,
    ensures
        subset(x, ALL),
        subset(ALL, x) ==> x == ALL,
{
    assert(x & 0b_111111111_0u16 == x && (0b_111111111_0u16 & x == 0b_111111111_0u16 ==> x == 0b_111111111_0u16)) by (bit_vector)
        requires
            x & !0b_111111111_0u16 == 0,
    ;
}

/// Opening the same cell keeps one grid inside another.
proof fn lemma_opened_narrower(a: Grid, b: Grid, p: Point)
    requires
        p.0 < 9,
        p.1 < 9,
        narrower(a, b),
    ensures
        narrower(opened(a, p), opened(b, p)),
{
    lemma_opened_updated(a, p);
    lemma_opened_updated(b, p);
    assert forall|r: int, c: int| 0 <= r < 9 && 0 <= c < 9 implies (#[trigger] opened(a, p).at(r, c)).within(opened(b, p).at(r, c)) by {
        if r == p.0 && c == p.1 {
            crate::bits::lemma_subset_refl(ALL);
        } else {
            assert(a.at(r, c).within(b.at(r, c)));
        }
    }
}

/// Several completed sudokus that fit a grid fit every grid wider than it.
proof fn lemma_several_wider(a: Grid, b: Grid)
    requires
        narrower(a, b),
        has_solution(a),
        !unique_solution(a),
    ensures
        has_solution(b),
        !unique_solution(b),
{
    let s = choose|s: spec_fn(int, int) -> int| is_solution(s) && #[trigger] compatible(a, s);
    crate::model::lemma_compatible_wider(a, b, s);
    let (s1, s2) = choose|s1: spec_fn(int, int) -> int, s2: spec_fn(int, int) -> int|
        is_solution(s1) && #[trigger] compatible(a, s1) && is_solution(s2) && #[trigger] compatible(a, s2) && !same_board(s1, s2);
    crate::model::lemma_compatible_wider(a, b, s1);
    crate::model::lemma_compatible_wider(a, b, s2);
}

/// The cell at `p` cannot be given back to a puzzle: it is open, or opening it lets several
/// completed sudokus fit.
pub open spec fn minimal_at(g: Grid, p: Point) -> bool {
    cell_at(g, p) == Cell(ALL) || (has_solution(opened(g, p)) && !unique_solution(opened(g, p)))
}

/// The candidates of the cell at `p`.
pub open spec fn cell_at(g: Grid, p: Point) -> Cell {
    g.at(p.0 as int, p.1 as int)
}

/// Thinning only widens a well-formed grid without givens, and keeps it so.
pub proof fn lemma_thinned_wider(g: Grid, order: Seq<Point>)
    requires
        g.wf(),
        no_givens(g),
        on_grid(order),
    ensures
        thinned(g, order).wf(),
        no_givens(thinned(g, order)),
        narrower(g, thinned(g, order)),
    decreases order.len(),
{
    if order.len() == 0 {
        crate::grid::lemma_narrower_refl(g);
    } else {
        let p = order.last();
        assert(order[order.len() - 1] == p);
        lemma_opened_keeps(g, p);
        let next = open_step(g, p);
        if next == g {
            crate::grid::lemma_narrower_refl(g);
        }
        lemma_on_grid_drop(order);
        lemma_thinned_wider(next, order.drop_last());
        crate::grid::lemma_narrower_trans(g, next, thinned(next, order.drop_last()));
    }
}

/// Each cell of a thinned grid is the cell of the grid it came from, or open.
pub proof fn lemma_thinned_cells(g: Grid, order: Seq<Point>)
    requires
        on_grid(order),
    ensures
        forall|r: int, c: int|
            0 <= r < 9 && 0 <= c < 9 ==> #[trigger] thinned(g, order).at(r, c) == g.at(r, c) || thinned(g, order).at(r, c)
                == Cell(ALL),
    decreases order.len(),
{
    if order.len() > 0 {
        let p = order.last();
        assert(order[order.len() - 1] == p);
        let next = open_step(g, p);
        lemma_opened_updated(g, p);
        lemma_on_grid_drop(order);
        lemma_thinned_cells(next, order.drop_last());
        assert forall|r: int, c: int| 0 <= r < 9 && 0 <= c < 9 implies #[trigger] thinned(g, order).at(r, c) == g.at(r, c)
            || thinned(g, order).at(r, c) == Cell(ALL) by {
            assert(thinned(next, order.drop_last()).at(r, c) == next.at(r, c) || thinned(next, order.drop_last()).at(r, c) == Cell(ALL));
            if !(r == p.0 && c == p.1) {
                assert(opened(g, p).at(r, c) == g.at(r, c));
            }
        }
    }
}

proof fn lemma_on_grid_drop(order: Seq<Point>)
    requires
        on_grid(order),
        order.len() > 0,
    ensures
        on_grid(order.drop_last()),
{
    assert forall|t: int| 0 <= t < order.drop_last().len() implies (#[trigger] order.drop_last()[t]).0 < 9
        && order.drop_last()[t].1 < 9 by {
        assert(order.drop_last()[t] == order[t]);
    }
}

/// Thinning along `order` leaves no cell of `order` that could be opened: each is open, or
/// opening it in the result lets several completed sudokus fit.
pub proof fn lemma_thinned_minimal(g: Grid, order: Seq<Point>)
    requires
        g.wf(),
        no_givens(g),
        on_grid(order),
    ensures
        forall|t: int| 0 <= t < order.len() ==> minimal_at(thinned(g, order), #[trigger] order[t]),
    decreases order.len(),
{
    if order.len() > 0 {
        let p = order.last();
        assert(order[order.len() - 1] == p);
        let rest = order.drop_last();
        lemma_opened_keeps(g, p);
        let next = open_step(g, p);
        lemma_on_grid_drop(order);
        lemma_thinned_minimal(next, rest);
        lemma_thinned_wider(next, rest);
        let fin = thinned(next, rest);
        assert(fin == thinned(g, order));
        if next == g && has_solution(opened(g, p)) && !unique_solution(opened(g, p)) {
            lemma_opened_narrower(g, fin, p);
            lemma_several_wider(opened(g, p), opened(fin, p));
        } else {
            lemma_opened_updated(g, p);
            assert(next == opened(g, p));
            assert(next.at(p.0 as int, p.1 as int) == Cell(ALL));
            assert(next.at(p.0 as int, p.1 as int).within(fin.at(p.0 as int, p.1 as int)));
            assert(fin.at(p.0 as int, p.1 as int).digits_only());
            lemma_within_all(fin.at(p.0 as int, p.1 as int).0);
        }
        assert forall|t: int| 0 <= t < order.len() implies minimal_at(thinned(g, order), #[trigger] order[t]) by {
            if t < order.len() - 1 {
                assert(order[t] == rest[t]);
            }
        }
    }
}

/// `g` is a starting grid of generation: one box holds the digits 1 to 9 in some order as
/// single candidates, every other cell all nine, and no cell is a given.
pub open spec fn start_grid(g: Grid) -> bool {
    exists|b: int, perm: Seq<u16>| 0 <= b < 9 && digit_order(perm) && #[trigger] seeded(g, b, perm)
}

/// A thinned puzzle that a round of generation turns down for `level`: well-formed, without
/// givens, with exactly one completed sudoku, and either the level is not the easy one (the
/// only level the strategies reach) or the strategies alone do not solve it.
pub open spec fn rejected_puzzle(puzzle: Grid, level: Level) -> bool {
    &&& puzzle.wf()
    &&& no_givens(puzzle)
    &&& unique_solution(puzzle)
    &&& level != Level::Easy || !strategies_solve(puzzle)
}

/// A grid that some completed sudoku fits has no empty cell.
proof fn lemma_no_empty(g: Grid)
    requires
        has_solution(g),
    ensures
        !has_empty(g),
{
    let s = choose|s: spec_fn(int, int) -> int| is_solution(s) && #[trigger] compatible(g, s);
    if has_empty(g) {
        let (r, c) = choose|r: int, c: int| 0 <= r < 9 && 0 <= c < 9 && (#[trigger] g.at(r, c)).0 == 0;
        assert(g.at(r, c).has(s(r, c)));
        crate::bits::lemma_bit_zero(s(r, c));
    }
}

/// Every cell of the grid is in `order`.
pub open spec fn covers_grid(order: Seq<Point>) -> bool {
    forall|r: int, c: int| 0 <= r < 9 && 0 <= c < 9 ==> #[trigger] order.contains((r as usize, c as usize))
}

/// A puzzle a round of generation can draw: a completed sudoku of a starting grid, thinned
/// along an order of all its cells.
pub open spec fn drawn_puzzle(puzzle: Grid) -> bool {
    exists|start: Grid, first: Grid, order: Seq<Point>|
        #[trigger] start_grid(start) && found_in(first, start) && on_grid(order) && covers_grid(order) && puzzle
            == #[trigger] thinned(first, order)
}

/// The puzzle thinned from a solution of a starting grid along a shuffle of all cells is drawn.
proof fn lemma_drawn(start: Grid, first: Grid, listed: Seq<Point>, order: Seq<Point>)
    requires
        start_grid(start),
        found_in(first, start),
        listed.len() == 81,
        forall|t: int| 0 <= t < 81 ==> #[trigger] listed[t] == ((t / 9) as usize, (t % 9) as usize),
        order.to_multiset() == listed.to_multiset(),
        on_grid(order),
    ensures
        drawn_puzzle(thinned(first, order)),
{
    assert forall|r: int, c: int| 0 <= r < 9 && 0 <= c < 9 implies #[trigger] order.contains((r as usize, c as usize)) by {
        let u = r * 9 + c;
        assert(u / 9 == r && u % 9 == c) by (nonlinear_arith)
            requires
                u == r * 9 + c,
                0 <= c < 9,
        ;
        assert(listed[u] == (r as usize, c as usize));
        assert(listed.contains((r as usize, c as usize)));
        vstd::seq_lib::to_multiset_contains(listed, (r as usize, c as usize));
        vstd::seq_lib::to_multiset_contains(order, (r as usize, c as usize));
    }
    assert(covers_grid(order));
}

/// A game that judging accepts for `level` from `puzzle`: the puzzle itself, an easy one with
/// exactly one completed sudoku, which `reduce` takes to a solved grid; that grid is the
/// solution (the givens marked), and the names are those of the strategies that ran on the
/// way, each once, in alphabetical order; the number of givens is counted.
pub open spec fn judged_game(game: Game, puzzle: Grid, level: Level) -> bool {
    &&& *game.puzzle == puzzle
    &&& game.level == level
    &&& level == Level::Easy
    &&& solved_spec(*game.solution)
    &&& forall|r: int, c: int|
        0 <= r < 9 && 0 <= c < 9 ==> (#[trigger] game.solution.at(r, c)).within(puzzle.at(r, c))
    &&& forall|r: int, c: int|
        0 <= r < 9 && 0 <= c < 9 ==> #[trigger] game.solution.orig[r][c] == (puzzle.at(r, c).size() == 1)
    &&& game.clues == single_count(puzzle, 81)
    &&& covers(*game.solution, puzzle)
    &&& unique_solution(puzzle)
    &&& exists|h: Grid, steps: Seq<Strategy>, used: [bool; 9]|
        #[trigger] reduces_to(puzzle, h, steps) && solved_spec(h) && game.solution.cells == h.cells
            && (forall|s: Strategy| #[trigger] used[index_of(s)] == steps.contains(s))
            && game.strategies@ == join_names(#[trigger] used_names(used, 9))
}

/// What one round of generation for `level` can come out as: a game that generation accepts,
/// a starting grid without a completed sudoku, or a drawn puzzle turned down.
pub open spec fn round_outcome(result: Attempt, level: Level) -> bool {
    match result {
        Attempt::Accepted(game) => accepted_game(game, level),
        Attempt::Unsolvable => exists|start: Grid| #[trigger] start_grid(start) && !has_solution(start),
        Attempt::Rejected => exists|puzzle: Grid| #[trigger] drawn_puzzle(puzzle) && rejected_puzzle(puzzle, level),
    }
}

/// A game that generation accepts for `level`: judged so from a drawn puzzle without givens
/// that cannot lose another given, and whose every cell is either the solution's digit or
/// open.
pub open spec fn accepted_game(game: Game, level: Level) -> bool {
    &&& judged_game(game, *game.puzzle, level)
    &&& game.puzzle.wf()
    &&& no_givens(*game.puzzle)
    &&& forall|r: int, c: int| 0 <= r < 9 && 0 <= c < 9 ==> #[trigger] minimal_at(*game.puzzle, (r as usize, c as usize))
    &&& drawn_puzzle(*game.puzzle)
    &&& forall|r: int, c: int|
        0 <= r < 9 && 0 <= c < 9 ==> #[trigger] game.puzzle.at(r, c) == game.solution.at(r, c) || game.puzzle.at(r, c) == Cell(ALL)
}

/// The `j`-th cell of box `b` is at position `j` within its box.
pub proof fn lemma_box_point_index(b: int, j: int)
    requires
        0 <= b < 9,
        0 <= j < 9,
    ensures
        box_index(unit_row(Kind::Box, b, j), unit_col(Kind::Box, b, j)) == b,
        unit_row(Kind::Box, b, j) % 3 * 3 + unit_col(Kind::Box, b, j) % 3 == j,
{
    lemma_box_point_in_box(b, j);
    assert((b / 3 * 3 + j / 3) % 3 * 3 + (b % 3 * 3 + j % 3) % 3 == j) by (nonlinear_arith)
        requires
            0 <= b < 9,
            0 <= j < 9,
    ;
}

/// Grids with the same cells have the same digit counts.
proof fn lemma_count_same(a: Grid, b: Grid, k: Kind, i: int, d: int, n: int)
    requires
        forall|r: int, c: int| #[trigger] a.at(r, c) == b.at(r, c),
    ensures
        crate::grid::digit_count(a, k, i, d, n) == crate::grid::digit_count(b, k, i, d, n),
    decreases n,
{
    if n > 0 {
        lemma_count_same(a, b, k, i, d, n - 1);
        assert(a.unit_cell(k, i, n - 1) == b.unit_cell(k, i, n - 1));
    }
}

proof fn lemma_unit_solved_same(a: Grid, b: Grid, k: Kind, i: int)
    requires
        a.cells == b.cells,
        crate::grid::unit_solved(a, k, i),
    ensures
        crate::grid::unit_solved(b, k, i),
{
    assert forall|j: int| 0 <= j < 9 implies (#[trigger] b.unit_cell(k, i, j)).0 != 0 by {
        assert(a.unit_cell(k, i, j).0 != 0);
    }
    assert forall|d: int| 1 <= d <= 9 implies #[trigger] crate::grid::digit_count(b, k, i, d, 9) == 1 by {
        lemma_count_same(a, b, k, i, d, 9);
        assert(crate::grid::digit_count(a, k, i, d, 9) == 1);
    }
}

/// Grids with the same cells are solved alike, kind by kind.
proof fn lemma_kind_solved_same(a: Grid, b: Grid, k: Kind)
    requires
        a.cells == b.cells,
        crate::grid::kind_solved(a, k),
    ensures
        crate::grid::kind_solved(b, k),
{
    assert forall|i: int| 0 <= i < 9 implies #[trigger] crate::grid::unit_solved(b, k, i) by {
        assert(crate::grid::unit_solved(a, k, i));
        lemma_unit_solved_same(a, b, k, i);
    }
}

/// Grids with the same cells are solved alike.
proof fn lemma_solved_same(a: Grid, b: Grid)
    requires
        a.cells == b.cells,
    ensures
        solved_spec(a) == solved_spec(b),
{
    if solved_spec(a) {
        lemma_kind_solved_same(a, b, Kind::Box);
        lemma_kind_solved_same(a, b, Kind::Col);
        lemma_kind_solved_same(a, b, Kind::Row);
    }
    if solved_spec(b) {
        lemma_kind_solved_same(b, a, Kind::Box);
        lemma_kind_solved_same(b, a, Kind::Col);
        lemma_kind_solved_same(b, a, Kind::Row);
    }
}

/// A puzzle whose completed sudokus all fit one solved grid inside it has exactly one.
pub proof fn lemma_unique_puzzle(puzzle: Grid, solution: Grid)
    requires
        puzzle.wf(),
        solved_spec(solution),
        forall|r: int, c: int| 0 <= r < 9 && 0 <= c < 9 ==> (#[trigger] solution.at(r, c)).within(puzzle.at(r, c)),
        covers(solution, puzzle),
    ensures
        unique_solution(puzzle),
{
    assert forall|r: int, c: int| 0 <= r < 9 && 0 <= c < 9 implies (#[trigger] solution.at(r, c)).digits_only() by {
        assert(puzzle.at(r, c).digits_only());
        crate::bits::lemma_subset_within_mask(solution.at(r, c).0, puzzle.at(r, c).0, ALL);
    }
    lemma_solved_grid_is_sudoku(solution);
    let s = board_of(solution);
    assert forall|r: int, c: int| 0 <= r < 9 && 0 <= c < 9 implies (#[trigger] puzzle.at(r, c)).has(s(r, c)) by {
        assert(solution.at(r, c).has(s(r, c)));
        crate::bits::lemma_subset_bit(solution.at(r, c).0, puzzle.at(r, c).0, s(r, c));
    }
    assert(compatible(puzzle, s));
    assert forall|s1: spec_fn(int, int) -> int, s2: spec_fn(int, int) -> int|
        is_solution(s1) && #[trigger] compatible(puzzle, s1) && is_solution(s2) && #[trigger] compatible(puzzle, s2)
            implies same_board(s1, s2) by {
        assert(compatible(solution, s1));
        assert(compatible(solution, s2));
        assert forall|r: int, c: int| 0 <= r < 9 && 0 <= c < 9 implies #[trigger] s1(r, c) == s2(r, c) by {
            assert(solution.at(r, c).has(s1(r, c)));
            assert(solution.at(r, c).has(s2(r, c)));
        }
    }
}

/// A single digit bit is a digit-only mask below 1024.
proof fn lemma_digit_cell(d: u16)
    requires
        1 <= d <= 9,
    ensures
        Cell(1u16 << d).digits_only(),
        Cell(1u16 << d).fits(),
{
    assert((1u16 << d) & !ALL == 0 && (1u16 << d) < 1024) by (bit_vector)
        requires
            1 <= d <= 9,
            ALL == 0b_111111111_0u16,
    ;
}

/// Returns the starting grid with box `b` holding the digits of `perm` in order as single
/// candidates, all nine candidates everywhere else, and no givens.
pub fn seeded_grid(b: usize, perm: &Vec<u16>) -> (grid: Grid)
    requires
        b < 9,
        digit_order(perm@),
    ensures
        seeded(grid, b as int, perm@),
        grid.wf(),
{
    let mut grid = Grid { orig: [[false; 9]; 9], cells: [[Cell(ALL); 9]; 9] };
    let boxes = Group::new(Kind::Box);
    let mut index: usize = 0;
    while index < 9
        invariant
            index <= 9,
            b < 9,
            boxes.wf(),
            boxes.kind == Kind::Box,
            digit_order(perm@),
            no_givens(grid),
            forall|r: int, c: int|
                0 <= r < 9 && 0 <= c < 9 ==> #[trigger] grid.at(r, c) == if box_index(r, c) == b && r % 3 * 3 + c % 3
                    < index {
                    Cell(1u16 << perm@[r % 3 * 3 + c % 3])
                } else {
                    Cell(ALL)
                },
        decreases 9 - index,
    {
        let p = boxes.cells[b][index];
        let ghost before = grid;
        proof {
            lemma_box_point_index(b as int, index as int);
        }
        grid.set_at(p.0, p.1, Cell(1u16 << perm[index]));
        proof {
            assert forall|r: int, c: int| 0 <= r < 9 && 0 <= c < 9 implies #[trigger] grid.at(r, c) == if box_index(r, c)
                == b && r % 3 * 3 + c % 3 < index + 1 {
                Cell(1u16 << perm@[r % 3 * 3 + c % 3])
            } else {
                Cell(ALL)
            } by {
                lemma_cell_in_box(r, c);
                if r == p.0 && c == p.1 {
                } else {
                    assert(grid.at(r, c) == before.at(r, c));
                }
            }
        }
        index += 1;
    }
    proof {
        assert(seeded(grid, b as int, perm@));
        assert forall|r: int, c: int| 0 <= r < 9 && 0 <= c < 9 implies (#[trigger] grid.at(r, c)).digits_only() by {
            if box_index(r, c) == b {
                lemma_cell_in_box(r, c);
                lemma_digit_cell(perm@[r % 3 * 3 + c % 3]);
            } else {
                assert(ALL & !ALL == 0) by (bit_vector);
            }
        }
    }
    grid
}

impl Grid {
    /// randomize returns a random starting grid: the digits 1 to 9 in random order as single
    /// candidates in one box chosen at random, all nine candidates everywhere else.
    pub fn randomize() -> (grid: Grid)
        ensures
            exists|b: int, perm: Seq<u16>| 0 <= b < 9 && digit_order(perm) && #[trigger] seeded(grid, b, perm),
            grid.wf(),
    {
        let mut digits: Vec<u16> = Vec::new();
        let mut i: u16 = 1;
        while i <= 9
            invariant
                1 <= i <= 10,
                digits.len() == i - 1,
                forall|t: int| 0 <= t < digits.len() ==> #[trigger] digits@[t] == t + 1,
            decreases 10 - i,
        {
            digits.push(i);
            i += 1;
        }
        let ghost listed = digits@;
        proof {
            assert(listed.no_duplicates());
        }
        crate::rng::shuffle(&mut digits);
        proof {
            listed.lemma_multiset_has_no_duplicates();
            digits@.lemma_multiset_has_no_duplicates_conv();
            vstd::seq_lib::to_multiset_len(listed);
            vstd::seq_lib::to_multiset_len(digits@);
            assert forall|t: int| 0 <= t < 9 implies 1 <= #[trigger] digits@[t] <= 9 by {
                vstd::seq_lib::to_multiset_contains(digits@, digits@[t]);
                vstd::seq_lib::to_multiset_contains(listed, digits@[t]);
                assert(digits@.contains(digits@[t]));
            }
            assert(digit_order(digits@));
        }
        let b = crate::rng::random_below(9);
        seeded_grid(b, &digits)
    }

    /// thin opens cells of a grid to make a puzzle: taking the points of `order` from the last
    /// to the first, it gives each cell all nine candidates, and puts the cell back when the
    /// search then finds more than one solution.
    pub fn thin(grid: Grid, order: Vec<Point>) -> (puzzle: Grid)
        requires
            grid.wf(),
            no_givens(grid),
            on_grid(order@),
        ensures
            puzzle == thinned(grid, order@),
            puzzle.wf(),
            no_givens(puzzle),
            forall|t: int| 0 <= t < order.len() ==> minimal_at(puzzle, #[trigger] order@[t]),
    {
        proof {
            lemma_thinned_minimal(grid, order@);
        }
        let ghost g0 = grid;
        let ghost o0 = order@;
        let mut grid = grid;
        let mut points = order;
        let mut solutions: Vec<Grid> = Vec::new();
        while points.len() > 0
            invariant
                grid.wf(),
                no_givens(grid),
                on_grid(points@),
                thinned(grid, points@) == thinned(g0, o0),
            decreases points.len(),
        {
            let ghost before = grid;
            let ghost pts = points@;
            let curr = points.pop().unwrap();
            proof {
                assert(pts[pts.len() - 1] == curr);
                assert(points@ == pts.drop_last());
                lemma_opened_keeps(before, curr);
            }
            let old_cell = grid.get(curr);
            grid.set_at(curr.0, curr.1, Cell(ALL));
            proof {
                lemma_opened(before, grid, curr);
            }
            solutions.truncate(0);
            proof {
                crate::search::lemma_wf_fits(grid);
            }
            grid.search(&mut solutions);
            if solutions.len() > 1 {
                grid.set_at(curr.0, curr.1, old_cell);
                proof {
                    assert forall|r: int, c: int| 0 <= r < 9 && 0 <= c < 9 implies #[trigger] grid.at(r, c) == before.at(r, c) by {}
                    crate::grid::lemma_same_grid(grid, before);
                }
            }
            proof {
                assert(grid == open_step(before, curr));
                assert(on_grid(points@)) by {
                    assert forall|t: int| 0 <= t < points@.len() implies (#[trigger] points@[t]).0 < 9 && points@[t].1 < 9 by {
                        assert(points@[t] == pts[t]);
                    }
                }
            }
        }
        grid
    }

    /// generate makes a puzzle of the given level: it runs rounds of generation until one is
    /// accepted, each round using up one of `max_attempts`, and gives `None` when all of them
    /// fail. Only easy puzzles are ever accepted.
    pub fn generate(level: &Level, max_attempts: &u32) -> (game: Option<Game>)
        ensures
            game matches Some(g) ==> accepted_game(g, *level),
            game is None ==> exists|rounds: Seq<Attempt>|
                rounds.len() == *max_attempts && forall|i: int|
                    0 <= i < rounds.len() ==> round_outcome(#[trigger] rounds[i], *level) && !(rounds[i] is Accepted),
            *level != Level::Easy || *max_attempts == 0 ==> game is None,
    {
        let mut attempts = *max_attempts;
        let ghost mut rounds: Seq<Attempt> = Seq::empty();
        while attempts > 0
            invariant
                attempts <= *max_attempts,
                rounds.len() == *max_attempts - attempts,
                forall|i: int|
                    0 <= i < rounds.len() ==> round_outcome(#[trigger] rounds[i], *level) && !(rounds[i] is Accepted),
            decreases attempts,
        {
            attempts -= 1;
            let result = Grid::generate_attempt(level);
            match result {
                Attempt::Accepted(game) => {
                    return Some(game);
                },
                _ => {},
            }
            proof {
                let prev = rounds;
                rounds = rounds.push(result);
                assert forall|i: int| 0 <= i < rounds.len() implies round_outcome(#[trigger] rounds[i], *level) && !(
                rounds[i] is Accepted) by {
                    if i < prev.len() {
                        assert(rounds[i] == prev[i]);
                    }
                }
            }
        }
        proof {
            assert(rounds.len() == *max_attempts);
        }
        None
    }

    /// generate_attempt makes one round of puzzle generation: it solves a random grid, takes
    /// the first solution found, then, visiting the cells in random order, opens each cell
    /// (all nine candidates) unless that gives the grid more than one solution. The result is
    /// accepted when the strategies alone solve it, at the requested level, and the search
    /// then finds exactly one solution.
    pub fn generate_attempt(level: &Level) -> (result: Attempt)
        ensures
            round_outcome(result, *level),
    {
        let mut grid = Grid::randomize();
        let mut solutions: Vec<Grid> = Vec::new();
        proof {
            assert(no_givens(grid)) by {
                let (b, perm) = choose|b: int, perm: Seq<u16>| 0 <= b < 9 && digit_order(perm) && #[trigger] seeded(grid, b, perm);
            }
            crate::search::lemma_wf_fits(grid);
        }
        grid.search(&mut solutions);
        if solutions.len() == 0 {
            proof {
                assert(start_grid(grid));
            }
            return Attempt::Unsolvable;
        }
        let g0 = grid;
        grid = solutions[0];
        proof {
            assert(found_in(solutions@[0], g0));
            lemma_narrower_keeps(grid, g0);
        }
        let ghost g1 = grid;
        let mut points = grid.all_points();
        let ghost listed = points@;
        crate::rng::shuffle(&mut points);
        let ghost listed2 = points@;
        proof {
            assert forall|t: int| 0 <= t < points.len() implies (#[trigger] points@[t]).0 < 9 && points@[t].1 < 9 by {
                vstd::seq_lib::to_multiset_contains(points@, points@[t]);
                vstd::seq_lib::to_multiset_contains(listed, points@[t]);
                assert(points@.contains(points@[t]));
                let u = choose|u: int| 0 <= u < listed.len() && listed[u] == points@[t];
                assert(listed[u] == ((u / 9) as usize, (u % 9) as usize));
            }
        }
        proof {
            assert(crate::unique::digit_cells(g1));
            lemma_solved_grid_is_sudoku(g1);
        }
        let grid = Grid::thin(grid, points);
        proof {
            lemma_thinned_keeps(g1, listed2);
            assert forall|r: int, c: int| 0 <= r < 9 && 0 <= c < 9 implies #[trigger] minimal_at(grid, (r as usize, c as usize)) by {
                let u = r * 9 + c;
                assert(u / 9 == r && u % 9 == c) by (nonlinear_arith)
                    requires
                        u == r * 9 + c,
                        0 <= c < 9,
                ;
                assert(listed[u] == (r as usize, c as usize));
                assert(listed.contains((r as usize, c as usize)));
                vstd::seq_lib::to_multiset_contains(listed, (r as usize, c as usize));
                vstd::seq_lib::to_multiset_contains(listed2, (r as usize, c as usize));
                let t = choose|t: int| 0 <= t < listed2.len() && listed2[t] == (r as usize, c as usize);
                assert(minimal_at(grid, listed2[t]));
            }
        }
        proof {
            lemma_thinned_keeps(g1, listed2);
            lemma_drawn(g0, g1, listed, listed2);
            lemma_thinned_cells(g1, listed2);
            assert(crate::unique::digit_cells(g1));
            lemma_no_empty(grid);
        }
        let result = judge(grid, level);
        proof {
            if result is Accepted {
                let game = result->Accepted_0;
                {
                    let solution = *game.solution;
                    assert forall|r: int, c: int| 0 <= r < 9 && 0 <= c < 9 implies #[trigger] grid.at(r, c) == solution.at(r, c)
                        || grid.at(r, c) == Cell(ALL) by {
                        if grid.at(r, c) != Cell(ALL) {
                            assert(grid.at(r, c) == g1.at(r, c));
                            crate::unique::lemma_solved_single(g1, r, c);
                            crate::search::lemma_solved_nonzero(solution, r, c);
                            assert(solution.at(r, c).within(grid.at(r, c)));
                            crate::bits::lemma_popcount_mono(solution.at(r, c).0, grid.at(r, c).0);
                            crate::bits::lemma_popcount_zero(solution.at(r, c).0);
                        }
                    }
                }
            }
        }
        result
    }
}

/// judge decides on one puzzle for `level`: `reduce` runs on a copy of it, and `verdict`
/// decides on what it left. The puzzle is accepted exactly when the level is the easy one (the
/// only level the strategies reach) and the strategies alone solve it; any other puzzle is
/// rejected.
pub fn judge(grid: Grid, level: &Level) -> (result: Attempt)
    requires
        grid.wf(),
        no_givens(grid),
    ensures
        !(result is Unsolvable),
        (result is Accepted) == (*level == Level::Easy && strategies_solve(grid)),
        result matches Attempt::Accepted(game) ==> judged_game(game, grid, *level),
{
    let mut copy = grid;
    let mut strategies = StrategySet::new();
    let ghost used0 = strategies.used;
    proof {
        crate::search::lemma_wf_fits(grid);
    }
    let (l, solved) = copy.reduce(&mut strategies);
    proof {
        lemma_narrower_keeps(copy, grid);
        if has_empty(grid) {
            lemma_empty_unsolvable(grid);
            crate::reduce::lemma_empty_not_solved(grid);
        } else {
            let steps = choose|steps: Seq<Strategy>|
                #[trigger] reduces_to(grid, copy, steps) && forall|s: Strategy|
                    #[trigger] strategies.used[index_of(s)] == (used0[index_of(s)] || steps.contains(s));
            lemma_solve_by_run(grid, copy, steps);
        }
    }
    let result = verdict(grid, copy, l, solved, &strategies, level);
    proof {
        if result is Accepted {
            let game = result->Accepted_0;
            let solution = *game.solution;
            assert forall|a: int, c: int| 0 <= a < 9 && 0 <= c < 9 implies #[trigger] solution.at(a, c) == copy.at(a, c) by {}
            lemma_solved_same(solution, copy);
            assert forall|s: spec_fn(int, int) -> int| is_solution(s) && #[trigger] compatible(grid, s) implies compatible(solution, s) by {
                assert(compatible(copy, s));
                assert forall|a: int, c: int| 0 <= a < 9 && 0 <= c < 9 implies (#[trigger] solution.at(a, c)).has(s(a, c)) by {
                    assert(copy.at(a, c).has(s(a, c)));
                }
            }
            assert forall|a: int, c: int| 0 <= a < 9 && 0 <= c < 9 implies (#[trigger] solution.at(a, c)).within(grid.at(a, c)) by {
                assert(copy.at(a, c).within(grid.at(a, c)));
            }
            lemma_unique_puzzle(grid, solution);
            assert(!has_empty(grid)) by {
                if has_empty(grid) {
                    crate::reduce::lemma_empty_not_solved(grid);
                }
            }
            let steps = choose|steps: Seq<Strategy>|
                #[trigger] reduces_to(grid, copy, steps) && forall|s: Strategy|
                    #[trigger] strategies.used[index_of(s)] == (used0[index_of(s)] || steps.contains(s));
            assert forall|st: Strategy| #[trigger] strategies.used[index_of(st)] == steps.contains(st) by {
                assert(!used0[index_of(st)]);
            }
            assert(reduces_to(grid, copy, steps) && solved_spec(copy) && game.solution.cells == copy.cells
                && (forall|st: Strategy| #[trigger] strategies.used[index_of(st)] == steps.contains(st))
                && game.strategies@ == join_names(used_names(strategies.used, 9)));
        }
    }
    result
}

/// verdict decides on a puzzle from what the strategies left of it (`reduced`, with the level
/// they reached and whether they solved it): the search runs on `reduced`, and the puzzle is
/// accepted when the strategies solved it at the requested level and the search finds exactly
/// one solution, which a solved grid always has. The game then holds the puzzle, the solution
/// with the puzzle's solved cells marked as givens, the number of those cells and the names of
/// the strategies used. Any other puzzle is rejected.
pub fn verdict(puzzle: Grid, reduced: Grid, reached: Level, solved: bool, strategies: &StrategySet, level: &Level) -> (result: Attempt)
    requires
        puzzle.wf(),
        reduced.wf(),
        reduced.givens_fixed(),
        solved == solved_spec(reduced),
    ensures
        (result is Accepted) == (solved && reached == *level),
        !(result is Unsolvable),
        result matches Attempt::Accepted(game) ==> {
            &&& game.level == *level
            &&& *game.puzzle == puzzle
            &&& game.solution.cells == reduced.cells
            &&& forall|r: int, c: int|
                0 <= r < 9 && 0 <= c < 9 ==> #[trigger] game.solution.orig[r][c] == (puzzle.at(r, c).size() == 1)
            &&& game.clues == single_count(puzzle, 81)
            &&& game.strategies@ == join_names(used_names(strategies.used, 9))
        },
{
    let grid = puzzle;
    let mut solutions: Vec<Grid> = Vec::new();
    proof {
        crate::search::lemma_wf_fits(reduced);
    }
    reduced.search(&mut solutions);
    proof {
        if solved {
            assert forall|r: int, c: int| 0 <= r < 9 && 0 <= c < 9 implies (#[trigger] reduced.at(r, c)).within(reduced.at(r, c)) by {
                crate::bits::lemma_subset_refl(reduced.at(r, c).0);
            }
            lemma_unique_puzzle(reduced, reduced);
        }
    }
    if solved && reached == *level && solutions.len() == 1 {
        let mut solution = solutions[0];
        let mut orig: [[bool; 9]; 9] = [[false; 9]; 9];
        let mut clues: u8 = 0;
        let mut r: usize = 0;
        while r < 9
            invariant
                r <= 9,
                grid.wf(),
                clues == single_count(grid, r * 9),
                clues <= r * 9,
                forall|a: int, c: int| 0 <= a < r && 0 <= c < 9 ==> #[trigger] orig[a][c] == (grid.at(a, c).size() == 1),
            decreases 9 - r,
        {
            let mut row: [bool; 9] = [false; 9];
            let mut c: usize = 0;
            while c < 9
                invariant
                    r < 9,
                    c <= 9,
                    grid.wf(),
                    clues == single_count(grid, r * 9 + c),
                    clues <= r * 9 + c,
                    forall|a: int, cc: int| 0 <= a < r && 0 <= cc < 9 ==> #[trigger] orig[a][cc] == (grid.at(a, cc).size() == 1),
                    forall|cc: int| 0 <= cc < c ==> #[trigger] row[cc] == (grid.at(r as int, cc).size() == 1),
                    forall|cc: int| c <= cc < 9 ==> !#[trigger] row[cc],
                decreases 9 - c,
            {
                proof {
                    assert(grid.at(r as int, c as int).digits_only());
                    crate::search::lemma_digits_only_size(grid.at(r as int, c as int));
                    let n = r * 9 + c + 1;
                    assert((n - 1) / 9 == r && (n - 1) % 9 == c) by (nonlinear_arith)
                        requires
                            n == r * 9 + c + 1,
                            c < 9,
                    ;
                }
                if grid.cells[r][c].count() == 1 {
                    row[c] = true;
                    clues += 1;
                }
                c += 1;
            }
            orig[r] = row;
            r += 1;
        }
        solution.orig = orig;
        let names = strategies.joined();
        return Attempt::Accepted(Game {
            level: *level,
            clues,
            strategies: names,
            puzzle: Box::new(grid),
            solution: Box::new(solution),
        });
    }
    Attempt::Rejected
}

} // verus!
