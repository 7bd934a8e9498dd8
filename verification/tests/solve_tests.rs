use sudoku::cell::{Cell, ALL};
use sudoku::generate::{judge, verdict, Attempt};
use sudoku::grid::Grid;
use sudoku::level::Level;
use sudoku::reduce::{strategy_at, Strategy, StrategySet};
use sudoku::search::{search, Solution};

const PUZZLE: &str = "53..7....6..195....98....6.8...6...34..8.3..17...2...6.6....28....419..5....8..79";
const SOLUTION: &str = "534678912672195348198342567859761423426853791713924856961537284287419635345286179";

fn open_grid() -> Grid {
    Grid { orig: [[false; 9]; 9], cells: [[Cell(ALL); 9]; 9] }
}

fn contradiction() -> Grid {
    Grid::parse_grid(&format!("55{}", ".".repeat(79)))
}

fn is_complete_sudoku(g: &Grid) -> bool {
    let single = (0..9).all(|r| (0..9).all(|c| g.cells[r][c].count() == 1 && g.cells[r][c].0 & 1 == 0));
    single && g.solved()
}

#[test]
fn reduce_solves_easy_puzzle() {
    let mut g = Grid::parse_grid(PUZZLE);
    let mut used = StrategySet::new();
    let (level, solved) = g.reduce(&mut used);
    assert!(solved);
    assert_eq!(level, Level::Easy);
    assert_eq!(g.cells, Grid::parse_grid(SOLUTION).cells);
    assert!(used.contains(Strategy::NakedSingle));
    assert!(used.joined().contains("naked_single"));
}

#[test]
fn reduce_leaves_solved_grid() {
    let mut g = Grid::parse_grid(SOLUTION);
    let mut used = StrategySet::new();
    assert_eq!(g.reduce(&mut used), (Level::Easy, true));
    assert_eq!(g.cells, Grid::parse_grid(SOLUTION).cells);
    assert_eq!(used.joined(), "");
}

#[test]
fn reduce_leaves_grid_with_empty_cell() {
    let mut g = open_grid();
    g.cells[0][0] = Cell(1 << 3);
    g.cells[8][8] = Cell(0);
    let before = g.cells;
    let mut used = StrategySet::new();
    assert_eq!(g.reduce(&mut used), (Level::Easy, false));
    assert_eq!(g.cells, before);
    assert!(used.names().is_empty());
}

#[test]
fn reduce_on_open_grid_finds_nothing() {
    let mut g = open_grid();
    let mut used = StrategySet::new();
    assert_eq!(g.reduce(&mut used), (Level::Easy, false));
    assert_eq!(g.cells, open_grid().cells);
}

#[test]
fn reduce_level_without_strategies_does_nothing() {
    let mut g = Grid::parse_grid(PUZZLE);
    let mut level = Level::Easy;
    let mut used = StrategySet::new();
    assert!(!g.reduce_level(&mut level, &Level::Hard, &mut used, &Vec::new()));
    assert_eq!(level, Level::Easy);
    assert!(g.reduce_level(&mut level, &Level::Hard, &mut used, &vec![Strategy::NakedSingle]));
    assert_eq!(level, Level::Hard);
    assert!(used.contains(Strategy::NakedSingle));
    assert!(!used.contains(Strategy::BoxLine));
}

#[test]
fn apply_runs_the_named_strategy() {
    let mut a = Grid::parse_grid(PUZZLE);
    let mut b = Grid::parse_grid(PUZZLE);
    assert_eq!(a.apply(Strategy::NakedSingle), b.naked_single());
    assert_eq!(a.cells, b.cells);
}

#[test]
fn strategy_set_names_in_order() {
    let mut s = StrategySet::new();
    s.insert(Strategy::PointingLine);
    s.insert(Strategy::BoxLine);
    s.insert(Strategy::HiddenPair);
    s.insert(Strategy::BoxLine);
    assert_eq!(s.names(), vec!["box_line", "hidden_pair", "pointing_line"]);
    assert_eq!(s.joined(), "box_line, hidden_pair, pointing_line");
    assert_eq!(strategy_at(6).name(), "naked_single");
    assert_eq!(Strategy::NakedTriple.index(), 7);
}

#[test]
fn grid_search_finds_unique_solution() {
    let g = Grid::parse_grid(PUZZLE);
    let mut solutions = Vec::new();
    g.search(&mut solutions);
    assert_eq!(solutions.len(), 1);
    assert_eq!(solutions[0].cells, Grid::parse_grid(SOLUTION).cells);
}

#[test]
fn grid_search_stops_at_two_solutions() {
    let g = open_grid();
    let mut solutions = Vec::new();
    g.search(&mut solutions);
    assert_eq!(solutions.len(), 2);
    assert!(is_complete_sudoku(&solutions[0]));
    assert!(is_complete_sudoku(&solutions[1]));
    assert_ne!(solutions[0].cells, solutions[1].cells);
}

#[test]
fn grid_search_finds_nothing_on_contradiction() {
    let mut solutions = Vec::new();
    contradiction().search(&mut solutions);
    assert!(solutions.is_empty());
}

#[test]
fn grid_search_of_solved_grid_gives_it_first() {
    let g = Grid::parse_grid(SOLUTION);
    let mut solutions = vec![open_grid()];
    g.search(&mut solutions);
    assert_eq!(solutions.len(), 2);
    assert_eq!(solutions[0].cells, open_grid().cells);
    assert_eq!(solutions[1].cells, g.cells);
}

#[test]
fn search_single_multiple_and_none() {
    match search(&Grid::parse_grid(PUZZLE), None) {
        Solution::Single(x) => assert_eq!(x.cells, Grid::parse_grid(SOLUTION).cells),
        _ => panic!("expected a single solution"),
    }
    match search(&open_grid(), None) {
        Solution::Multiple(a, b) => {
            assert!(is_complete_sudoku(&a) && is_complete_sudoku(&b));
            assert_ne!(a.cells, b.cells);
        }
        _ => panic!("expected two solutions"),
    }
    assert!(matches!(search(&contradiction(), None), Solution::NotFound));
}

#[test]
fn search_with_earlier_solution() {
    let earlier = Grid::parse_grid(SOLUTION);
    match search(&Grid::parse_grid(PUZZLE), Some(earlier)) {
        Solution::Multiple(a, b) => {
            assert_eq!(a.cells, earlier.cells);
            assert_eq!(b.cells, earlier.cells);
        }
        _ => panic!("expected two solutions"),
    }
    match search(&contradiction(), Some(earlier)) {
        Solution::Single(x) => assert_eq!(x.cells, earlier.cells),
        _ => panic!("expected the earlier solution"),
    }
}

#[test]
fn randomize_seeds_one_box() {
    let g = Grid::randomize();
    let singles: Vec<(usize, usize)> =
        (0..9).flat_map(|r| (0..9).map(move |c| (r, c))).filter(|&(r, c)| g.cells[r][c].count() == 1).collect();
    assert_eq!(singles.len(), 9);
    let b = singles[0].0 / 3 * 3 + singles[0].1 / 3;
    assert!(singles.iter().all(|&(r, c)| r / 3 * 3 + c / 3 == b));
    let mut bits = 0u16;
    for &(r, c) in &singles {
        bits |= g.cells[r][c].0;
    }
    assert_eq!(bits, ALL);
    for r in 0..9 {
        for c in 0..9 {
            assert!(!g.orig[r][c]);
            if !singles.contains(&(r, c)) {
                assert_eq!(g.cells[r][c], Cell(ALL));
            }
        }
    }
}

#[test]
fn generate_attempt_gives_unique_easy_puzzle() {
    let mut game = None;
    for _ in 0..20 {
        if let Attempt::Accepted(g) = Grid::generate_attempt(&Level::Easy) {
            game = Some(g);
            break;
        }
    }
    let game = game.expect("no easy puzzle in 20 rounds");
    assert_eq!(game.level, Level::Easy);
    assert!(is_complete_sudoku(&game.solution));
    let mut clues = 0;
    for r in 0..9 {
        for c in 0..9 {
            let single = game.puzzle.cells[r][c].count() == 1;
            assert_eq!(game.solution.orig[r][c], single);
            assert_eq!(game.solution.cells[r][c].0 & game.puzzle.cells[r][c].0, game.solution.cells[r][c].0);
            if single {
                clues += 1;
            }
        }
    }
    assert_eq!(game.clues, clues);
    let mut solutions = Vec::new();
    game.puzzle.search(&mut solutions);
    assert_eq!(solutions.len(), 1);
    assert_eq!(solutions[0].cells, game.solution.cells);
}

#[test]
fn generate_attempt_never_accepts_harder_levels() {
    for level in [Level::Standard, Level::Hard] {
        assert!(!matches!(Grid::generate_attempt(&level), Attempt::Accepted(_)));
    }
}

fn solution_without_givens() -> Grid {
    let mut g = Grid::parse_grid(SOLUTION);
    g.orig = [[false; 9]; 9];
    g
}

#[test]
fn thin_keeps_one_solution_and_cannot_open_more() {
    let start = solution_without_givens();
    let order = start.all_points();
    let puzzle = Grid::thin(start, order);
    let mut solutions = Vec::new();
    puzzle.search(&mut solutions);
    assert_eq!(solutions.len(), 1);
    assert_eq!(solutions[0].cells, start.cells);
    let mut clues = 0;
    for r in 0..9 {
        for c in 0..9 {
            if puzzle.cells[r][c] == Cell(ALL) {
                continue;
            }
            clues += 1;
            assert_eq!(puzzle.cells[r][c], start.cells[r][c]);
            let mut opened = puzzle;
            opened.cells[r][c] = Cell(ALL);
            let mut more = Vec::new();
            opened.search(&mut more);
            assert_eq!(more.len(), 2);
        }
    }
    assert!(clues < 81);
    assert!(clues >= 17);
}

#[test]
fn thin_with_no_points_keeps_the_grid() {
    let start = solution_without_givens();
    let puzzle = Grid::thin(start, Vec::new());
    assert_eq!(puzzle.cells, start.cells);
}

#[test]
fn seeded_grid_places_the_order_in_the_box() {
    let perm: Vec<u16> = vec![9, 8, 7, 6, 5, 4, 3, 2, 1];
    let g = sudoku::generate::seeded_grid(4, &perm);
    assert_eq!(g.cells[3][3], Cell(1 << 9));
    assert_eq!(g.cells[3][5], Cell(1 << 7));
    assert_eq!(g.cells[5][5], Cell(1 << 1));
    assert_eq!(g.cells[0][0], Cell(ALL));
    assert_eq!(g.cells[4][8], Cell(ALL));
    assert!(g.orig.iter().flatten().all(|o| !*o));
}

#[test]
fn generate_gives_easy_puzzles_only() {
    assert!(Grid::generate(&Level::Hard, &3).is_none());
    assert!(Grid::generate(&Level::Easy, &0).is_none());
    let game = Grid::generate(&Level::Easy, &20).expect("no easy puzzle in 20 rounds");
    assert_eq!(game.level, Level::Easy);
    for r in 0..9 {
        for c in 0..9 {
            let p = game.puzzle.cells[r][c];
            assert!(p == Cell(ALL) || p == game.solution.cells[r][c]);
        }
    }
    let mut copy = *game.puzzle;
    let mut used = StrategySet::new();
    assert_eq!(copy.reduce(&mut used), (Level::Easy, true));
    assert_eq!(used.joined(), game.strategies);
}

#[test]
fn search_stops_at_two() {
    let mut solutions = vec![];
    open_grid().search(&mut solutions);
    assert_eq!(solutions.len(), 2);
    let mut one = vec![open_grid()];
    open_grid().search(&mut one);
    assert_eq!(one.len(), 2);
}

#[test]
fn judge_accepts_an_easy_puzzle() {
    let mut g = Grid::parse_grid(PUZZLE);
    g.orig = [[false; 9]; 9];
    match judge(g, &Level::Easy) {
        Attempt::Accepted(game) => {
            assert_eq!(game.level, Level::Easy);
            assert_eq!(game.clues, 30);
            assert_eq!(game.puzzle.cells, g.cells);
            assert_eq!(game.solution.cells, Grid::parse_grid(SOLUTION).cells);
            assert!(game.solution.orig[0][0]);
            assert!(!game.solution.orig[0][2]);
            assert!(game.strategies.contains("naked_single"));
        }
        _ => panic!("the easy puzzle was not accepted"),
    }
}

#[test]
fn judge_rejects_other_levels() {
    let mut g = Grid::parse_grid(PUZZLE);
    g.orig = [[false; 9]; 9];
    assert!(matches!(judge(g, &Level::Hard), Attempt::Rejected));
    assert!(matches!(judge(g, &Level::Standard), Attempt::Rejected));
}

#[test]
fn judge_rejects_what_the_strategies_leave_open() {
    assert!(matches!(judge(open_grid(), &Level::Easy), Attempt::Rejected));
    let mut g = open_grid();
    g.cells[4][4] = Cell(0);
    assert!(matches!(judge(g, &Level::Easy), Attempt::Rejected));
}

#[test]
fn verdict_accepts_what_the_strategies_solved() {
    let mut puzzle = Grid::parse_grid(PUZZLE);
    puzzle.orig = [[false; 9]; 9];
    let mut reduced = Grid::parse_grid(SOLUTION);
    reduced.orig = [[false; 9]; 9];
    let mut used = StrategySet::new();
    used.insert(Strategy::NakedSingle);
    used.insert(Strategy::HiddenSingle);
    match verdict(puzzle, reduced, Level::Easy, true, &used, &Level::Easy) {
        Attempt::Accepted(game) => {
            assert_eq!(game.level, Level::Easy);
            assert_eq!(game.puzzle.cells, puzzle.cells);
            assert_eq!(game.solution.cells, reduced.cells);
            assert_eq!(game.clues, 30);
            assert!(game.solution.orig[0][0]);
            assert!(!game.solution.orig[0][2]);
            assert_eq!(game.strategies, used.joined());
            assert!(game.strategies.contains("naked_single"));
            assert!(game.strategies.contains("hidden_single"));
        }
        _ => panic!("a solved grid at the requested level was not accepted"),
    }
}

#[test]
fn verdict_rejects_unsolved_or_other_level() {
    let mut puzzle = Grid::parse_grid(PUZZLE);
    puzzle.orig = [[false; 9]; 9];
    let mut reduced = Grid::parse_grid(SOLUTION);
    reduced.orig = [[false; 9]; 9];
    let used = StrategySet::new();
    assert!(matches!(verdict(puzzle, reduced, Level::Easy, true, &used, &Level::Hard), Attempt::Rejected));
    assert!(matches!(verdict(puzzle, puzzle, Level::Easy, false, &used, &Level::Easy), Attempt::Rejected));
}

#[test]
fn reduce_twice_changes_nothing_more() {
    let mut g = open_grid();
    g.cells[0][0] = Cell(1 << 5);
    let mut used = StrategySet::new();
    let first = g.reduce(&mut used);
    assert!(used.contains(Strategy::NakedSingle));
    let after = g.cells;
    let mut again = StrategySet::new();
    let second = g.reduce(&mut again);
    assert_eq!(first, (Level::Easy, false));
    assert_eq!(second, first);
    assert_eq!(g.cells, after);
    assert!(again.names().is_empty());
}

#[test]
fn reduce_records_only_the_first_strategy_that_acts() {
    let mut g = Grid::parse_grid(".23456789456789123789123456234567891567891234891234567345678912678912345912345678");
    let orig = g.orig;
    let mut used = StrategySet::new();
    assert_eq!(g.reduce(&mut used), (Level::Easy, true));
    assert_eq!(
        g.cells,
        Grid::parse_grid("123456789456789123789123456234567891567891234891234567345678912678912345912345678").cells
    );
    assert_eq!(g.orig, orig);
    assert_eq!(used.joined(), "naked_single");
    for i in 0..9 {
        assert_eq!(used.contains(strategy_at(i)), strategy_at(i) == Strategy::NakedSingle);
    }
}

#[test]
fn generated_game_records_what_reduce_records() {
    let game = Grid::generate(&Level::Easy, &20).expect("no easy puzzle in 20 rounds");
    let mut copy = *game.puzzle;
    let mut used = StrategySet::new();
    assert_eq!(copy.reduce(&mut used), (Level::Easy, true));
    assert_eq!(copy.cells, game.solution.cells);
    assert_eq!(used.joined(), game.strategies);
    let clues = (0..9).map(|r| (0..9).filter(|&c| game.puzzle.cells[r][c].count() == 1).count()).sum::<usize>();
    assert_eq!(game.clues as usize, clues);
}
