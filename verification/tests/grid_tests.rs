use sudoku::cell::{Cell, ALL};
use sudoku::grid::{box_of, min_more_than_one_digit, unit_point, Grid, Group, Kind};
use sudoku::level::Level;

const PUZZLE: &str = "53..7....6..195....98....6.8...6...34..8.3..17...2...6.6....28....419..5....8..79";
const SOLUTION: &str = "534678912672195348198342567859761423426853791713924856961537284287419635345286179";

fn open_grid() -> Grid {
    Grid { orig: [[false; 9]; 9], cells: [[Cell(ALL); 9]; 9] }
}

#[test]
fn parse_grid_reads_givens_and_dots() {
    let g = Grid::parse_grid(PUZZLE);
    assert_eq!(g.cells[0][0], Cell(1 << 5));
    assert_eq!(g.cells[0][1], Cell(1 << 3));
    assert_eq!(g.cells[0][2], Cell(ALL));
    assert_eq!(g.cells[8][8], Cell(1 << 9));
    assert!(g.orig[0][0]);
    assert!(!g.orig[0][2]);
    let givens = PUZZLE.bytes().filter(|b| *b != b'.').count();
    let marked = g.orig.iter().flatten().filter(|o| **o).count();
    assert_eq!(givens, marked);
}

#[test]
fn parse_grid_takes_zero_as_bit_zero() {
    let text = format!("0{}", ".".repeat(80));
    let g = Grid::parse_grid(&text);
    assert_eq!(g.cells[0][0], Cell(1));
    assert!(g.orig[0][0]);
}

#[test]
fn parse_grid_ignores_text_after_the_grid() {
    let text = format!("{}trailing", SOLUTION);
    let a = Grid::parse_grid(&text);
    let b = Grid::parse_grid(SOLUTION);
    assert_eq!(a.cells, b.cells);
}

#[test]
fn solved_recognizes_solution() {
    assert!(Grid::parse_grid(SOLUTION).solved());
    assert!(!Grid::parse_grid(PUZZLE).solved());
    assert!(!open_grid().solved());
}

#[test]
fn solved_group_checks_one_kind() {
    let mut g = Grid::parse_grid(SOLUTION);
    assert!(g.solved_group(&Group::new(Kind::Row)));
    // swap two cells of row 0: rows stay solved, columns do not
    let a = g.cells[0][0];
    g.cells[0][0] = g.cells[0][1];
    g.cells[0][1] = a;
    assert!(g.solved_group(&Group::new(Kind::Row)));
    assert!(!g.solved_group(&Group::new(Kind::Col)));
    assert!(!g.solved());
}

#[test]
fn empty_cell_finds_empty() {
    let mut g = open_grid();
    assert!(!g.empty_cell());
    g.cells[4][7] = Cell(0);
    assert!(g.empty_cell());
}

#[test]
fn max_width_counts_full_cells_as_one() {
    let mut g = open_grid();
    assert_eq!(g.max_width(), 1);
    g.cells[2][3] = Cell(0b1110);
    assert_eq!(g.max_width(), 3);
    g.cells[5][5] = Cell(ALL & !(1 << 4));
    assert_eq!(g.max_width(), 8);
    let s = Grid::parse_grid(SOLUTION);
    assert_eq!(s.max_width(), 1);
}

#[test]
fn all_points_in_row_major_order() {
    let p = open_grid().all_points();
    assert_eq!(p.len(), 81);
    assert_eq!(p[0], (0, 0));
    assert_eq!(p[10], (1, 1));
    assert_eq!(p[80], (8, 8));
}

#[test]
fn units_and_boxes() {
    assert_eq!(box_of(4, 7), 5);
    assert_eq!(box_of(8, 0), 6);
    assert_eq!(unit_point(Kind::Box, 4, 0), (3, 3));
    assert_eq!(unit_point(Kind::Box, 8, 8), (8, 8));
    assert_eq!(unit_point(Kind::Col, 2, 5), (5, 2));
    assert_eq!(unit_point(Kind::Row, 2, 5), (2, 5));
    let g = Group::new(Kind::Box);
    assert_eq!(g.cells[5][4], (4, 7));
    assert_eq!(g.name(), "box");
    assert_eq!(Group::new(Kind::Col).name(), "col");
    assert_eq!(Group::new(Kind::Row).name(), "row");
}

#[test]
fn cell_updates_report_change() {
    let mut g = open_grid();
    assert!(g.remove_at(1, 2, 0b110));
    assert_eq!(g.get((1, 2)), Cell(ALL & !0b110));
    assert!(!g.remove_at(1, 2, 0b110));
    assert!(g.keep_at(1, 2, 0b11000));
    assert_eq!(g.cells[1][2], Cell(0b11000));
    assert!(g.set_at(1, 2, Cell(0b1000)));
    assert!(!g.set_at(1, 2, Cell(0b1000)));
}

#[test]
fn min_more_than_one_digit_takes_first_smallest() {
    let mut g = Grid::parse_grid(SOLUTION);
    assert_eq!(min_more_than_one_digit(&g), None);
    g.cells[3][3] = Cell(0b1110);
    g.cells[5][1] = Cell(0b110);
    g.cells[7][7] = Cell(0b110);
    assert_eq!(min_more_than_one_digit(&g), Some((5, 1)));
    g.cells[0][0] = Cell(ALL);
    assert_eq!(min_more_than_one_digit(&g), Some((5, 1)));
}

#[test]
fn levels_are_ordered() {
    assert!(Level::Easy < Level::Standard);
    assert!(Level::Expert < Level::Extreme);
    assert_eq!(Level::Easy.rank(), 0);
    assert_eq!(Level::Hard.rank(), 2);
    assert_eq!(Level::Extreme.rank(), 4);
}
