use sudoku::cell::{Cell, ALL};
use sudoku::grid::{Grid, Group, Kind};

const PUZZLE: &str = "53..7....6..195....98....6.8...6...34..8.3..17...2...6.6....28....419..5....8..79";
const SOLUTION: &str = "534678912672195348198342567859761423426853791713924856961537284287419635345286179";

fn open_grid() -> Grid {
    Grid { orig: [[false; 9]; 9], cells: [[Cell(ALL); 9]; 9] }
}

fn has(g: &Grid, r: usize, c: usize, d: u16) -> bool {
    g.cells[r][c].0 & (1 << d) != 0
}

/// Every cell still holds the digit of the known solution.
fn keeps_solution(g: &Grid, solution: &Grid) -> bool {
    (0..9).all(|r| (0..9).all(|c| g.cells[r][c].0 & solution.cells[r][c].0 != 0))
}

#[test]
fn naked_single_clears_box_first() {
    let mut g = open_grid();
    g.cells[0][0] = Cell(1 << 5);
    assert!(g.naked_single());
    assert!(!has(&g, 1, 1, 5));
    assert!(!has(&g, 0, 2, 5));
    // the box pass changed cells, so rows and columns wait for the next call
    assert!(has(&g, 0, 5, 5));
    assert!(has(&g, 6, 0, 5));
    assert!(g.naked_single());
    assert!(!has(&g, 6, 0, 5));
    assert!(g.naked_single());
    assert!(!has(&g, 0, 5, 5));
    assert!(!g.naked_single());
    assert_eq!(g.cells[0][0], Cell(1 << 5));
}

#[test]
fn naked_single_on_open_grid_changes_nothing() {
    let mut g = open_grid();
    assert!(!g.naked_single());
    assert_eq!(g.cells, open_grid().cells);
}

#[test]
fn hidden_single_sets_only_place() {
    let mut g = open_grid();
    for r in 0..3 {
        for c in 0..3 {
            if (r, c) != (1, 1) {
                g.cells[r][c].0 &= !(1 << 5);
            }
        }
    }
    assert!(g.hidden_single());
    assert_eq!(g.cells[1][1], Cell(1 << 5));
    assert!(!g.hidden_single());
}

#[test]
fn naked_pair_clears_row() {
    let mut g = open_grid();
    g.cells[0][0] = Cell(0b110);
    g.cells[0][4] = Cell(0b110);
    assert!(g.naked_pair());
    assert!(!has(&g, 0, 8, 1) && !has(&g, 0, 8, 2));
    assert!(has(&g, 0, 8, 3));
    assert!(has(&g, 1, 0, 1));
    assert_eq!(g.cells[0][0], Cell(0b110));
    assert_eq!(g.cells[0][4], Cell(0b110));
    assert!(!g.naked_pair());
}

#[test]
fn naked_triple_clears_row() {
    let mut g = open_grid();
    g.cells[0][0] = Cell(0b0110);
    g.cells[0][4] = Cell(0b1100);
    g.cells[0][8] = Cell(0b1010);
    assert!(g.naked_triple());
    for c in [1, 2, 3, 5, 6, 7] {
        assert_eq!(g.cells[0][c], Cell(ALL & !0b1110));
    }
    assert_eq!(g.cells[0][0], Cell(0b0110));
    assert!(has(&g, 1, 1, 1));
    assert!(!g.naked_triple());
}

#[test]
fn hidden_pair_keeps_the_pair() {
    let mut g = open_grid();
    for r in 0..3 {
        for c in 0..3 {
            if (r, c) != (0, 0) && (r, c) != (1, 1) {
                g.cells[r][c].0 &= !0b110;
            }
        }
    }
    assert!(g.hidden_pair());
    assert_eq!(g.cells[0][0], Cell(0b110));
    assert_eq!(g.cells[1][1], Cell(0b110));
    assert!(!g.hidden_pair());
}

#[test]
fn hidden_triple_keeps_the_triple() {
    let mut g = open_grid();
    for r in 0..3 {
        for c in 0..3 {
            if r != 0 {
                g.cells[r][c].0 &= !0b1110;
            }
        }
    }
    assert!(g.hidden_triple());
    for c in 0..3 {
        assert_eq!(g.cells[0][c], Cell(0b1110));
    }
    assert_eq!(g.cells[1][1], Cell(ALL & !0b1110));
    assert!(!g.hidden_triple());
}

#[test]
fn hidden_quad_keeps_the_quad() {
    let mut g = open_grid();
    let quad = [(0, 0), (0, 1), (0, 2), (1, 0)];
    for r in 0..3 {
        for c in 0..3 {
            if !quad.contains(&(r, c)) {
                g.cells[r][c].0 &= !0b11110;
            }
        }
    }
    assert!(g.hidden_quad());
    for (r, c) in quad {
        assert_eq!(g.cells[r][c], Cell(0b11110));
    }
    assert!(!g.hidden_quad());
}

#[test]
fn pointing_line_clears_column_outside_box() {
    let mut g = open_grid();
    for r in 0..3 {
        for c in 1..3 {
            g.cells[r][c].0 &= !(1 << 7);
        }
    }
    assert!(g.pointing_line());
    for r in 3..9 {
        assert!(!has(&g, r, 0, 7));
        assert!(has(&g, r, 1, 7));
    }
    assert!(has(&g, 0, 0, 7));
}

#[test]
fn pointing_line_ignores_a_digit_without_place() {
    let mut g = open_grid();
    for r in 0..3 {
        for c in 0..3 {
            g.cells[r][c].0 &= !(1 << 4);
        }
    }
    // box 0 has no place for 4: nothing points, nothing changes
    let before = g.cells;
    assert!(!g.pointing_line());
    assert_eq!(g.cells, before);
}

#[test]
fn box_line_clears_box_off_the_row() {
    let mut g = open_grid();
    for c in 3..9 {
        g.cells[0][c].0 &= !(1 << 6);
    }
    assert!(g.box_line());
    for r in 1..3 {
        for c in 0..3 {
            assert!(!has(&g, r, c, 6));
        }
    }
    assert!(has(&g, 0, 0, 6));
    assert!(has(&g, 4, 0, 6));
    assert!(!g.box_line());
}

#[test]
fn x_wing_clears_rows() {
    let mut g = open_grid();
    for r in 0..9 {
        if r != 2 && r != 6 {
            g.cells[r][1].0 &= !(1 << 4);
            g.cells[r][7].0 &= !(1 << 4);
        }
    }
    assert!(g.x_wing());
    for c in 0..9 {
        let expect = c == 1 || c == 7;
        assert_eq!(has(&g, 2, c, 4), expect);
        assert_eq!(has(&g, 6, c, 4), expect);
    }
    assert!(has(&g, 3, 0, 4));
    assert!(!g.x_wing());
}

#[test]
fn x_wing_clears_line_zero() {
    let mut g = open_grid();
    for r in 1..9 {
        if r != 6 {
            g.cells[r][1].0 &= !(1 << 4);
            g.cells[r][7].0 &= !(1 << 4);
        }
    }
    assert!(g.x_wing());
    for c in 0..9 {
        let expect = c == 1 || c == 7;
        assert_eq!(has(&g, 0, c, 4), expect);
        assert_eq!(has(&g, 6, c, 4), expect);
    }
}

#[test]
fn y_wing_clears_the_common_peer() {
    let mut g = open_grid();
    g.cells[0][0] = Cell(0b0110);
    g.cells[0][4] = Cell(0b1010);
    g.cells[4][0] = Cell(0b1100);
    assert!(g.y_wing());
    assert!(!has(&g, 4, 4, 3));
    assert!(has(&g, 4, 4, 1));
    assert!(has(&g, 4, 5, 3));
    assert!(has(&g, 1, 4, 3));
    assert_eq!(g.cells[0][4], Cell(0b1010));
    assert!(!g.y_wing());
}

#[test]
fn y_wing_needs_both_wings() {
    let mut g = open_grid();
    g.cells[0][0] = Cell(0b0110);
    g.cells[0][4] = Cell(0b1010);
    g.cells[4][0] = Cell(0b1010);
    assert!(!g.y_wing());
}

#[test]
fn strategies_keep_the_solution() {
    let solution = Grid::parse_grid(SOLUTION);
    let mut g = Grid::parse_grid(PUZZLE);
    for _ in 0..40 {
        g.naked_single();
        assert!(keeps_solution(&g, &solution));
        g.hidden_single();
        assert!(keeps_solution(&g, &solution));
        g.naked_pair();
        g.naked_triple();
        g.hidden_pair();
        g.hidden_triple();
        g.hidden_quad();
        g.pointing_line();
        g.box_line();
        g.x_wing();
        g.y_wing();
        assert!(keeps_solution(&g, &solution));
    }
    assert_eq!(g.cells, solution.cells);
}

#[test]
fn pointing_line_passes_over_a_box_without_a_digit() {
    let mut g = open_grid();
    for r in 0..3 {
        for c in 1..3 {
            g.cells[r][c].0 &= !(1 << 7);
        }
        for c in 3..6 {
            g.cells[r][c].0 &= !(1 << 4);
        }
    }
    // box 0 points 7 along column 0; box 1, with no place for 4, is passed over
    assert!(g.pointing_line());
    assert!(!has(&g, 5, 0, 7));
    assert!(!g.pointing_line());
}

#[test]
fn hidden_quad_leaves_cells_off_the_quad() {
    let mut g = open_grid();
    for c in 0..4 {
        g.cells[0][c] = Cell(0x3E);
    }
    for c in 4..9 {
        g.cells[0][c] = Cell(0x3E0);
    }
    let before = g;
    assert!(g.hidden_quad());
    for c in 0..4 {
        assert_eq!(g.cells[0][c], Cell(0x1E));
    }
    for c in 4..9 {
        assert_eq!(g.cells[0][c], Cell(0x3E0));
    }
    for r in 1..9 {
        assert_eq!(g.cells[r], before.cells[r]);
    }
}

#[test]
fn box_line_clears_box_off_the_column() {
    let mut g = open_grid();
    for r in 3..9 {
        g.cells[r][7] = Cell(0x3FC);
    }
    let before = g;
    assert!(g.box_line());
    for r in 0..9 {
        for c in 0..9 {
            let expect = if r < 3 && (c == 6 || c == 8) { Cell(0x3FC) } else { before.cells[r][c] };
            assert_eq!(g.cells[r][c], expect);
        }
    }
}

#[test]
fn naked_single_clears_every_box_in_one_pass() {
    let mut g = open_grid();
    g.cells[0][0] = Cell(1 << 5);
    g.cells[8][8] = Cell(1 << 3);
    assert!(g.naked_single());
    for r in 0..3 {
        for c in 0..3 {
            assert_eq!(has(&g, r, c, 5), r == 0 && c == 0);
        }
    }
    for r in 6..9 {
        for c in 6..9 {
            assert_eq!(has(&g, r, c, 3), r == 8 && c == 8);
        }
    }
}

#[test]
fn x_wing_changes_only_the_wing_rows() {
    let mut g = open_grid();
    for r in [1, 2, 3, 5, 6, 7, 8] {
        g.cells[r][0] = Cell(0x3FC);
        g.cells[r][7] = Cell(0x3FC);
    }
    let before = g;
    assert!(g.x_wing());
    for r in 0..9 {
        for c in 0..9 {
            let expect = if (r == 0 || r == 4) && c != 0 && c != 7 { Cell(0x3FC) } else { before.cells[r][c] };
            assert_eq!(g.cells[r][c], expect);
        }
    }
}

#[test]
fn hidden_single_changes_only_the_single_place() {
    let mut g = open_grid();
    for r in 0..3 {
        for c in 0..3 {
            if (r, c) != (0, 0) {
                g.cells[r][c].0 &= !(1 << 5);
            }
        }
    }
    let before = g;
    assert!(g.hidden_single());
    for r in 0..9 {
        for c in 0..9 {
            let expect = if (r, c) == (0, 0) { Cell(1 << 5) } else { before.cells[r][c] };
            assert_eq!(g.cells[r][c], expect);
        }
    }
}

#[test]
fn naked_triple_acts_on_every_triple_of_the_pass() {
    let mut g = open_grid();
    g.cells[0][0] = Cell(0b0000110);
    g.cells[0][1] = Cell(0b0001100);
    g.cells[0][2] = Cell(0b0001010);
    g.cells[0][3] = Cell(0b0110000);
    g.cells[0][4] = Cell(0b1100000);
    g.cells[0][5] = Cell(0b1010000);
    assert!(g.naked_triple());
    for r in 0..3 {
        for c in 0..3 {
            if r > 0 {
                assert_eq!(g.cells[r][c], Cell(ALL & !0b0001110));
            }
        }
        for c in 3..6 {
            if r > 0 {
                assert_eq!(g.cells[r][c], Cell(ALL & !0b1110000));
            }
        }
    }
    for c in 6..9 {
        assert_eq!(g.cells[0][c], Cell(ALL));
    }
    assert_eq!(g.cells[3][0], Cell(ALL));
}

#[test]
fn naked_single_group_clears_each_unit_of_its_kind() {
    let mut g = open_grid();
    g.cells[0][0] = Cell(0b10);
    g.cells[4][4] = Cell(0b100);
    assert!(g.naked_single_group(&Group::new(Kind::Row)));
    for c in 1..9 {
        assert_eq!(g.cells[0][c], Cell(ALL & !0b10));
        if c != 4 {
            assert_eq!(g.cells[4][c], Cell(ALL & !0b100));
        }
    }
    assert_eq!(g.cells[1][0], Cell(ALL));
    assert_eq!(g.cells[4][0], Cell(ALL & !0b100));
    assert!(!g.naked_single_group(&Group::new(Kind::Row)));
}
