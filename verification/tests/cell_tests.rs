use sudoku::cell::{count, Cell, ALL};
use sudoku::text::center;

#[test]
fn cell_count_counts_candidates() {
    assert_eq!(Cell(0).count(), 0);
    assert_eq!(Cell(0b10).count(), 1);
    assert_eq!(Cell(0b1010_1010).count(), 4);
    assert_eq!(Cell(ALL).count(), 9);
}

#[test]
fn free_count_counts_bits() {
    assert_eq!(count(0), 0);
    assert_eq!(count(1023), 10);
    assert_eq!(count(0b100_0000_0001), 1);
}

#[test]
fn digits_lists_candidates_in_order() {
    assert_eq!(Cell(ALL).digits(), vec![1, 2, 3, 4, 5, 6, 7, 8, 9]);
    assert_eq!(Cell(0b1000_0100_0).digits(), vec![3, 8]);
    assert_eq!(Cell(0b1).digits(), Vec::<usize>::new());
    assert_eq!(Cell(0).digits(), Vec::<usize>::new());
}

#[test]
fn and_reports_change() {
    let mut c = Cell(0b1110);
    assert!(c.and(&Cell(0b0110)));
    assert_eq!(c, Cell(0b0110));
    assert!(!c.and(&Cell(0b1110)));
    assert_eq!(c, Cell(0b0110));
}

#[test]
fn and_not_reports_change() {
    let mut c = Cell(0b1110);
    assert!(c.and_not(&Cell(0b0100)));
    assert_eq!(c, Cell(0b1010));
    assert!(!c.and_not(&Cell(0b0100)));
    assert_eq!(c, Cell(0b1010));
}

#[test]
fn replace_reports_change() {
    let mut c = Cell(ALL);
    assert!(c.replace(&Cell(0b100)));
    assert_eq!(c, Cell(0b100));
    assert!(!c.replace(&Cell(0b100)));
}

#[test]
fn bitor_unites_candidates() {
    assert_eq!(Cell(0b0110) | Cell(0b1100), Cell(0b1110));
    assert_eq!(Cell(0) | Cell(ALL), Cell(ALL));
}

#[test]
fn to_string_joins_digits() {
    assert_eq!(Cell(0b110).to_string(), "1, 2");
    assert_eq!(Cell(1 << 7).to_string(), "7");
    assert_eq!(Cell(ALL).to_string(), "1, 2, 3, 4, 5, 6, 7, 8, 9");
    assert_eq!(Cell(0).to_string(), "");
}

#[test]
fn label_shows_digits_or_dot() {
    assert_eq!(Cell(ALL).label(), ".");
    assert_eq!(Cell(0b10_1000).label(), "35");
    assert_eq!(Cell(1 << 9).label(), "9");
    assert_eq!(Cell(0).label(), "");
    assert_eq!(Cell(ALL & !(1 << 5)).label(), "12346789");
}

#[test]
fn center_pads_like_format() {
    assert_eq!(center("ab", 5), " ab  ");
    assert_eq!(center("ab", 6), "  ab  ");
    assert_eq!(center("abc", 2), "abc");
    assert_eq!(center("", 3), "   ");
    for w in 0..8 {
        for s in ["", "x", "12", "123", "12345"] {
            assert_eq!(center(s, w), format!("{:^w$}", s, w = w));
        }
    }
}

#[test]
fn default_cell_is_empty() {
    assert_eq!(Cell::default(), Cell(0));
    assert_eq!(Cell::default().count(), 0);
}
