//! Reading a puzzle from its one-line text: a digit for each given, a dot for each open cell.
use vstd::prelude::*;
use vstd::string::StringSliceAdditionalSpecFns;
use crate::cell::{Cell, ALL};
use crate::grid::Grid;

verus! {

broadcast use vstd::array::group_array_axioms;

/// The value of an ASCII digit byte, `None` for any other byte.
pub open spec fn digit_value(b: u8) -> Option<u16> {
    if 48 <= b <= 57 {
        Some((b - 48) as u16)
    } else {
        None
    }
}

/// Calls `atoi::ascii_to_digit`, which maps the bytes `'0'` to `'9'` to their values and every
/// other byte to `None`.
#[verifier::external_body]
fn ascii_to_digit(character: u8) -> (digit: Option<u16>)
    ensures
        digit == digit_value(character),
{
    atoi::ascii_to_digit::<u16>(character)
}

/// A byte of a puzzle: a dot or a digit.
pub open spec fn puzzle_byte(b: u8) -> bool {
    b == 46 || digit_value(b) is Some
}

/// The text holds a puzzle: at least 81 bytes, the first 81 of them dots or digits.
pub open spec fn puzzle_text(bytes: Seq<u8>) -> bool {
    bytes.len() >= 81 && forall|i: int| 0 <= i < 81 ==> puzzle_byte(#[trigger] bytes[i])
}

/// The cell that a byte of a puzzle stands for: every digit for a dot, else the digit's bit.
pub open spec fn cell_of_byte(b: u8) -> Cell {
    if b == 46 {
        Cell(ALL)
    } else {
        Cell(1u16 << (b - 48) as u16)
    }
}

impl Grid {
    /// parse_grid reads a puzzle written as 81 characters, row by row: a digit is a given cell
    /// with that digit as its only candidate, a dot an open cell with all nine candidates.
    /// The given cells are marked in `orig`. Text after the 81st byte is ignored.
    pub fn parse_grid(input: &str) -> (grid: Grid)
        requires
            puzzle_text(input.spec_bytes()),
        ensures
            forall|r: int, c: int|
                0 <= r < 9 && 0 <= c < 9 ==> #[trigger] grid.at(r, c) == cell_of_byte(input.spec_bytes()[r * 9 + c])
                    && grid.orig[r][c] == (input.spec_bytes()[r * 9 + c] != 46),
            grid.fits(),
            grid.givens_fixed(),
    {
        let bytes = input.as_bytes();
        let ghost text = input.spec_bytes();
        let mut orig: [[bool; 9]; 9] = [[false; 9]; 9];
        let mut cells: [[Cell; 9]; 9] = [[Cell(0); 9]; 9];
        let mut r: usize = 0;
        while r < 9
            invariant
                r <= 9,
                bytes@ == text,
                puzzle_text(text),
                forall|a: int, c: int| 0 <= a < r && 0 <= c < 9 ==> #[trigger] cells[a][c] == cell_of_byte(text[a * 9 + c]),
                forall|a: int, c: int| 0 <= a < r && 0 <= c < 9 ==> #[trigger] orig[a][c] == (text[a * 9 + c] != 46),
            decreases 9 - r,
        {
            let mut orig_row: [bool; 9] = [false; 9];
            let mut cell_row: [Cell; 9] = [Cell(0); 9];
            let mut c: usize = 0;
            while c < 9
                invariant
                    r < 9,
                    c <= 9,
                    bytes@ == text,
                    puzzle_text(text),
                    forall|a: int, c2: int| 0 <= a < r && 0 <= c2 < 9 ==> #[trigger] cells[a][c2] == cell_of_byte(text[a * 9 + c2]),
                    forall|a: int, c2: int| 0 <= a < r && 0 <= c2 < 9 ==> #[trigger] orig[a][c2] == (text[a * 9 + c2] != 46),
                    forall|c2: int| 0 <= c2 < c ==> #[trigger] cell_row[c2] == cell_of_byte(text[r * 9 + c2]),
                    forall|c2: int| 0 <= c2 < c ==> #[trigger] orig_row[c2] == (text[r * 9 + c2] != 46),
                    forall|c2: int| c <= c2 < 9 ==> !#[trigger] orig_row[c2],
                decreases 9 - c,
            {
                let chr = bytes[r * 9 + c];
                let mut cell = Cell(0);
                proof {
                    assert(puzzle_byte(text[r * 9 + c]));
                }
                if chr == 46u8 {
                    cell.0 |= ALL;
                    assert(0u16 | ALL == ALL) by (bit_vector);
                } else {
                    match ascii_to_digit(chr) {
                        Some(digit) => {
                            orig_row[c] = true;
                            cell.0 |= 1u16 << digit;
                            assert(0u16 | (1u16 << digit) == 1u16 << digit) by (bit_vector);
                        },
                        None => {
                            assert(false);
                        },
                    }
                }
                cell_row[c] = cell;
                c += 1;
            }
            orig[r] = orig_row;
            cells[r] = cell_row;
            r += 1;
        }
        let grid = Grid { orig, cells };
        proof {
            assert forall|r: int, c: int| 0 <= r < 9 && 0 <= c < 9 implies (#[trigger] grid.at(r, c)).fits()
                && (grid.orig[r][c] ==> grid.at(r, c).size() <= 1) by {
                let b = text[r * 9 + c];
                assert(puzzle_byte(b));
                if b != 46 {
                    let d = (b - 48) as u16;
                    assert(1u16 << d < 1024) by (bit_vector)
                        requires
                            d <= 9,
                    ;
                    crate::search::lemma_single_count(d);
                } else {
                    assert(ALL < 1024);
                }
            }
        }
        grid
    }
}

} // verus!
