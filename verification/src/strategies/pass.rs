//! The candidates of a grid as a function of row and column, and the exact effect of the
//! steps that the passes of the strategies are made of.
use vstd::prelude::*;
use crate::cell::Cell;
use crate::grid::{Grid, Kind, unit_row, unit_col, box_index};

verus! {

/// The candidates of every cell of `g`, by row and column.
pub open spec fn cells_of(g: Grid) -> spec_fn(int, int) -> Cell {
    |r: int, c: int| g.at(r, c)
}

/// Every cell of `g` holds what `f` gives for it.
pub open spec fn grid_is(g: Grid, f: spec_fn(int, int) -> Cell) -> bool {
    forall|r: int, c: int| 0 <= r < 9 && 0 <= c < 9 ==> #[trigger] g.at(r, c) == f(r, c)
}

/// `f` and `h` agree on every cell of the grid.
pub open spec fn same_fn(f: spec_fn(int, int) -> Cell, h: spec_fn(int, int) -> Cell) -> bool {
    forall|r: int, c: int| 0 <= r < 9 && 0 <= c < 9 ==> #[trigger] f(r, c) == h(r, c)
}

/// The unit of kind `k` that holds the cell at row `r`, column `c`.
pub open spec fn unit_index(k: Kind, r: int, c: int) -> int {
    match k {
        Kind::Box => box_index(r, c),
        Kind::Col => c,
        Kind::Row => r,
    }
}

/// The position of the cell at row `r`, column `c` within its unit of kind `k`.
pub open spec fn unit_position(k: Kind, r: int, c: int) -> int {
    match k {
        Kind::Box => r % 3 * 3 + c % 3,
        Kind::Col => r,
        Kind::Row => c,
    }
}

/// The candidates that `f` gives the `j`-th cell of unit `i` of kind `k`.
pub open spec fn unit_fn(f: spec_fn(int, int) -> Cell, k: Kind, i: int, j: int) -> Cell {
    f(unit_row(k, i, j), unit_col(k, i, j))
}

/// `f` with the candidates in `mask` removed from every cell of unit `ci` of kind `k` whose
/// position is not kept.
pub open spec fn clear_fn(f: spec_fn(int, int) -> Cell, k: Kind, ci: int, keep: spec_fn(int) -> bool, mask: u16) -> spec_fn(
    int,
    int,
) -> Cell {
    |r: int, c: int|
        if unit_index(k, r, c) == ci && !keep(unit_position(k, r, c)) {
            Cell(f(r, c).0 & !mask)
        } else {
            f(r, c)
        }
}

/// The `j`-th cell of unit `i` lies in that unit at that position.
pub proof fn lemma_unit_coords(k: Kind, i: int, j: int)
    requires
        0 <= i < 9,
        0 <= j < 9,
    ensures
        unit_index(k, unit_row(k, i, j), unit_col(k, i, j)) == i,
        unit_position(k, unit_row(k, i, j), unit_col(k, i, j)) == j,
{
    if k == Kind::Box {
        crate::generate::lemma_box_point_index(i, j);
    }
}

/// Every cell is the cell of its unit at its position.
pub proof fn lemma_cell_coords(k: Kind, r: int, c: int)
    requires
        0 <= r < 9,
        0 <= c < 9,
    ensures
        0 <= unit_index(k, r, c) < 9,
        0 <= unit_position(k, r, c) < 9,
        unit_row(k, unit_index(k, r, c), unit_position(k, r, c)) == r,
        unit_col(k, unit_index(k, r, c), unit_position(k, r, c)) == c,
{
    crate::strategies::box_line::lemma_cell_in_box(r, c);
}

/// Clearing agrees on every cell when the grids and the kept positions agree.
pub proof fn lemma_clear_same(
    f: spec_fn(int, int) -> Cell,
    h: spec_fn(int, int) -> Cell,
    k: Kind,
    ci: int,
    keep1: spec_fn(int) -> bool,
    keep2: spec_fn(int) -> bool,
    mask: u16,
)
    requires
        same_fn(f, h),
        forall|j: int| 0 <= j < 9 ==> #[trigger] keep1(j) == keep2(j),
    ensures
        same_fn(clear_fn(f, k, ci, keep1, mask), clear_fn(h, k, ci, keep2, mask)),
{
    assert forall|r: int, c: int| 0 <= r < 9 && 0 <= c < 9 implies #[trigger] clear_fn(f, k, ci, keep1, mask)(r, c) == clear_fn(
        h,
        k,
        ci,
        keep2,
        mask,
    )(r, c) by {
        lemma_cell_coords(k, r, c);
        assert(f(r, c) == h(r, c));
        assert(keep1(unit_position(k, r, c)) == keep2(unit_position(k, r, c)));
    }
}

} // verus!
