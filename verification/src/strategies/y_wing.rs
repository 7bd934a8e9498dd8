//! Y-wing: a pivot cell with the two candidates AB sees a wing AC and a wing BC; whichever of
//! A and B the pivot takes, one wing holds C, so a cell that sees both wings cannot hold C.
use vstd::prelude::*;
use crate::bits::{has_bit, popcount, lemma_bit_and, lemma_bit_or, lemma_bit_and_not, lemma_bit_single,
    lemma_popcount_mono, lemma_popcount_exhausted, lemma_subset_bit, lemma_and_not_changes};
use crate::cell::{Cell, count};
use crate::grid::{Grid, Group, Kind, Point, box_index, box_of, differs, narrower, lemma_box_point_in_box,
    lemma_narrower_keeps};
use crate::model::{is_solution, compatible, narrows, sol_at, lemma_narrows_refl, lemma_narrows_trans,
    lemma_differs_stays, lemma_narrow_step, lemma_compatible_wider};
use crate::strategies::point_of;
use crate::strategies::box_line::lemma_cell_in_box;
use crate::strategies::pass::{cells_of, grid_is, same_fn};

verus! {

/// `q` is another cell of the box, column or row of `p`.
pub open spec fn sees(p: Point, q: Point) -> bool {
    &&& p.0 < 9 && p.1 < 9 && q.0 < 9 && q.1 < 9
    &&& p != q
    &&& (p.0 == q.0 || p.1 == q.1 || box_index(p.0 as int, p.1 as int) == box_index(q.0 as int, q.1 as int))
}

/// The candidates of the cell at `p`.
pub open spec fn cell_at(g: Grid, p: Point) -> Cell {
    g.at(p.0 as int, p.1 as int)
}

/// `q` has two candidates and shares exactly `overlap` of them with `p`.
pub open spec fn wing_fit(g: Grid, p: Point, q: Point, overlap: int) -> bool {
    cell_at(g, q).size() == 2 && popcount(cell_at(g, p).0 & cell_at(g, q).0) == overlap
}

/// `q` sees `p` and fits it as a wing.
pub open spec fn wing_candidate(g: Grid, p: Point, q: Point, overlap: int) -> bool {
    sees(p, q) && wing_fit(g, p, q, overlap)
}

/// `q` is one of the first `n` positions of unit `i` of kind `k`.
pub open spec fn in_unit(k: Kind, i: int, q: Point, n: int) -> bool {
    exists|j: int| 0 <= j < n && q == #[trigger] point_of(k, i, j)
}

/// The candidates of the wings `p1` and `p2` that the pivot `p` does not have.
pub open spec fn wing_bits(g: Grid, p: Point, p1: Point, p2: Point) -> u16 {
    (cell_at(g, p1).0 | cell_at(g, p2).0) & !cell_at(g, p).0
}

/// Pivot `p` with wings `p1` and `p2` forms a y-wing, and the cell `o`, which sees both wings,
/// still has their third digit.
pub open spec fn y_wing_at(g: Grid, p: Point, p1: Point, p2: Point, o: Point) -> bool {
    let cell = cell_at(g, p).0;
    let c1 = cell_at(g, p1).0;
    let c2 = cell_at(g, p2).0;
    &&& popcount(cell) == 2
    &&& wing_candidate(g, p, p1, 1)
    &&& wing_candidate(g, p, p2, 1)
    &&& p1 != p2
    &&& popcount(c1 | c2) == 3
    &&& (cell & c1) | (cell & c2) == cell
    &&& sees(p1, o) && sees(p2, o) && o != p
    &&& cell_at(g, o).0 & wing_bits(g, p, p1, p2) != 0
}

/// A y-wing can remove a candidate somewhere in the grid.
pub open spec fn y_wing_applies(g: Grid) -> bool {
    exists|p: Point, p1: Point, p2: Point, o: Point| #[trigger] y_wing_at(g, p, p1, p2, o)
}

/// What pivot `p`, whose candidates are `cell`, does with wings `p1` and `p2` to the candidates
/// `f`: when the wings together have three candidates and hold every candidate of the pivot,
/// their candidates that the pivot lacks are removed from every cell but the pivot that sees
/// both wings.
pub open spec fn yw_pair(f: spec_fn(int, int) -> Cell, p: Point, p1: Point, p2: Point, cell: u16) -> spec_fn(
    int,
    int,
) -> Cell {
    let c1 = f(p1.0 as int, p1.1 as int).0;
    let c2 = f(p2.0 as int, p2.1 as int).0;
    let bits = (c1 | c2) & !cell;
    |r: int, c: int|
        if popcount(c1 | c2) == 3 && (cell & c1) | (cell & c2) == cell && sees(p1, (r as usize, c as usize)) && sees(
            p2,
            (r as usize, c as usize),
        ) && (r as usize, c as usize) != p {
            Cell(f(r, c).0 & !bits)
        } else {
            f(r, c)
        }
}

/// The wing at position `a` of `cands` tried with the wings at the first `n` positions, in
/// order, skipping itself.
pub open spec fn yw_inner(f: spec_fn(int, int) -> Cell, p: Point, cands: Seq<Point>, a: int, n: int, cell: u16) -> spec_fn(
    int,
    int,
) -> Cell
    decreases n,
{
    if n <= 0 {
        f
    } else {
        let g = yw_inner(f, p, cands, a, n - 1, cell);
        if a == n - 1 {
            g
        } else {
            yw_pair(g, p, cands[a], cands[n - 1], cell)
        }
    }
}

/// The wings at the first `n` positions of `cands`, in order, each tried with every wing.
pub open spec fn yw_outer(f: spec_fn(int, int) -> Cell, p: Point, cands: Seq<Point>, n: int, cell: u16) -> spec_fn(
    int,
    int,
) -> Cell
    decreases n,
{
    if n <= 0 {
        f
    } else {
        yw_inner(yw_outer(f, p, cands, n - 1, cell), p, cands, n - 1, cands.len() as int, cell)
    }
}

/// What pivot `p` does to `f` with its wings tried in the order of `cands`: nothing unless the
/// pivot has two candidates.
pub open spec fn yw_pivot(f: spec_fn(int, int) -> Cell, p: Point, cands: Seq<Point>) -> spec_fn(int, int) -> Cell {
    let cell = f(p.0 as int, p.1 as int).0;
    if popcount(cell) == 2 {
        yw_outer(f, p, cands, cands.len() as int, cell)
    } else {
        f
    }
}

/// `cands` lists the wings of pivot `p` in `f`, each once: the cells that `p` sees with two
/// candidates, one of them shared with `p`.
pub open spec fn lists_wings(f: spec_fn(int, int) -> Cell, p: Point, cands: Seq<Point>) -> bool {
    &&& cands.no_duplicates()
    &&& forall|q: Point|
        #[trigger] cands.contains(q) == (sees(p, q) && popcount(f(q.0 as int, q.1 as int).0) == 2 && popcount(
            f(p.0 as int, p.1 as int).0 & f(q.0 as int, q.1 as int).0,
        ) == 1)
}

/// The `t`-th pivot: the pivots are taken box by box, each box in order.
pub open spec fn box_pivot(t: int) -> Point {
    point_of(Kind::Box, t / 9, t % 9)
}

/// What the first pivots do to `f`, pivot `t` trying its wings in the order of `orders[t]`.
pub open spec fn yw_run(f: spec_fn(int, int) -> Cell, orders: Seq<Seq<Point>>) -> spec_fn(int, int) -> Cell
    decreases orders.len(),
{
    if orders.len() == 0 {
        f
    } else {
        yw_pivot(yw_run(f, orders.drop_last()), box_pivot(orders.len() - 1), orders.last())
    }
}

/// `orders[t]` lists the wings of pivot `t`, when it has two candidates, in what the pivots
/// before it left of `f`.
pub open spec fn pivot_listed(f: spec_fn(int, int) -> Cell, orders: Seq<Seq<Point>>, t: int) -> bool {
    let g = yw_run(f, orders.take(t));
    let p = box_pivot(t);
    popcount(g(p.0 as int, p.1 as int).0) == 2 ==> lists_wings(g, p, orders[t])
}

/// Every pivot of `orders` lists its wings.
pub open spec fn wing_orders(f: spec_fn(int, int) -> Cell, orders: Seq<Seq<Point>>) -> bool {
    forall|t: int| 0 <= t < orders.len() ==> #[trigger] pivot_listed(f, orders, t)
}

/// A pivot with wings gives the same on candidates that agree on the grid.
proof fn lemma_yw_pair_same(f: spec_fn(int, int) -> Cell, h: spec_fn(int, int) -> Cell, p: Point, p1: Point, p2: Point, cell: u16)
    requires
        same_fn(f, h),
    ensures
        same_fn(yw_pair(f, p, p1, p2, cell), yw_pair(h, p, p1, p2, cell)),
{
    assert forall|r: int, c: int| 0 <= r < 9 && 0 <= c < 9 implies #[trigger] yw_pair(f, p, p1, p2, cell)(r, c) == yw_pair(
        h,
        p,
        p1,
        p2,
        cell,
    )(r, c) by {
        assert(f(r, c) == h(r, c));
        if sees(p1, (r as usize, c as usize)) && sees(p2, (r as usize, c as usize)) {
            assert(f(p1.0 as int, p1.1 as int) == h(p1.0 as int, p1.1 as int));
            assert(f(p2.0 as int, p2.1 as int) == h(p2.0 as int, p2.1 as int));
        }
    }
}

proof fn lemma_yw_inner_same(
    f: spec_fn(int, int) -> Cell,
    h: spec_fn(int, int) -> Cell,
    p: Point,
    cands: Seq<Point>,
    a: int,
    n: int,
    cell: u16,
)
    requires
        same_fn(f, h),
    ensures
        same_fn(yw_inner(f, p, cands, a, n, cell), yw_inner(h, p, cands, a, n, cell)),
    decreases n,
{
    if n > 0 {
        lemma_yw_inner_same(f, h, p, cands, a, n - 1, cell);
        if a != n - 1 {
            lemma_yw_pair_same(yw_inner(f, p, cands, a, n - 1, cell), yw_inner(h, p, cands, a, n - 1, cell), p, cands[a], cands[n - 1], cell);
        }
    }
}

proof fn lemma_yw_outer_same(f: spec_fn(int, int) -> Cell, h: spec_fn(int, int) -> Cell, p: Point, cands: Seq<Point>, n: int, cell: u16)
    requires
        same_fn(f, h),
    ensures
        same_fn(yw_outer(f, p, cands, n, cell), yw_outer(h, p, cands, n, cell)),
    decreases n,
{
    if n > 0 {
        lemma_yw_outer_same(f, h, p, cands, n - 1, cell);
        lemma_yw_inner_same(yw_outer(f, p, cands, n - 1, cell), yw_outer(h, p, cands, n - 1, cell), p, cands, n - 1, cands.len() as int, cell);
    }
}

/// A pivot gives the same on candidates that agree on the grid.
proof fn lemma_yw_pivot_same(f: spec_fn(int, int) -> Cell, h: spec_fn(int, int) -> Cell, p: Point, cands: Seq<Point>)
    requires
        same_fn(f, h),
        p.0 < 9,
        p.1 < 9,
    ensures
        same_fn(yw_pivot(f, p, cands), yw_pivot(h, p, cands)),
        lists_wings(f, p, cands) == lists_wings(h, p, cands),
{
    assert(f(p.0 as int, p.1 as int) == h(p.0 as int, p.1 as int));
    let cell = f(p.0 as int, p.1 as int).0;
    if popcount(cell) == 2 {
        lemma_yw_outer_same(f, h, p, cands, cands.len() as int, cell);
    }
    assert forall|q: Point| sees(p, q) implies f(q.0 as int, q.1 as int) == h(q.0 as int, q.1 as int) by {}
}

/// Every cell of `g` holds what `h` gives for it, when `f` gives the same as `h`.
proof fn lemma_grid_is_same(g: Grid, f: spec_fn(int, int) -> Cell, h: spec_fn(int, int) -> Cell)
    requires
        grid_is(g, f),
        same_fn(f, h),
    ensures
        grid_is(g, h),
{
    assert forall|r: int, c: int| 0 <= r < 9 && 0 <= c < 9 implies #[trigger] g.at(r, c) == h(r, c) by {
        assert(f(r, c) == h(r, c));
    }
}

/// Two cells that see each other hold different digits in a completed sudoku.
pub proof fn lemma_sees_distinct(s: spec_fn(int, int) -> int, p: Point, q: Point)
    requires
        is_solution(s),
        sees(p, q),
    ensures
        s(p.0 as int, p.1 as int) != s(q.0 as int, q.1 as int),
{
    let pr = p.0 as int;
    let pc = p.1 as int;
    let qr = q.0 as int;
    let qc = q.1 as int;
    if pr == qr {
        assert(sol_at(s, Kind::Row, pr, pc) != sol_at(s, Kind::Row, pr, qc));
    } else if pc == qc {
        assert(sol_at(s, Kind::Col, pc, pr) != sol_at(s, Kind::Col, pc, qr));
    } else {
        lemma_cell_in_box(pr, pc);
        lemma_cell_in_box(qr, qc);
        let b = box_index(pr, pc);
        let jp = pr % 3 * 3 + pc % 3;
        let jq = qr % 3 * 3 + qc % 3;
        assert(jp != jq);
        assert(sol_at(s, Kind::Box, b, jp) != sol_at(s, Kind::Box, b, jq));
    }
}

/// The cells that `p` sees are those of its box, column and row, other than itself.
pub proof fn lemma_sees_units(p: Point, q: Point)
    requires
        p.0 < 9,
        p.1 < 9,
    ensures
        sees(p, q) == (q != p && (in_unit(Kind::Box, box_index(p.0 as int, p.1 as int), q, 9) || in_unit(
            Kind::Col,
            p.1 as int,
            q,
            9,
        ) || in_unit(Kind::Row, p.0 as int, q, 9))),
{
    let b = box_index(p.0 as int, p.1 as int);
    if in_unit(Kind::Box, b, q, 9) {
        let j = choose|j: int| 0 <= j < 9 && q == #[trigger] point_of(Kind::Box, b, j);
        lemma_box_point_in_box(b, j);
        crate::grid::lemma_unit_in_range(Kind::Box, b, j);
    }
    if in_unit(Kind::Col, p.1 as int, q, 9) {
        let j = choose|j: int| 0 <= j < 9 && q == #[trigger] point_of(Kind::Col, p.1 as int, j);
    }
    if in_unit(Kind::Row, p.0 as int, q, 9) {
        let j = choose|j: int| 0 <= j < 9 && q == #[trigger] point_of(Kind::Row, p.0 as int, j);
    }
    if sees(p, q) {
        if q.0 == p.0 {
            assert(q == point_of(Kind::Row, p.0 as int, q.1 as int));
        } else if q.1 == p.1 {
            assert(q == point_of(Kind::Col, p.1 as int, q.0 as int));
        } else {
            lemma_cell_in_box(q.0 as int, q.1 as int);
            assert(q == point_of(Kind::Box, b, q.0 % 3 * 3 + q.1 % 3));
        }
    }
}

/// Of three bits in `a | b`, two are covered by `c`: the bits left over are one.
pub proof fn lemma_one_left(a: u16, b: u16, c: u16, x: int, y: int)
    requires
        (c & a) | (c & b) == c,
        popcount(a | b) == 3,
        popcount(c) == 2,
        has_bit((a | b) & !c, x),
        has_bit((a | b) & !c, y),
    ensures
        x == y,
{
    let u = a | b;
    assert(c & u == c) by (bit_vector)
        requires
            (c & a) | (c & b) == c,
            u == a | b,
    ;
    lemma_bit_and_not(u, c, x);
    lemma_bit_and_not(u, c, y);
    let xx = x as u16;
    let c2 = c | (1u16 << xx);
    assert(c2 & u == c2 && c & c2 == c && c2 != c) by (bit_vector)
        requires
            c & u == c,
            u & (1u16 << xx) != 0,
            c & (1u16 << xx) == 0,
            xx < 16,
            c2 == c | (1u16 << xx),
    ;
    lemma_popcount_mono(c, c2);
    lemma_popcount_mono(c2, u);
    assert(c2 == u);
    lemma_bit_or(c, 1u16 << xx, y);
    lemma_bit_single(xx, y);
}

/// If the pivot takes a digit of wing `q`, the wing takes its digit outside the pivot.
pub proof fn lemma_wing_other(clone: Grid, gp: Grid, p: Point, q: Point, s: spec_fn(int, int) -> int)
    requires
        narrower(gp, clone),
        cell_at(gp, p) == cell_at(clone, p),
        wing_candidate(clone, p, q, 1),
        is_solution(s),
        compatible(gp, s),
        has_bit(cell_at(gp, q).0, s(p.0 as int, p.1 as int)),
    ensures
        has_bit(cell_at(gp, q).0 & !cell_at(gp, p).0, s(q.0 as int, q.1 as int)),
{
    let cell = cell_at(gp, p).0;
    let cq = cell_at(gp, q).0;
    let kq = cell_at(clone, q).0;
    let sp = s(p.0 as int, p.1 as int);
    let sq = s(q.0 as int, q.1 as int);
    assert(gp.at(q.0 as int, q.1 as int).has(sq));
    assert(gp.at(p.0 as int, p.1 as int).has(sp));
    lemma_sees_distinct(s, p, q);
    if has_bit(cell, sq) {
        assert(gp.at(q.0 as int, q.1 as int).within(clone.at(q.0 as int, q.1 as int)));
        lemma_subset_bit(cq, kq, sq);
        lemma_subset_bit(cq, kq, sp);
        lemma_bit_and(cell, kq, sq);
        lemma_bit_and(cell, kq, sp);
        lemma_popcount_exhausted(cell & kq, set![sp], sq);
    }
    lemma_bit_and_not(cq, cell, sq);
}

/// In a completed sudoku that fits the grid, a cell that sees both wings of a y-wing does not
/// hold their third digit.
pub proof fn lemma_y_wing_sound(clone: Grid, gp: Grid, p: Point, p1: Point, p2: Point)
    requires
        narrower(gp, clone),
        cell_at(gp, p) == cell_at(clone, p),
        popcount(cell_at(gp, p).0) == 2,
        wing_candidate(clone, p, p1, 1),
        wing_candidate(clone, p, p2, 1),
        popcount(cell_at(gp, p1).0 | cell_at(gp, p2).0) == 3,
        (cell_at(gp, p).0 & cell_at(gp, p1).0) | (cell_at(gp, p).0 & cell_at(gp, p2).0) == cell_at(gp, p).0,
    ensures
        forall|s: spec_fn(int, int) -> int, o: Point|
            #![trigger compatible(gp, s), sees(p1, o)]
            is_solution(s) && compatible(gp, s) && sees(p1, o) && sees(p2, o)
                ==> !has_bit(wing_bits(gp, p, p1, p2), s(o.0 as int, o.1 as int)),
{
    let cell = cell_at(gp, p).0;
    let c1 = cell_at(gp, p1).0;
    let c2 = cell_at(gp, p2).0;
    let bits = wing_bits(gp, p, p1, p2);
    assert forall|s: spec_fn(int, int) -> int, o: Point|
        #![trigger compatible(gp, s), sees(p1, o)]
        is_solution(s) && compatible(gp, s) && sees(p1, o) && sees(p2, o) implies !has_bit(bits, s(o.0 as int, o.1 as int)) by {
        let sp = s(p.0 as int, p.1 as int);
        let so = s(o.0 as int, o.1 as int);
        assert(gp.at(p.0 as int, p.1 as int).has(sp));
        lemma_bit_or(cell & c1, cell & c2, sp);
        lemma_bit_and(cell, c1, sp);
        lemma_bit_and(cell, c2, sp);
        lemma_sees_distinct(s, p1, o);
        lemma_sees_distinct(s, p2, o);
        if has_bit(c1, sp) {
            lemma_wing_other(clone, gp, p, p1, s);
            lemma_bit_or(c1, c2, s(p1.0 as int, p1.1 as int));
            lemma_bit_and_not(c1, cell, s(p1.0 as int, p1.1 as int));
            lemma_bit_and_not(c1 | c2, cell, s(p1.0 as int, p1.1 as int));
            if has_bit(bits, so) {
                lemma_one_left(c1, c2, cell, so, s(p1.0 as int, p1.1 as int));
            }
        } else {
            lemma_wing_other(clone, gp, p, p2, s);
            lemma_bit_or(c1, c2, s(p2.0 as int, p2.1 as int));
            lemma_bit_and_not(c2, cell, s(p2.0 as int, p2.1 as int));
            lemma_bit_and_not(c1 | c2, cell, s(p2.0 as int, p2.1 as int));
            if has_bit(bits, so) {
                lemma_one_left(c1, c2, cell, so, s(p2.0 as int, p2.1 as int));
            }
        }
    }
}

/// Returns whether `q` is one of the points of `v`.
fn contains_point(v: &Vec<Point>, q: &Point) -> (found: bool)
    ensures
        found == v@.contains(*q),
{
    let mut i: usize = 0;
    while i < v.len()
        invariant
            i <= v.len(),
            forall|t: int| 0 <= t < i ==> #[trigger] v@[t] != *q,
        decreases v.len() - i,
    {
        if v[i].0 == q.0 && v[i].1 == q.1 {
            assert(v@[i as int] == *q);
            return true;
        }
        i += 1;
    }
    false
}

/// Adds to `set` the points of `items` that it does not hold yet.
fn insert_all(set: &mut Vec<Point>, items: &Vec<Point>)
    requires
        old(set)@.no_duplicates(),
    ensures
        final(set)@.no_duplicates(),
        forall|q: Point| #[trigger] final(set)@.contains(q) == (old(set)@.contains(q) || items@.contains(q)),
{
    let ghost s0 = set@;
    let mut i: usize = 0;
    while i < items.len()
        invariant
            i <= items.len(),
            set@.no_duplicates(),
            forall|q: Point| #[trigger] set@.contains(q) == (s0.contains(q) || items@.subrange(0, i as int).contains(q)),
        decreases items.len() - i,
    {
        let q = items[i];
        let ghost before = set@;
        let found = contains_point(set, &q);
        if !found {
            set.push(q);
            proof {
                assert forall|a: int, b: int| 0 <= a < b < set@.len() implies set@[a] != set@[b] by {
                    if b == set@.len() - 1 {
                        assert(set@[b] == q);
                        assert(set@[a] == before[a]);
                    } else {
                        assert(set@[a] == before[a] && set@[b] == before[b]);
                    }
                }
            }
        }
        proof {
            let sub = items@.subrange(0, i as int);
            let sub1 = items@.subrange(0, i + 1);
            assert forall|x: Point| #[trigger] set@.contains(x) == (s0.contains(x) || sub1.contains(x)) by {
                if sub1.contains(x) {
                    let t = choose|t: int| 0 <= t < sub1.len() && sub1[t] == x;
                    if t < i {
                        assert(sub[t] == x);
                    }
                }
                if sub.contains(x) {
                    let t = choose|t: int| 0 <= t < sub.len() && sub[t] == x;
                    assert(sub1[t] == x);
                }
                assert(sub1[i as int] == q);
                if set@.contains(x) && !before.contains(x) {
                    let t = choose|t: int| 0 <= t < set@.len() && set@[t] == x;
                    if t < before.len() {
                        assert(before[t] == x);
                    }
                }
                if before.contains(x) {
                    let t = choose|t: int| 0 <= t < before.len() && before[t] == x;
                    assert(set@[t] == x);
                }
                if x == q && !found {
                    assert(set@[before.len() as int] == q);
                }
            }
        }
        i += 1;
    }
    proof {
        assert(items@.subrange(0, items.len() as int) =~= items@);
    }
}

/// Returns the cells that `curr` sees: those of its box, column and row, other than itself.
fn neighbors(curr: &Point) -> (points: [[bool; 9]; 9])
    requires
        curr.0 < 9,
        curr.1 < 9,
    ensures
        forall|r: int, c: int| 0 <= r < 9 && 0 <= c < 9 ==> #[trigger] points[r][c] == sees(*curr, (r as usize, c as usize)),
{
    let b = box_of(curr.0, curr.1);
    let mut points: [[bool; 9]; 9] = [[false; 9]; 9];
    let mut r: usize = 0;
    while r < 9
        invariant
            r <= 9,
            curr.0 < 9,
            curr.1 < 9,
            b == box_index(curr.0 as int, curr.1 as int),
            forall|a: int, c: int| 0 <= a < r && 0 <= c < 9 ==> #[trigger] points[a][c] == sees(*curr, (a as usize, c as usize)),
        decreases 9 - r,
    {
        let mut row: [bool; 9] = [false; 9];
        let mut c: usize = 0;
        while c < 9
            invariant
                r < 9,
                c <= 9,
                curr.0 < 9,
                curr.1 < 9,
                b == box_index(curr.0 as int, curr.1 as int),
                forall|cc: int| 0 <= cc < c ==> #[trigger] row[cc] == sees(*curr, (r, cc as usize)),
            decreases 9 - c,
        {
            row[c] = !(r == curr.0 && c == curr.1) && (r == curr.0 || c == curr.1 || box_of(r, c) == b);
            c += 1;
        }
        points[r] = row;
        r += 1;
    }
    points
}

impl Grid {
    /// Returns the positions of unit `ui` of `group`, other than `curr`, whose cells have two
    /// candidates and share exactly `overlap` of them with `curr`.
    fn find_y_wing_candidates_unit(&self, group: &Group, ui: usize, curr: &Point, overlap: usize) -> (set: Vec<Point>)
        requires
            self.fits(),
            group.wf(),
            ui < 9,
            curr.0 < 9,
            curr.1 < 9,
        ensures
            set@.no_duplicates(),
            forall|q: Point| #[trigger] set@.contains(q) == (in_unit(group.kind, ui as int, q, 9) && q != *curr && wing_fit(
                *self,
                *curr,
                q,
                overlap as int,
            )),
    {
        let ghost k = group.kind;
        let cell = self.get(*curr);
        let mut set: Vec<Point> = Vec::new();
        let mut j: usize = 0;
        while j < 9
            invariant
                j <= 9,
                ui < 9,
                group.wf(),
                k == group.kind,
                self.fits(),
                curr.0 < 9,
                curr.1 < 9,
                cell == cell_at(*self, *curr),
                set@.no_duplicates(),
                forall|t: int| 0 <= t < set@.len() ==> in_unit(k, ui as int, #[trigger] set@[t], j as int),
                forall|q: Point| #[trigger] set@.contains(q) == (in_unit(k, ui as int, q, j as int) && q != *curr
                    && wing_fit(*self, *curr, q, overlap as int)),
            decreases 9 - j,
        {
            let p = group.cells[ui][j];
            let ghost before = set@;
            proof {
                crate::grid::lemma_unit_in_range(k, ui as int, j as int);
                assert(p == point_of(k, ui as int, j as int));
            }
            if !(p.0 == curr.0 && p.1 == curr.1) {
                let candidate = self.get(p);
                proof {
                    crate::bits::lemma_and_subset(cell.0, candidate.0);
                    crate::bits::lemma_subset_fits(cell.0 & candidate.0, cell.0);
                }
                if candidate.count() == 2 && count(cell.0 & candidate.0) as usize == overlap {
                    proof {
                        if before.contains(p) {
                            let t = choose|t: int| 0 <= t < before.len() && before[t] == p;
                            assert(in_unit(k, ui as int, before[t], j as int));
                            let jj = choose|jj: int| 0 <= jj < j && before[t] == #[trigger] point_of(k, ui as int, jj);
                            crate::grid::lemma_unit_injective(k, ui as int, jj, j as int);
                        }
                    }
                    set.push(p);
                    proof {
                        assert forall|a: int, b: int| 0 <= a < b < set@.len() implies set@[a] != set@[b] by {
                            if b == set@.len() - 1 {
                                assert(set@[a] == before[a]);
                                assert(before.contains(before[a]));
                            } else {
                                assert(set@[a] == before[a] && set@[b] == before[b]);
                            }
                        }
                    }
                }
            }
            proof {
                assert forall|t: int| 0 <= t < set@.len() implies in_unit(k, ui as int, #[trigger] set@[t], j + 1) by {
                    if t < before.len() {
                        assert(set@[t] == before[t]);
                        assert(in_unit(k, ui as int, before[t], j as int));
                        let jj = choose|jj: int| 0 <= jj < j && before[t] == #[trigger] point_of(k, ui as int, jj);
                        assert(set@[t] == point_of(k, ui as int, jj));
                    } else {
                        assert(set@[t] == point_of(k, ui as int, j as int));
                    }
                }
                assert forall|q: Point| #[trigger] set@.contains(q) == (in_unit(k, ui as int, q, j + 1) && q != *curr
                    && wing_fit(*self, *curr, q, overlap as int)) by {
                    if in_unit(k, ui as int, q, j + 1) && !in_unit(k, ui as int, q, j as int) {
                        let jj = choose|jj: int| 0 <= jj < j + 1 && q == #[trigger] point_of(k, ui as int, jj);
                        assert(jj == j);
                    }
                    if in_unit(k, ui as int, q, j as int) {
                        let jj = choose|jj: int| 0 <= jj < j && q == #[trigger] point_of(k, ui as int, jj);
                        assert(q == point_of(k, ui as int, jj));
                    }
                    if set@.contains(q) && !before.contains(q) {
                        let t = choose|t: int| 0 <= t < set@.len() && set@[t] == q;
                        if t < before.len() {
                            assert(before[t] == q);
                        }
                    }
                    if before.contains(q) {
                        let t = choose|t: int| 0 <= t < before.len() && before[t] == q;
                        assert(set@[t] == q);
                    }
                    if q == p && set@.len() > before.len() {
                        assert(set@[before.len() as int] == p);
                    }
                }
            }
            j += 1;
        }
        set
    }

    /// Returns the cells that `curr` sees which have two candidates and share exactly
    /// `overlap` of them with `curr`, each once.
    fn find_y_wing_candidates(&self, curr: &Point, overlap: usize) -> (set: Vec<Point>)
        requires
            self.fits(),
            curr.0 < 9,
            curr.1 < 9,
        ensures
            set@.no_duplicates(),
            forall|q: Point| #[trigger] set@.contains(q) == wing_candidate(*self, *curr, q, overlap as int),
    {
        let mut set: Vec<Point> = Vec::new();
        let in_box = self.find_y_wing_candidates_unit(&Group::new(Kind::Box), box_of(curr.0, curr.1), curr, overlap);
        insert_all(&mut set, &in_box);
        let in_col = self.find_y_wing_candidates_unit(&Group::new(Kind::Col), curr.1, curr, overlap);
        insert_all(&mut set, &in_col);
        let in_row = self.find_y_wing_candidates_unit(&Group::new(Kind::Row), curr.0, curr, overlap);
        insert_all(&mut set, &in_row);
        proof {
            assert forall|q: Point| #[trigger] set@.contains(q) == wing_candidate(*self, *curr, q, overlap as int) by {
                lemma_sees_units(*curr, q);
            }
        }
        set
    }
}

impl Grid {
    /// y_wing removes candidates: if a cell has two candidates AB, a cell that it sees has AC
    /// and another cell that it sees has BC, then C is removed from every other cell that sees
    /// both of those. The pivots are taken box by box; each pivot tries every ordered pair of
    /// its wings, the wings listed once each in an order that the contract leaves open. Returns
    /// true if it changed any cell.
    pub fn y_wing(&mut self) -> (res: bool)
        requires
            old(self).fits(),
        ensures
            narrows(*old(self), *final(self)),
            res == differs(*final(self), *old(self)),
            res == y_wing_applies(*old(self)),
            exists|orders: Seq<Seq<Point>>|
                orders.len() == 81 && wing_orders(cells_of(*old(self)), orders) && #[trigger] grid_is(
                    *final(self),
                    yw_run(cells_of(*old(self)), orders),
                ),
    {
        let ghost g0 = *self;
        let boxes = Group::new(Kind::Box);
        let mut res = false;
        let ghost mut ords: Seq<Seq<Point>> = Seq::empty();
        proof {
            lemma_narrows_refl(g0);
        }
        let mut bi: usize = 0;
        while bi < 9
            invariant
                bi <= 9,
                boxes.wf(),
                boxes.kind == Kind::Box,
                g0.fits(),
                narrows(g0, *self),
                res == differs(*self, g0),
                !res ==> *self == g0,
                res ==> y_wing_applies(g0),
                !res ==> forall|b: int, jj: int, p1: Point, p2: Point, o: Point|
                    0 <= b < bi && 0 <= jj < 9 ==> !#[trigger] y_wing_at(g0, point_of(Kind::Box, b, jj), p1, p2, o),
                ords.len() == bi * 9,
                wing_orders(cells_of(g0), ords),
                grid_is(*self, yw_run(cells_of(g0), ords)),
            decreases 9 - bi,
        {
            let mut j: usize = 0;
            while j < 9
                invariant
                    bi < 9,
                    j <= 9,
                    boxes.wf(),
                    boxes.kind == Kind::Box,
                    g0.fits(),
                    narrows(g0, *self),
                    res == differs(*self, g0),
                    !res ==> *self == g0,
                    res ==> y_wing_applies(g0),
                    !res ==> forall|b: int, jj: int, p1: Point, p2: Point, o: Point|
                        0 <= b < bi && 0 <= jj < 9 ==> !#[trigger] y_wing_at(g0, point_of(Kind::Box, b, jj), p1, p2, o),
                    !res ==> forall|jj: int, p1: Point, p2: Point, o: Point|
                        0 <= jj < j ==> !#[trigger] y_wing_at(g0, point_of(Kind::Box, bi as int, jj), p1, p2, o),
                    ords.len() == bi * 9 + j,
                    wing_orders(cells_of(g0), ords),
                    grid_is(*self, yw_run(cells_of(g0), ords)),
                decreases 9 - j,
            {
                let p = boxes.cells[bi][j];
                let ghost before = *self;
                proof {
                    crate::grid::lemma_unit_in_range(Kind::Box, bi as int, j as int);
                    assert(p == point_of(Kind::Box, bi as int, j as int));
                    lemma_narrower_keeps(before, g0);
                }
                let ch = self.y_wing_point(&p);
                proof {
                    let t = ords.len() as int;
                    assert(t / 9 == bi && t % 9 == j) by (nonlinear_arith)
                        requires
                            t == bi * 9 + j,
                            j < 9,
                    ;
                    assert(p == box_pivot(t));
                    let cands = choose|cands: Seq<Point>|
                        (popcount(cell_at(before, p).0) == 2 ==> lists_wings(cells_of(before), p, cands))
                            && #[trigger] grid_is(*self, yw_pivot(cells_of(before), p, cands));
                    let rr = yw_run(cells_of(g0), ords);
                    assert(same_fn(cells_of(before), rr));
                    lemma_yw_pivot_same(cells_of(before), rr, p, cands);
                    lemma_grid_is_same(*self, yw_pivot(cells_of(before), p, cands), yw_pivot(rr, p, cands));
                    let prev = ords;
                    ords = ords.push(cands);
                    assert(ords.drop_last() =~= prev);
                    assert(grid_is(*self, yw_run(cells_of(g0), ords)));
                    assert forall|i: int| 0 <= i < ords.len() implies #[trigger] pivot_listed(cells_of(g0), ords, i) by {
                        if i < t {
                            assert(ords.take(i) =~= prev.take(i));
                            assert(pivot_listed(cells_of(g0), prev, i));
                        } else {
                            assert(ords.take(i) =~= prev);
                            assert(rr(p.0 as int, p.1 as int) == before.at(p.0 as int, p.1 as int));
                        }
                    }
                    lemma_narrows_trans(g0, before, *self);
                    if res {
                        lemma_differs_stays(g0, before, *self);
                    } else if ch {
                        let (p1, p2, o) = choose|p1: Point, p2: Point, o: Point| #[trigger] y_wing_at(g0, p, p1, p2, o);
                        assert(y_wing_at(g0, p, p1, p2, o));
                    }
                }
                if ch {
                    res = true;
                }
                j += 1;
            }
            bi += 1;
        }
        proof {
            assert(grid_is(*self, yw_run(cells_of(g0), ords)));
            if !res {
                assert forall|p: Point, p1: Point, p2: Point, o: Point| !#[trigger] y_wing_at(g0, p, p1, p2, o) by {
                    if y_wing_at(g0, p, p1, p2, o) {
                        lemma_cell_in_box(p.0 as int, p.1 as int);
                        let b = box_index(p.0 as int, p.1 as int);
                        let jj = p.0 % 3 * 3 + p.1 % 3;
                        assert(p == point_of(Kind::Box, b, jj as int));
                    }
                }
            }
        }
        res
    }

    /// Applies y-wing with the cell at `p` as the pivot; returns true if it changed any cell.
    fn y_wing_point(&mut self, p: &Point) -> (res: bool)
        requires
            old(self).fits(),
            p.0 < 9,
            p.1 < 9,
        ensures
            narrows(*old(self), *final(self)),
            res == differs(*final(self), *old(self)),
            !res ==> *final(self) == *old(self),
            res == exists|p1: Point, p2: Point, o: Point| #[trigger] y_wing_at(*old(self), *p, p1, p2, o),
            exists|cands: Seq<Point>|
                (popcount(cell_at(*old(self), *p).0) == 2 ==> lists_wings(cells_of(*old(self)), *p, cands))
                    && #[trigger] grid_is(*final(self), yw_pivot(cells_of(*old(self)), *p, cands)),
    {
        let ghost g0 = *self;
        proof {
            lemma_narrows_refl(g0);
        }
        let cell = self.get(*p);
        if cell.count() != 2 {
            proof {
                assert(grid_is(*self, yw_pivot(cells_of(g0), *p, Seq::<Point>::empty())));
            }
            return false;
        }
        let clone = *self;
        let candidates = clone.find_y_wing_candidates(p, 1);
        let mut res = false;
        let mut c1i: usize = 0;
        while c1i < candidates.len()
            invariant
                c1i <= candidates.len(),
                p.0 < 9,
                p.1 < 9,
                clone == g0,
                g0.fits(),
                cell == cell_at(g0, *p),
                cell.size() == 2,
                candidates@.no_duplicates(),
                forall|q: Point| #[trigger] candidates@.contains(q) == wing_candidate(g0, *p, q, 1),
                narrows(g0, *self),
                cell_at(*self, *p) == cell,
                res == differs(*self, g0),
                !res ==> *self == g0,
                res ==> exists|p1: Point, p2: Point, o: Point| #[trigger] y_wing_at(g0, *p, p1, p2, o),
                !res ==> forall|a: int, b: int, o: Point|
                    0 <= a < c1i && 0 <= b < candidates.len() ==> !#[trigger] y_wing_at(g0, *p, candidates@[a], candidates@[b], o),
                grid_is(*self, yw_outer(cells_of(g0), *p, candidates@, c1i as int, cell.0)),
            decreases candidates.len() - c1i,
        {
            let mut c2i: usize = 0;
            while c2i < candidates.len()
                invariant
                    c1i < candidates.len(),
                    c2i <= candidates.len(),
                    p.0 < 9,
                    p.1 < 9,
                    clone == g0,
                    g0.fits(),
                    cell == cell_at(g0, *p),
                    cell.size() == 2,
                    candidates@.no_duplicates(),
                    forall|q: Point| #[trigger] candidates@.contains(q) == wing_candidate(g0, *p, q, 1),
                    narrows(g0, *self),
                    cell_at(*self, *p) == cell,
                    res == differs(*self, g0),
                    !res ==> *self == g0,
                    res ==> exists|p1: Point, p2: Point, o: Point| #[trigger] y_wing_at(g0, *p, p1, p2, o),
                    !res ==> forall|a: int, b: int, o: Point|
                        0 <= a < c1i && 0 <= b < candidates.len() ==> !#[trigger] y_wing_at(g0, *p, candidates@[a], candidates@[b], o),
                    !res ==> forall|b: int, o: Point|
                        0 <= b < c2i ==> !#[trigger] y_wing_at(g0, *p, candidates@[c1i as int], candidates@[b], o),
                    grid_is(
                        *self,
                        yw_inner(
                            yw_outer(cells_of(g0), *p, candidates@, c1i as int, cell.0),
                            *p,
                            candidates@,
                            c1i as int,
                            c2i as int,
                            cell.0,
                        ),
                    ),
                decreases candidates.len() - c2i,
            {
                let ghost gi = yw_inner(
                    yw_outer(cells_of(g0), *p, candidates@, c1i as int, cell.0),
                    *p,
                    candidates@,
                    c1i as int,
                    c2i as int,
                    cell.0,
                );
                if c1i != c2i {
                    let ghost before = *self;
                    let p1 = candidates[c1i];
                    let p2 = candidates[c2i];
                    proof {
                        assert(candidates@.contains(p1));
                        assert(candidates@.contains(p2));
                    }
                    let ch = self.y_wing_pair(p, &p1, &p2, cell, Ghost(clone));
                    proof {
                        assert(same_fn(cells_of(before), gi));
                        lemma_yw_pair_same(cells_of(before), gi, *p, p1, p2, cell.0);
                        lemma_grid_is_same(*self, yw_pair(cells_of(before), *p, p1, p2, cell.0), yw_pair(gi, *p, p1, p2, cell.0));
                        lemma_narrows_trans(g0, before, *self);
                        if res {
                            lemma_differs_stays(g0, before, *self);
                        } else if ch {
                            let o = choose|o: Point| #[trigger] y_wing_at(g0, *p, p1, p2, o);
                            assert(y_wing_at(g0, *p, p1, p2, o));
                        }
                    }
                    if ch {
                        res = true;
                    }
                }
                c2i += 1;
            }
            c1i += 1;
        }
        proof {
            assert(lists_wings(cells_of(g0), *p, candidates@)) by {
                assert forall|q: Point| #[trigger] candidates@.contains(q) == (sees(*p, q) && popcount(cells_of(g0)(q.0 as int, q.1 as int).0) == 2
                    && popcount(cells_of(g0)(p.0 as int, p.1 as int).0 & cells_of(g0)(q.0 as int, q.1 as int).0) == 1) by {
                    assert(candidates@.contains(q) == wing_candidate(g0, *p, q, 1));
                }
            }
            assert(grid_is(*self, yw_pivot(cells_of(g0), *p, candidates@)));
            if !res {
                assert forall|p1: Point, p2: Point, o: Point| !#[trigger] y_wing_at(g0, *p, p1, p2, o) by {
                    if y_wing_at(g0, *p, p1, p2, o) {
                        assert(candidates@.contains(p1));
                        assert(candidates@.contains(p2));
                        let a = choose|a: int| 0 <= a < candidates.len() && candidates@[a] == p1;
                        let b = choose|b: int| 0 <= b < candidates.len() && candidates@[b] == p2;
                        assert(y_wing_at(g0, *p, candidates@[a], candidates@[b], o));
                    }
                }
            }
        }
        res
    }

    /// Applies y-wing with pivot `p` (whose candidates were `cell` when its wings were chosen in
    /// `clone`) and wings `p1` and `p2`; returns true if it changed any cell.
    fn y_wing_pair(&mut self, p: &Point, p1: &Point, p2: &Point, cell: Cell, Ghost(clone): Ghost<Grid>) -> (res: bool)
        requires
            clone.fits(),
            cell == cell_at(clone, *p),
            cell == cell_at(*old(self), *p),
            cell.size() == 2,
            wing_candidate(clone, *p, *p1, 1),
            wing_candidate(clone, *p, *p2, 1),
            *p1 != *p2,
            narrows(clone, *old(self)),
        ensures
            narrows(*old(self), *final(self)),
            res == differs(*final(self), *old(self)),
            !res ==> *final(self) == *old(self),
            cell_at(*final(self), *p) == cell,
            *old(self) == clone ==> (res == exists|o: Point| #[trigger] y_wing_at(clone, *p, *p1, *p2, o)),
            grid_is(*final(self), yw_pair(cells_of(*old(self)), *p, *p1, *p2, cell.0)),
    {
        let ghost gp = *self;
        proof {
            lemma_narrower_keeps(gp, clone);
            lemma_narrows_refl(gp);
        }
        let cell1 = self.get(*p1);
        let cell2 = self.get(*p2);
        proof {
            crate::bits::lemma_or_fits(cell1.0, cell2.0);
        }
        let both = cell1 | cell2;
        if both.count() != 3 || (cell.0 & cell1.0) | (cell.0 & cell2.0) != cell.0 {
            proof {
                assert forall|a: int, cc: int| 0 <= a < 9 && 0 <= cc < 9 implies #[trigger] gp.at(a, cc) == yw_pair(
                    cells_of(gp),
                    *p,
                    *p1,
                    *p2,
                    cell.0,
                )(a, cc) by {}
            }
            return false;
        }
        let n1 = neighbors(p1);
        let n2 = neighbors(p2);
        let bits = both.0 & !cell.0;
        proof {
            lemma_y_wing_sound(clone, gp, *p, *p1, *p2);
        }
        let mut res = false;
        let mut r: usize = 0;
        while r < 9
            invariant
                r <= 9,
                p.0 < 9,
                p.1 < 9,
                forall|a: int, c: int| 0 <= a < 9 && 0 <= c < 9 ==> #[trigger] n1[a][c] == sees(*p1, (a as usize, c as usize)),
                forall|a: int, c: int| 0 <= a < 9 && 0 <= c < 9 ==> #[trigger] n2[a][c] == sees(*p2, (a as usize, c as usize)),
                bits == wing_bits(gp, *p, *p1, *p2),
                cell == cell_at(gp, *p),
                forall|s: spec_fn(int, int) -> int, o: Point|
                    #![trigger compatible(gp, s), sees(*p1, o)]
                    is_solution(s) && compatible(gp, s) && sees(*p1, o) && sees(*p2, o)
                        ==> !has_bit(bits, s(o.0 as int, o.1 as int)),
                gp == clone ==> popcount(cell_at(clone, *p1).0 | cell_at(clone, *p2).0) == 3,
                gp == clone ==> (cell.0 & cell_at(clone, *p1).0) | (cell.0 & cell_at(clone, *p2).0) == cell.0,
                clone.fits(),
                cell.size() == 2,
                wing_candidate(clone, *p, *p1, 1),
                wing_candidate(clone, *p, *p2, 1),
                *p1 != *p2,
                narrows(gp, *self),
                cell_at(*self, *p) == cell,
                res == differs(*self, gp),
                !res ==> *self == gp,
                gp == clone && res ==> exists|o: Point| #[trigger] y_wing_at(clone, *p, *p1, *p2, o),
                gp == clone && !res ==> forall|o: Point| o.0 < r ==> !#[trigger] y_wing_at(clone, *p, *p1, *p2, o),
                popcount(cell_at(gp, *p1).0 | cell_at(gp, *p2).0) == 3,
                (cell.0 & cell_at(gp, *p1).0) | (cell.0 & cell_at(gp, *p2).0) == cell.0,
                forall|a: int, cc: int|
                    0 <= a < 9 && 0 <= cc < 9 ==> #[trigger] self.at(a, cc) == (if a < r {
                        yw_pair(cells_of(gp), *p, *p1, *p2, cell.0)(a, cc)
                    } else {
                        gp.at(a, cc)
                    }),
            decreases 9 - r,
        {
            let mut c: usize = 0;
            while c < 9
                invariant
                    r < 9,
                    c <= 9,
                    p.0 < 9,
                    p.1 < 9,
                    forall|a: int, cc: int| 0 <= a < 9 && 0 <= cc < 9 ==> #[trigger] n1[a][cc] == sees(*p1, (a as usize, cc as usize)),
                    forall|a: int, cc: int| 0 <= a < 9 && 0 <= cc < 9 ==> #[trigger] n2[a][cc] == sees(*p2, (a as usize, cc as usize)),
                    bits == wing_bits(gp, *p, *p1, *p2),
                    cell == cell_at(gp, *p),
                    forall|s: spec_fn(int, int) -> int, o: Point|
                        #![trigger compatible(gp, s), sees(*p1, o)]
                        is_solution(s) && compatible(gp, s) && sees(*p1, o) && sees(*p2, o)
                            ==> !has_bit(bits, s(o.0 as int, o.1 as int)),
                    gp == clone ==> popcount(cell_at(clone, *p1).0 | cell_at(clone, *p2).0) == 3,
                    gp == clone ==> (cell.0 & cell_at(clone, *p1).0) | (cell.0 & cell_at(clone, *p2).0) == cell.0,
                    clone.fits(),
                    cell.size() == 2,
                    wing_candidate(clone, *p, *p1, 1),
                    wing_candidate(clone, *p, *p2, 1),
                    *p1 != *p2,
                    narrows(gp, *self),
                    cell_at(*self, *p) == cell,
                    res == differs(*self, gp),
                    !res ==> *self == gp,
                    gp == clone && res ==> exists|o: Point| #[trigger] y_wing_at(clone, *p, *p1, *p2, o),
                    gp == clone && !res ==> forall|o: Point| (o.0 < r || (o.0 == r && o.1 < c)) ==> !#[trigger] y_wing_at(clone, *p, *p1, *p2, o),
                    popcount(cell_at(gp, *p1).0 | cell_at(gp, *p2).0) == 3,
                    (cell.0 & cell_at(gp, *p1).0) | (cell.0 & cell_at(gp, *p2).0) == cell.0,
                    forall|a: int, cc: int|
                        0 <= a < 9 && 0 <= cc < 9 ==> #[trigger] self.at(a, cc) == (if a < r || (a == r && cc < c) {
                            yw_pair(cells_of(gp), *p, *p1, *p2, cell.0)(a, cc)
                        } else {
                            gp.at(a, cc)
                        }),
                decreases 9 - c,
            {
                let o: Point = (r, c);
                if n1[r][c] && n2[r][c] && !(r == p.0 && c == p.1) {
                    let ghost before = *self;
                    let ch = self.remove_at(r, c, bits);
                    proof {
                        let ri = r as int;
                        let ci = c as int;
                        assert(sees(*p1, o) && sees(*p2, o));
                        assert forall|s: spec_fn(int, int) -> int|
                            is_solution(s) && #[trigger] compatible(before, s) implies self.at(ri, ci).has(s(ri, ci)) by {
                            lemma_compatible_wider(before, gp, s);
                            assert(!has_bit(bits, s(o.0 as int, o.1 as int)));
                            assert(before.at(ri, ci).has(s(ri, ci)));
                            lemma_bit_and_not(before.at(ri, ci).0, bits, s(ri, ci));
                        }
                        lemma_narrow_step(gp, before, *self, ri, ci);
                        lemma_and_not_changes(before.at(ri, ci).0, bits);
                        assert(cell_at(*self, *p) == cell_at(before, *p));
                        if gp == clone && !res && ch {
                            assert(y_wing_at(clone, *p, *p1, *p2, o));
                        }
                    }
                    if ch {
                        res = true;
                    }
                }
                c += 1;
            }
            r += 1;
        }
        proof {
            assert forall|a: int, cc: int| 0 <= a < 9 && 0 <= cc < 9 implies #[trigger] self.at(a, cc) == yw_pair(
                cells_of(gp),
                *p,
                *p1,
                *p2,
                cell.0,
            )(a, cc) by {}
        }
        res
    }
}

} // verus!
