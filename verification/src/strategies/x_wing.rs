//! X-wing: a digit confined to the same two lines in two crossing lines is removed from the
//! rest of those lines.
use vstd::prelude::*;
use crate::bits::{has_bit, popcount, lemma_bit_single, lemma_popcount_exhausted, lemma_bit_high, lemma_bit_and_not};
use crate::cell::count;
use crate::grid::{Grid, Group, Kind, unit_row, unit_col, differs, lemma_unit_in_range};
use crate::model::{is_solution, compatible, narrows, sol_at, unit_holds, lemma_narrows_refl,
    lemma_narrows_trans, lemma_differs_stays};
use crate::strategies::{places, lemma_place_bits};
use crate::strategies::naked_pair::lemma_two_bits;

verus! {

/// `major` and `minor` are columns and rows, one each.
pub open spec fn crossing(major: Kind, minor: Kind) -> bool {
    (major == Kind::Col && minor == Kind::Row) || (major == Kind::Row && minor == Kind::Col)
}

/// Digit `d` has exactly the same two places in lines `c1` and `c2` of kind `major`; line `m`
/// (one of those places) of kind `minor` still has `d` at position `mi`,
/// outside `c1` and `c2`.
pub open spec fn x_wing_at(g: Grid, major: Kind, minor: Kind, d: int, c1: int, c2: int, m: int, mi: int) -> bool {
    let proto = places(g, major, c1, d);
    &&& 1 <= d <= 9
    &&& 0 <= c1 < 9 && 0 <= c2 < 9 && c1 != c2
    &&& popcount(proto) == 2
    &&& places(g, major, c2, d) == proto
    &&& 0 <= m < 9
    &&& has_bit(proto, m)
    &&& 0 <= mi < 9 && mi != c1 && mi != c2
    &&& g.unit_cell(minor, m, mi).has(d)
}

/// An x-wing along lines of kind `major` can remove a candidate.
pub open spec fn x_wing_in(g: Grid, major: Kind, minor: Kind) -> bool {
    exists|d: int, c1: int, c2: int, m: int, mi: int| #[trigger] x_wing_at(g, major, minor, d, c1, c2, m, mi)
}

/// An x-wing can remove a candidate somewhere in the grid.
pub open spec fn x_wing_applies(g: Grid) -> bool {
    x_wing_in(g, Kind::Col, Kind::Row) || x_wing_in(g, Kind::Row, Kind::Col)
}

/// Digit `d` has exactly the same two places in lines `c1` and `c2` of kind `major`, line `m`
/// of kind `minor` is one of those places, and `mi` is a position of that line outside `c1`
/// and `c2`: the x-wing of `d` on `c1` and `c2` removes `d` there.
pub open spec fn wing_zone(g: Grid, major: Kind, minor: Kind, d: int, c1: int, c2: int, m: int, mi: int) -> bool {
    let proto = places(g, major, c1, d);
    &&& 1 <= d <= 9
    &&& 0 <= c1 < 9 && 0 <= c2 < 9 && c1 != c2
    &&& popcount(proto) == 2
    &&& places(g, major, c2, d) == proto
    &&& 0 <= m < 9
    &&& has_bit(proto, m)
    &&& 0 <= mi < 9 && mi != c1 && mi != c2
}

/// Some x-wing of `g` along lines of kind `major` removes digit `d` at position `mi` of line
/// `m` of kind `minor`.
pub open spec fn in_wing_zone(g: Grid, major: Kind, minor: Kind, d: int, m: int, mi: int) -> bool {
    exists|c1: int, c2: int| #[trigger] wing_zone(g, major, minor, d, c1, c2, m, mi)
}

/// Some x-wing of `g` that the pass takes before the `n`-th, counting digit, first line and
/// second line in that order, removes digit `d` at position `mi` of line `m`.
pub open spec fn zone_before(g: Grid, major: Kind, minor: Kind, d: int, m: int, mi: int, n: int) -> bool {
    exists|c1: int, c2: int| #[trigger] wing_zone(g, major, minor, d, c1, c2, m, mi) && d * 81 + c1 * 9 + c2 < n
}

/// Every cell of `g` has exactly the candidates it had in `g0` but the digits that an x-wing
/// of `g0` along lines of kind `major` removes there.
pub open spec fn wings_exact(g0: Grid, g: Grid, major: Kind, minor: Kind) -> bool {
    forall|m: int, mi: int, d: int|
        0 <= m < 9 && 0 <= mi < 9 ==> #[trigger] g.unit_cell(minor, m, mi).has(d) == (g0.unit_cell(minor, m, mi).has(d)
            && !in_wing_zone(g0, major, minor, d, m, mi))
}

/// Taking one more x-wing adds its zone to the zones taken so far.
proof fn lemma_zone_step(g: Grid, major: Kind, minor: Kind, d: int, c1i: int, c2i: int, e: int, m: int, mi: int)
    requires
        1 <= d <= 9,
        0 <= c1i < 9,
        0 <= c2i < 9,
    ensures
        zone_before(g, major, minor, e, m, mi, d * 81 + c1i * 9 + c2i + 1) == (zone_before(g, major, minor, e, m, mi, d * 81 + c1i * 9 + c2i)
            || (e == d && wing_zone(g, major, minor, d, c1i, c2i, m, mi))),
{
    let n = d * 81 + c1i * 9 + c2i;
    if zone_before(g, major, minor, e, m, mi, n + 1) && !zone_before(g, major, minor, e, m, mi, n) {
        let (c1, c2) = choose|c1: int, c2: int| #[trigger] wing_zone(g, major, minor, e, c1, c2, m, mi) && e * 81 + c1 * 9 + c2 < n + 1;
        assert(e * 81 + c1 * 9 + c2 == n);
        assert(e == d && c1 == c1i && c2 == c2i);
    }
    if e == d && wing_zone(g, major, minor, d, c1i, c2i, m, mi) {
        assert(wing_zone(g, major, minor, e, c1i, c2i, m, mi) && e * 81 + c1i * 9 + c2i < n + 1);
    }
    if zone_before(g, major, minor, e, m, mi, n) {
        let (c1, c2) = choose|c1: int, c2: int| #[trigger] wing_zone(g, major, minor, e, c1, c2, m, mi) && e * 81 + c1 * 9 + c2 < n;
        assert(wing_zone(g, major, minor, e, c1, c2, m, mi) && e * 81 + c1 * 9 + c2 < n + 1);
    }
}

/// Cell `p` of line `c` of kind `major` is cell `c` of line `p` of the crossing kind.
pub proof fn lemma_transpose(major: Kind, minor: Kind, c: int, p: int)
    requires
        crossing(major, minor),
    ensures
        unit_row(major, c, p) == unit_row(minor, p, c),
        unit_col(major, c, p) == unit_col(minor, p, c),
{
}

/// Every completed board fitting `g` puts digit `d` of an x-wing on both of its lines, so the
/// other cells of those lines do not take `d`.
pub proof fn lemma_x_wing_sound(g: Grid, major: Kind, minor: Kind, d: int, c1: int, c2: int)
    requires
        crossing(major, minor),
        1 <= d <= 9,
        0 <= c1 < 9,
        0 <= c2 < 9,
        c1 != c2,
        popcount(places(g, major, c1, d)) == 2,
        places(g, major, c2, d) == places(g, major, c1, d),
    ensures
        forall|s: spec_fn(int, int) -> int, m: int, mi: int|
            is_solution(s) && #[trigger] compatible(g, s) && 0 <= m < 9 && has_bit(places(g, major, c1, d), m)
                && 0 <= mi < 9 && mi != c1 && mi != c2 ==> #[trigger] sol_at(s, minor, m, mi) != d,
{
    let proto = places(g, major, c1, d);
    lemma_place_bits(g, major, c1, d, 9);
    lemma_place_bits(g, major, c2, d, 9);
    assert forall|s: spec_fn(int, int) -> int, m: int, mi: int|
        is_solution(s) && #[trigger] compatible(g, s) && 0 <= m < 9 && has_bit(proto, m) && 0 <= mi < 9 && mi != c1
            && mi != c2 implies #[trigger] sol_at(s, minor, m, mi) != d by {
        assert(unit_holds(s, major, c1, d));
        assert(unit_holds(s, major, c2, d));
        let p1 = choose|j: int| 0 <= j < 9 && #[trigger] sol_at(s, major, c1, j) == d;
        let p2 = choose|j: int| 0 <= j < 9 && #[trigger] sol_at(s, major, c2, j) == d;
        lemma_unit_in_range(major, c1, p1);
        lemma_unit_in_range(major, c2, p2);
        assert(g.unit_cell(major, c1, p1).has(d));
        assert(g.unit_cell(major, c2, p2).has(d));
        assert(has_bit(proto, p1));
        assert(has_bit(places(g, major, c2, d), p2));
        lemma_transpose(major, minor, c1, p1);
        lemma_transpose(major, minor, c2, p2);
        assert(sol_at(s, minor, p1, c1) == d);
        assert(sol_at(s, minor, p2, c2) == d);
        if p1 == p2 {
            assert(sol_at(s, minor, p1, c1) != sol_at(s, minor, p1, c2));
        }
        lemma_popcount_exhausted(proto, set![p1, p2], m);
        if m == p1 {
            assert(sol_at(s, minor, m, mi) != sol_at(s, minor, m, c1));
        } else {
            assert(sol_at(s, minor, m, mi) != sol_at(s, minor, m, c2));
        }
    }
}

impl Grid {
    /// x_wing removes candidates: if in two columns, say 0 and 7, all the places of a digit, say
    /// 4, are the same two rows, say 4 and 6, then one 4 is in (4, 0) or (6, 0) and the other in
    /// (4, 7) or (6, 7); every other 4 in rows 4 and 6 is removed. The same holds with rows and
    /// columns swapped. The places are taken once, before any removal.
    /// Columns first; rows only when the column pass changed nothing. Returns true if it
    /// changed any cell.
    pub fn x_wing(&mut self) -> (res: bool)
        ensures
            narrows(*old(self), *final(self)),
            res == differs(*final(self), *old(self)),
            res == x_wing_applies(*old(self)),
            x_wing_in(*old(self), Kind::Col, Kind::Row) ==> wings_exact(*old(self), *final(self), Kind::Col, Kind::Row),
            !x_wing_in(*old(self), Kind::Col, Kind::Row) ==> wings_exact(*old(self), *final(self), Kind::Row, Kind::Col),
    {
        if self.x_wing_group(&Group::new(Kind::Col), &Group::new(Kind::Row)) {
            return true;
        }
        self.x_wing_group(&Group::new(Kind::Row), &Group::new(Kind::Col))
    }

    pub fn x_wing_group(&mut self, major_group: &Group, minor_group: &Group) -> (res: bool)
        requires
            major_group.wf(),
            minor_group.wf(),
            crossing(major_group.kind, minor_group.kind),
        ensures
            narrows(*old(self), *final(self)),
            res == differs(*final(self), *old(self)),
            res == x_wing_in(*old(self), major_group.kind, minor_group.kind),
            !res ==> *final(self) == *old(self),
            wings_exact(*old(self), *final(self), major_group.kind, minor_group.kind),
    {
        let ghost g0 = *self;
        let ghost major = major_group.kind;
        let ghost minor = minor_group.kind;
        let mut digits: [[u16; 10]; 9] = [[0u16; 10]; 9];
        let mut ui: usize = 0;
        while ui < 9
            invariant
                ui <= 9,
                major_group.wf(),
                major == major_group.kind,
                *self == g0,
                forall|u: int, e: int| 0 <= u < ui && 1 <= e <= 9 ==> #[trigger] digits[u][e] == places(g0, major, u, e),
                forall|u: int, e: int| 0 <= u < ui && 0 <= e < 10 ==> #[trigger] digits[u][e] < 512,
            decreases 9 - ui,
        {
            digits[ui] = self.digit_places(major_group, ui);
            ui += 1;
        }
        let mut res = false;
        proof {
            lemma_narrows_refl(g0);
            assert forall|m: int, mi: int, e: int| 0 <= m < 9 && 0 <= mi < 9 implies !zone_before(g0, major, minor, e, m, mi, 81) by {
                if zone_before(g0, major, minor, e, m, mi, 81) {
                    let (c1, c2) = choose|c1: int, c2: int| #[trigger] wing_zone(g0, major, minor, e, c1, c2, m, mi) && e * 81 + c1 * 9 + c2 < 81;
                }
            }
        }
        let mut d: usize = 1;
        while d <= 9
            invariant
                1 <= d <= 10,
                major_group.wf(),
                minor_group.wf(),
                major == major_group.kind,
                minor == minor_group.kind,
                crossing(major, minor),
                forall|u: int, e: int| 0 <= u < 9 && 1 <= e <= 9 ==> #[trigger] digits[u][e] == places(g0, major, u, e),
                forall|u: int, e: int| 0 <= u < 9 && 0 <= e < 10 ==> #[trigger] digits[u][e] < 512,
                narrows(g0, *self),
                res == differs(*self, g0),
                !res ==> *self == g0,
                res ==> x_wing_in(g0, major, minor),
                !res ==> forall|e: int, c1: int, c2: int, m: int, mi: int|
                    e < d ==> !#[trigger] x_wing_at(g0, major, minor, e, c1, c2, m, mi),
                forall|m: int, mi: int, e: int|
                    0 <= m < 9 && 0 <= mi < 9 ==> #[trigger] self.unit_cell(minor, m, mi).has(e) == (g0.unit_cell(minor, m, mi).has(e)
                        && !zone_before(g0, major, minor, e, m, mi, d * 81)),
            decreases 10 - d,
        {
            let mut c1i: usize = 0;
            while c1i < 9
                invariant
                    1 <= d <= 9,
                    c1i <= 9,
                    major_group.wf(),
                    minor_group.wf(),
                    major == major_group.kind,
                    minor == minor_group.kind,
                    crossing(major, minor),
                    forall|u: int, e: int| 0 <= u < 9 && 1 <= e <= 9 ==> #[trigger] digits[u][e] == places(g0, major, u, e),
                    forall|u: int, e: int| 0 <= u < 9 && 0 <= e < 10 ==> #[trigger] digits[u][e] < 512,
                    narrows(g0, *self),
                    res == differs(*self, g0),
                    !res ==> *self == g0,
                    res ==> x_wing_in(g0, major, minor),
                    !res ==> forall|e: int, c1: int, c2: int, m: int, mi: int|
                        e < d ==> !#[trigger] x_wing_at(g0, major, minor, e, c1, c2, m, mi),
                    !res ==> forall|c1: int, c2: int, m: int, mi: int|
                        c1 < c1i ==> !#[trigger] x_wing_at(g0, major, minor, d as int, c1, c2, m, mi),
                    forall|m: int, mi: int, e: int|
                        0 <= m < 9 && 0 <= mi < 9 ==> #[trigger] self.unit_cell(minor, m, mi).has(e) == (g0.unit_cell(minor, m, mi).has(e)
                            && !zone_before(g0, major, minor, e, m, mi, d * 81 + c1i * 9)),
                decreases 9 - c1i,
            {
                let mut c2i: usize = 0;
                while c2i < 9
                    invariant
                        1 <= d <= 9,
                        c1i < 9,
                        c2i <= 9,
                        major_group.wf(),
                        minor_group.wf(),
                        major == major_group.kind,
                        minor == minor_group.kind,
                        crossing(major, minor),
                        forall|u: int, e: int| 0 <= u < 9 && 1 <= e <= 9 ==> #[trigger] digits[u][e] == places(g0, major, u, e),
                        forall|u: int, e: int| 0 <= u < 9 && 0 <= e < 10 ==> #[trigger] digits[u][e] < 512,
                        narrows(g0, *self),
                        res == differs(*self, g0),
                        !res ==> *self == g0,
                        res ==> x_wing_in(g0, major, minor),
                        !res ==> forall|e: int, c1: int, c2: int, m: int, mi: int|
                            e < d ==> !#[trigger] x_wing_at(g0, major, minor, e, c1, c2, m, mi),
                        !res ==> forall|c1: int, c2: int, m: int, mi: int|
                            c1 < c1i ==> !#[trigger] x_wing_at(g0, major, minor, d as int, c1, c2, m, mi),
                        !res ==> forall|c2: int, m: int, mi: int|
                            c2 < c2i ==> !#[trigger] x_wing_at(g0, major, minor, d as int, c1i as int, c2, m, mi),
                        forall|m: int, mi: int, e: int|
                            0 <= m < 9 && 0 <= mi < 9 ==> #[trigger] self.unit_cell(minor, m, mi).has(e) == (g0.unit_cell(minor, m, mi).has(e)
                                && !zone_before(g0, major, minor, e, m, mi, d * 81 + c1i * 9 + c2i)),
                    decreases 9 - c2i,
                {
                    let ghost before = *self;
                    if c1i != c2i {
                        let proto = digits[c1i][d];
                        if count(proto) == 2 && proto == digits[c2i][d] {
                            let ch = self.x_wing_lines(minor_group, d, c1i, c2i, proto, Ghost(g0), Ghost(major));
                            proof {
                                assert forall|m: int, mi: int, e: int| 0 <= m < 9 && 0 <= mi < 9 implies #[trigger] self.unit_cell(minor, m, mi).has(e)
                                    == (g0.unit_cell(minor, m, mi).has(e) && !zone_before(g0, major, minor, e, m, mi, d * 81 + c1i * 9 + c2i + 1)) by {
                                    lemma_zone_step(g0, major, minor, d as int, c1i as int, c2i as int, e, m, mi);
                                    assert(before.unit_cell(minor, m, mi).has(e) == (g0.unit_cell(minor, m, mi).has(e)
                                        && !zone_before(g0, major, minor, e, m, mi, d * 81 + c1i * 9 + c2i)));
                                }
                                lemma_narrows_trans(g0, before, *self);
                                if res {
                                    lemma_differs_stays(g0, before, *self);
                                } else if ch {
                                    let (m, mi) = choose|m: int, mi: int| #[trigger] x_wing_at(g0, major, minor, d as int, c1i as int, c2i as int, m, mi);
                                    assert(x_wing_at(g0, major, minor, d as int, c1i as int, c2i as int, m, mi));
                                }
                            }
                            if ch {
                                res = true;
                            }
                        } else {
                            proof {
                                assert forall|m: int, mi: int| true implies !#[trigger] x_wing_at(g0, major, minor, d as int, c1i as int, c2i as int, m, mi) by {}
                                assert forall|m: int, mi: int, e: int| 0 <= m < 9 && 0 <= mi < 9 implies #[trigger] self.unit_cell(minor, m, mi).has(e)
                                    == (g0.unit_cell(minor, m, mi).has(e) && !zone_before(g0, major, minor, e, m, mi, d * 81 + c1i * 9 + c2i + 1)) by {
                                    lemma_zone_step(g0, major, minor, d as int, c1i as int, c2i as int, e, m, mi);
                                    assert(!wing_zone(g0, major, minor, d as int, c1i as int, c2i as int, m, mi));
                                }
                            }
                        }
                    } else {
                        proof {
                            assert forall|m: int, mi: int| true implies !#[trigger] x_wing_at(g0, major, minor, d as int, c1i as int, c2i as int, m, mi) by {}
                            assert forall|m: int, mi: int, e: int| 0 <= m < 9 && 0 <= mi < 9 implies #[trigger] self.unit_cell(minor, m, mi).has(e)
                                == (g0.unit_cell(minor, m, mi).has(e) && !zone_before(g0, major, minor, e, m, mi, d * 81 + c1i * 9 + c2i + 1)) by {
                                lemma_zone_step(g0, major, minor, d as int, c1i as int, c2i as int, e, m, mi);
                            }
                        }
                    }
                    c2i += 1;
                }
                proof {
                    assert forall|c2: int, m: int, mi: int| !(0 <= c2 < 9) implies !#[trigger] x_wing_at(g0, major, minor, d as int, c1i as int, c2, m, mi) by {}
                }
                c1i += 1;
            }
            proof {
                assert forall|c1: int, c2: int, m: int, mi: int| !(0 <= c1 < 9) implies !#[trigger] x_wing_at(g0, major, minor, d as int, c1, c2, m, mi) by {}
            }
            d += 1;
        }
        proof {
            assert forall|e: int, c1: int, c2: int, m: int, mi: int| !(1 <= e <= 9) implies !#[trigger] x_wing_at(g0, major, minor, e, c1, c2, m, mi) by {}
            assert forall|m: int, mi: int, e: int| 0 <= m < 9 && 0 <= mi < 9 implies zone_before(g0, major, minor, e, m, mi, 810)
                == in_wing_zone(g0, major, minor, e, m, mi) by {
                if in_wing_zone(g0, major, minor, e, m, mi) {
                    let (c1, c2) = choose|c1: int, c2: int| #[trigger] wing_zone(g0, major, minor, e, c1, c2, m, mi);
                    assert(wing_zone(g0, major, minor, e, c1, c2, m, mi) && e * 81 + c1 * 9 + c2 < 810);
                }
            }
        }
        res
    }

    /// Removes digit `d` from the lines of `minor_group` named by `proto`, outside `c1i` and `c2i`.
    fn x_wing_lines(&mut self, minor_group: &Group, d: usize, c1i: usize, c2i: usize, proto: u16, Ghost(g0): Ghost<Grid>, Ghost(major): Ghost<Kind>) -> (res: bool)
        requires
            minor_group.wf(),
            crossing(major, minor_group.kind),
            1 <= d <= 9,
            c1i < 9,
            c2i < 9,
            c1i != c2i,
            proto == places(g0, major, c1i as int, d as int),
            proto < 512,
            popcount(proto) == 2,
            places(g0, major, c2i as int, d as int) == proto,
            narrows(g0, *old(self)),
        ensures
            narrows(g0, *final(self)),
            narrows(*old(self), *final(self)),
            res == differs(*final(self), *old(self)),
            !res ==> *final(self) == *old(self),
            *old(self) == g0 ==> (res == exists|m: int, mi: int|
                #[trigger] x_wing_at(g0, major, minor_group.kind, d as int, c1i as int, c2i as int, m, mi)),
            forall|m: int, mi: int, e: int|
                0 <= m < 9 && 0 <= mi < 9 ==> #[trigger] final(self).unit_cell(minor_group.kind, m, mi).has(e) == (old(self).unit_cell(
                    minor_group.kind,
                    m,
                    mi,
                ).has(e) && !(e == d && wing_zone(g0, major, minor_group.kind, d as int, c1i as int, c2i as int, m, mi))),
    {
        let ghost gs = *self;
        let ghost minor = minor_group.kind;
        proof {
            lemma_narrows_refl(gs);
            lemma_x_wing_sound(g0, major, minor, d as int, c1i as int, c2i as int);
        }
        let keep = (1u16 << c1i as u16) | (1u16 << c2i as u16);
        let mut res = false;
        let mut m: usize = 0;
        while m < 9
            invariant
                m <= 9,
                minor_group.wf(),
                minor == minor_group.kind,
                crossing(major, minor),
                1 <= d <= 9,
                c1i < 9,
                c2i < 9,
                c1i != c2i,
                keep == (1u16 << c1i as u16) | (1u16 << c2i as u16),
                proto == places(g0, major, c1i as int, d as int),
                proto < 512,
                popcount(proto) == 2,
                places(g0, major, c2i as int, d as int) == proto,
                forall|s: spec_fn(int, int) -> int, mm: int, mi: int|
                    is_solution(s) && #[trigger] compatible(g0, s) && 0 <= mm < 9 && has_bit(proto, mm)
                        && 0 <= mi < 9 && mi != c1i && mi != c2i ==> #[trigger] sol_at(s, minor, mm, mi) != d,
                narrows(g0, gs),
                narrows(g0, *self),
                narrows(gs, *self),
                res == differs(*self, gs),
                !res ==> *self == gs,
                gs == g0 && res ==> exists|mm: int, mi: int|
                    #[trigger] x_wing_at(g0, major, minor, d as int, c1i as int, c2i as int, mm, mi),
                gs == g0 && !res ==> forall|mm: int, mi: int|
                    mm < m ==> !#[trigger] x_wing_at(g0, major, minor, d as int, c1i as int, c2i as int, mm, mi),
                forall|mm: int, mi: int, e: int|
                    0 <= mm < 9 && 0 <= mi < 9 ==> #[trigger] self.unit_cell(minor, mm, mi).has(e) == (gs.unit_cell(minor, mm, mi).has(e)
                        && !(e == d && mm < m && wing_zone(g0, major, minor, d as int, c1i as int, c2i as int, mm, mi))),
            decreases 9 - m,
        {
            let ghost before = *self;
            if proto & (1u16 << m as u16) != 0 {
                proof {
                    assert forall|s: spec_fn(int, int) -> int, j: int|
                        is_solution(s) && #[trigger] compatible(before, s) && 0 <= j < 9 && !has_bit(keep, j)
                            implies !has_bit(1u16 << d as u16, #[trigger] sol_at(s, minor, m as int, j)) by {
                        crate::model::lemma_compatible_wider(before, g0, s);
                        lemma_two_bits(c1i as u16, c2i as u16, j);
                        lemma_bit_single(d as u16, sol_at(s, minor, m as int, j));
                    }
                }
                let ch = self.clear_unit(minor_group, m, keep, 1u16 << d as u16);
                proof {
                    assert forall|mm: int, mi: int, e: int| 0 <= mm < 9 && 0 <= mi < 9 implies #[trigger] self.unit_cell(minor, mm, mi).has(e)
                        == (gs.unit_cell(minor, mm, mi).has(e) && !(e == d && mm < m + 1 && wing_zone(g0, major, minor, d as int, c1i as int, c2i as int, mm, mi))) by {
                        assert(before.unit_cell(minor, mm, mi).has(e) == (gs.unit_cell(minor, mm, mi).has(e)
                            && !(e == d && mm < m && wing_zone(g0, major, minor, d as int, c1i as int, c2i as int, mm, mi))));
                        if mm == m {
                            lemma_two_bits(c1i as u16, c2i as u16, mi);
                            if mi != c1i && mi != c2i {
                                assert(!has_bit(keep, mi));
                                assert(self.unit_cell(minor, mm, mi).0 == before.unit_cell(minor, mm, mi).0 & !(1u16 << d as u16));
                                lemma_bit_and_not(before.unit_cell(minor, mm, mi).0, 1u16 << d as u16, e);
                                lemma_bit_single(d as u16, e);
                                assert(wing_zone(g0, major, minor, d as int, c1i as int, c2i as int, mm, mi));
                            } else {
                                assert(has_bit(keep, mi));
                                assert(self.unit_cell(minor, mm, mi) == before.unit_cell(minor, mm, mi));
                            }
                        } else {
                            assert(self.unit_cell(minor, mm, mi) == before.unit_cell(minor, mm, mi));
                        }
                    }
                    lemma_narrows_trans(g0, before, *self);
                    lemma_narrows_trans(gs, before, *self);
                    if res {
                        lemma_differs_stays(gs, before, *self);
                    } else if gs == g0 {
                        if ch {
                            let j = choose|j: int| 0 <= j < 9 && !has_bit(keep, j)
                                && #[trigger] g0.unit_cell(minor, m as int, j).0 & (1u16 << d as u16) != 0;
                            lemma_two_bits(c1i as u16, c2i as u16, j);
                            assert(x_wing_at(g0, major, minor, d as int, c1i as int, c2i as int, m as int, j));
                        } else {
                            assert forall|mi: int| true implies !#[trigger] x_wing_at(g0, major, minor, d as int, c1i as int, c2i as int, m as int, mi) by {
                                if x_wing_at(g0, major, minor, d as int, c1i as int, c2i as int, m as int, mi) {
                                    lemma_two_bits(c1i as u16, c2i as u16, mi);
                                    assert(g0.unit_cell(minor, m as int, mi).0 & (1u16 << d as u16) != 0);
                                }
                            }
                        }
                    }
                }
                if ch {
                    res = true;
                }
            } else {
                proof {
                    assert forall|mi: int| true implies !#[trigger] x_wing_at(g0, major, minor, d as int, c1i as int, c2i as int, m as int, mi) by {}
                    assert forall|mm: int, mi: int, e: int| 0 <= mm < 9 && 0 <= mi < 9 implies #[trigger] self.unit_cell(minor, mm, mi).has(e)
                        == (gs.unit_cell(minor, mm, mi).has(e) && !(e == d && mm < m + 1 && wing_zone(g0, major, minor, d as int, c1i as int, c2i as int, mm, mi))) by {
                        if mm == m {
                            assert(!wing_zone(g0, major, minor, d as int, c1i as int, c2i as int, mm, mi));
                        }
                    }
                }
            }
            m += 1;
        }
        proof {
            assert forall|mm: int, mi: int| !(0 <= mm < 9) implies !#[trigger] x_wing_at(g0, major, minor, d as int, c1i as int, c2i as int, mm, mi) by {}
        }
        res
    }
}

} // verus!
