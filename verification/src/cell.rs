//! A cell of the grid: the set of digits still possible there, as a bit mask.
use vstd::prelude::*;
use crate::bits::{has_bit, popcount, bits_upto, subset, lemma_bit_and, lemma_bit_and_not, lemma_bit_or,
    lemma_bit_single, lemma_popcount_low, lemma_and_subset, lemma_bit_high};

verus! {

/// The mask of the nine digits 1 to 9 (bits 1 ..= 9).
pub const ALL: u16 = 0b_111111111_0;

/// The candidate digits of a cell: bit `d` is set when digit `d` is still possible.
#[derive(Clone, Copy, Debug, PartialEq, Eq, Structural)]
pub struct Cell(pub u16);

/// The digits `1 ..= n - 1` whose bit is set in `x`, in increasing order.
pub open spec fn digit_seq(x: u16, n: int) -> Seq<usize>
    decreases n,
{
    if n <= 1 {
        Seq::empty()
    } else if has_bit(x, n - 1) {
        digit_seq(x, n - 1).push((n - 1) as usize)
    } else {
        digit_seq(x, n - 1)
    }
}

impl Cell {
    /// Digit (or bit) `d` is a candidate of this cell.
    pub open spec fn has(self, d: int) -> bool {
        has_bit(self.0, d)
    }

    /// The mask is small enough to be counted (below 1024, bits 0 ..= 9).
    pub open spec fn fits(self) -> bool {
        self.0 < 1024
    }

    /// Only the digit bits 1 ..= 9 may be set.
    pub open spec fn digits_only(self) -> bool {
        self.0 & !ALL == 0
    }

    /// Number of candidates.
    pub open spec fn size(self) -> nat {
        popcount(self.0)
    }

    /// The candidate digits in increasing order.
    pub open spec fn digit_list(self) -> Seq<usize> {
        digit_seq(self.0, 10)
    }

    /// Every candidate of `self` is a candidate of `other`.
    pub open spec fn within(self, other: Cell) -> bool {
        subset(self.0, other.0)
    }

    /// Returns the number of candidates of the cell.
    pub fn count(&self) -> (n: usize)
        requires
            self.fits(),
        ensures
            n == self.size(),
            n <= 10,
    {
        count(self.0) as usize
    }

    /// Returns the candidate digits of the cell, in increasing order.
    pub fn digits(&self) -> (ds: Vec<usize>)
        ensures
            ds@ == self.digit_list(),
    {
        let mut d: Vec<usize> = Vec::new();
        let mut i: usize = 1;
        while i <= 9
            invariant
                1 <= i <= 10,
                d@ == digit_seq(self.0, i as int),
            decreases 10 - i,
        {
            if self.0 & (1u16 << i as u16) != 0 {
                d.push(i);
            }
            i += 1;
        }
        d
    }

    /// Keeps only the candidates that `other` also has; returns whether the cell changed.
    pub fn and(&mut self, other: &Cell) -> (changed: bool)
        ensures
            final(self).0 == old(self).0 & other.0,
            changed == (final(self).0 != old(self).0),
    {
        let prev = self.0;
        self.0 &= other.0;
        self.0 != prev
    }

    /// Removes the candidates of `other`; returns whether the cell changed.
    pub fn and_not(&mut self, other: &Cell) -> (changed: bool)
        ensures
            final(self).0 == old(self).0 & !other.0,
            changed == (final(self).0 != old(self).0),
    {
        let prev = self.0;
        self.0 &= !other.0;
        self.0 != prev
    }

    /// Sets the cell to the candidates of `other`; returns whether the cell changed.
    pub fn replace(&mut self, other: &Cell) -> (changed: bool)
        ensures
            final(self).0 == other.0,
            changed == (final(self).0 != old(self).0),
    {
        let prev = self.0;
        self.0 = other.0;
        self.0 != prev
    }
}

impl Default for Cell {
    /// The cell with no candidate.
    fn default() -> (c: Cell)
        ensures
            c == Cell(0),
    {
        Cell(0)
    }
}

impl core::ops::BitOr for Cell {
    type Output = Cell;

    fn bitor(self, rhs: Cell) -> (r: Cell)
        ensures
            r.0 == self.0 | rhs.0,
    {
        Cell(self.0 | rhs.0)
    }
}

impl vstd::std_specs::ops::BitOrSpecImpl for Cell {
    open spec fn obeys_bitor_spec() -> bool {
        true
    }

    open spec fn bitor_req(self, rhs: Cell) -> bool {
        true
    }

    open spec fn bitor_spec(self, rhs: Cell) -> Cell {
        Cell(self.0 | rhs.0)
    }
}

/// Returns the number of set bits of a mask below 1024.
pub fn count(x: u16) -> (n: u8)
    requires
        x < 1024,
    ensures
        n == popcount(x),
        n <= 10,
{
    let mut n: u8 = 0;
    let mut i: u16 = 0;
    while i < 10
        invariant
            i <= 10,
            n == bits_upto(x, i as int),
            n <= i,
        decreases 10 - i,
    {
        if x & (1u16 << i) != 0 {
            n += 1;
        }
        i += 1;
    }
    proof {
        lemma_popcount_low(x);
    }
    n
}

} // verus!
