//! Bit-level facts about the `u16` masks that hold candidate digits and cell positions.
use vstd::prelude::*;

verus! {

/// Bit `i` of `x` is set.
pub open spec fn has_bit(x: u16, i: int) -> bool {
    0 <= i < 16 && x & (1u16 << (i as u16)) != 0
}

/// Every bit of `a` is a bit of `b`.
pub open spec fn subset(a: u16, b: u16) -> bool {
    a & b == a
}

/// Number of set bits among the bits `0 .. n` of `x`.
pub open spec fn bits_upto(x: u16, n: int) -> nat
    decreases n,
{
    if n <= 0 {
        0
    } else {
        bits_upto(x, n - 1) + if has_bit(x, n - 1) {
            1nat
        } else {
            0nat
        }
    }
}

/// Number of set bits of `x`.
pub open spec fn popcount(x: u16) -> nat {
    bits_upto(x, 16)
}

pub proof fn lemma_bit_and(a: u16, b: u16, i: int)
    ensures
        has_bit(a & b, i) == (has_bit(a, i) && has_bit(b, i)),
{
    if 0 <= i < 16 {
        let k = i as u16;
        assert((a & b) & (1u16 << k) != 0 <==> (a & (1u16 << k) != 0 && b & (1u16 << k) != 0))
            by (bit_vector)
            requires
                k < 16,
        ;
    }
}

pub proof fn lemma_bit_or(a: u16, b: u16, i: int)
    ensures
        has_bit(a | b, i) == (has_bit(a, i) || has_bit(b, i)),
{
    if 0 <= i < 16 {
        let k = i as u16;
        assert((a | b) & (1u16 << k) != 0 <==> (a & (1u16 << k) != 0 || b & (1u16 << k) != 0))
            by (bit_vector)
            requires
                k < 16,
        ;
    }
}

pub proof fn lemma_bit_and_not(a: u16, b: u16, i: int)
    ensures
        has_bit(a & !b, i) == (has_bit(a, i) && !has_bit(b, i)),
{
    if 0 <= i < 16 {
        let k = i as u16;
        assert((a & !b) & (1u16 << k) != 0 <==> (a & (1u16 << k) != 0 && b & (1u16 << k) == 0))
            by (bit_vector)
            requires
                k < 16,
        ;
    }
}

pub proof fn lemma_bit_single(j: u16, i: int)
    requires
        j < 16,
    ensures
        has_bit(1u16 << j, i) == (i == j),
{
    if 0 <= i < 16 {
        let k = i as u16;
        assert((1u16 << j) & (1u16 << k) != 0 <==> j == k) by (bit_vector)
            requires
                k < 16,
                j < 16,
        ;
    }
}

pub proof fn lemma_bit_zero(i: int)
    ensures
        !has_bit(0u16, i),
{
    if 0 <= i < 16 {
        let k = i as u16;
        assert(0u16 & (1u16 << k) == 0) by (bit_vector);
    }
}

/// The bits of a mask below 1024 lie in `0 .. 10`.
pub proof fn lemma_bit_high(x: u16, i: int)
    requires
        x < 1024,
        10 <= i,
    ensures
        !has_bit(x, i),
{
    if i < 16 {
        let k = i as u16;
        assert(x & (1u16 << k) == 0) by (bit_vector)
            requires
                x < 1024,
                10 <= k < 16,
        ;
    }
}

pub proof fn lemma_subset_bit(a: u16, b: u16, i: int)
    requires
        subset(a, b),
        has_bit(a, i),
    ensures
        has_bit(b, i),
{
    let k = i as u16;
    assert(a & (1u16 << k) != 0 ==> b & (1u16 << k) != 0) by (bit_vector)
        requires
            a & b == a,
    ;
}

pub proof fn lemma_subset_refl(a: u16)
    ensures
        subset(a, a),
{
    assert(a & a == a) by (bit_vector);
}

pub proof fn lemma_subset_trans(a: u16, b: u16, c: u16)
    requires
        subset(a, b),
        subset(b, c),
    ensures
        subset(a, c),
{
    assert(a & c == a) by (bit_vector)
        requires
            a & b == a,
            b & c == b,
    ;
}

/// Once a mask has lost a bit, no further narrowing gives it back.
pub proof fn lemma_subset_strict_stays(a: u16, b: u16, c: u16)
    requires
        subset(a, b),
        subset(b, c),
        b != c,
    ensures
        a != c,
{
    assert(a != c) by (bit_vector)
        requires
            a & b == a,
            b & c == b,
            b != c,
    ;
}

/// A strict narrowing stays strict under any wider mask.
pub proof fn lemma_subset_strict_below(a: u16, b: u16, c: u16)
    requires
        subset(a, b),
        a != b,
        subset(b, c),
    ensures
        a != c,
{
    assert(a != c) by (bit_vector)
        requires
            a & b == a,
            b & c == b,
            a != b,
    ;
}

/// Removing a mask changes a value exactly when they share a bit.
pub proof fn lemma_and_not_changes(x: u16, m: u16)
    ensures
        (x & !m != x) == (x & m != 0),
        (x & m != x) == (x & !m != 0),
{
    assert((x & !m != x) == (x & m != 0)) by (bit_vector);
    assert((x & m != x) == (x & !m != 0)) by (bit_vector);
}

/// A mask inside one below 1024 is below 1024.
pub proof fn lemma_subset_fits(a: u16, b: u16)
    requires
        subset(a, b),
        b < 1024,
    ensures
        a < 1024,
{
    assert(a < 1024) by (bit_vector)
        requires
            a & b == a,
            b < 1024,
    ;
}

/// A mask inside one with no bit outside `m` has no bit outside `m`.
pub proof fn lemma_subset_within_mask(a: u16, b: u16, m: u16)
    requires
        subset(a, b),
        b & !m == 0,
    ensures
        a & !m == 0,
{
    assert(a & !m == 0) by (bit_vector)
        requires
            a & b == a,
            b & !m == 0,
    ;
}

/// The union of two masks below 1024 is below 1024.
pub proof fn lemma_or_fits(a: u16, b: u16)
    requires
        a < 1024,
        b < 1024,
    ensures
        a | b < 1024,
{
    assert(a | b < 1024) by (bit_vector)
        requires
            a < 1024,
            b < 1024,
    ;
}

/// Each side of a union is inside it.
pub proof fn lemma_or_subset(a: u16, b: u16)
    ensures
        subset(a, a | b),
        subset(b, a | b),
{
    assert(a & (a | b) == a) by (bit_vector);
    assert(b & (a | b) == b) by (bit_vector);
}

/// Setting bit `i` of a mask below `2^i` leaves it below `2^(i+1)`.
pub proof fn lemma_or_below(x: u16, i: u16)
    requires
        i < 9,
        x < 1u16 << i,
    ensures
        x | (1u16 << i) < 1u16 << (i + 1) as u16,
        1u16 << i < 1u16 << (i + 1) as u16,
{
    assert(x | (1u16 << i) < 1u16 << (i + 1) as u16) by (bit_vector)
        requires
            i < 9,
            x < 1u16 << i,
    ;
    lemma_shift_grows(i);
}

pub proof fn lemma_shift_grows(i: u16)
    requires
        i < 9,
    ensures
        1u16 << i < 1u16 << (i + 1) as u16,
{
    assert(1u16 << i < 1u16 << (i + 1) as u16) by (bit_vector)
        requires
            i < 9,
    ;
}

/// A single bit of a mask is inside it.
/// A mask disjoint from `m` has every subset of it disjoint from `m` too.
pub proof fn lemma_subset_disjoint(x: u16, y: u16, m: u16)
    requires
        subset(x, y),
        y & m == 0,
    ensures
        x & m == 0,
{
    assert(x & m == 0) by (bit_vector)
        requires
            x & y == x,
            y & m == 0,
    ;
}

/// Keeping only the bits of `m` leaves none outside it, and removing them leaves none of them.
pub proof fn lemma_mask_clears(x: u16, m: u16)
    ensures
        (x & m) & !m == 0,
        (x & !m) & m == 0,
{
    assert((x & m) & !m == 0 && (x & !m) & m == 0) by (bit_vector);
}

pub proof fn lemma_single_subset(x: u16, e: u16)
    requires
        e < 16,
        has_bit(x, e as int),
    ensures
        subset(1u16 << e, x),
{
    assert((1u16 << e) & x == (1u16 << e)) by (bit_vector)
        requires
            e < 16,
            x & (1u16 << e) != 0,
    ;
}

/// A nonzero mask inside a single bit is that bit.
pub proof fn lemma_inside_single(a: u16, e: u16)
    requires
        e < 16,
        subset(a, 1u16 << e),
        a != 0,
    ensures
        a == 1u16 << e,
{
    assert(a == 1u16 << e) by (bit_vector)
        requires
            e < 16,
            a & (1u16 << e) == a,
            a != 0,
    ;
}

pub proof fn lemma_single_nonzero(e: u16)
    requires
        e < 16,
    ensures
        1u16 << e != 0,
{
    assert(1u16 << e != 0) by (bit_vector)
        requires
            e < 16,
    ;
}

/// Masks with the same bits are equal.
pub proof fn lemma_bits_ext(a: u16, b: u16)
    requires
        forall|i: int| 0 <= i < 16 ==> #[trigger] has_bit(a, i) == has_bit(b, i),
    ensures
        a == b,
{
    assert(has_bit(a, 0) == has_bit(b, 0));
    assert(has_bit(a, 1) == has_bit(b, 1));
    assert(has_bit(a, 2) == has_bit(b, 2));
    assert(has_bit(a, 3) == has_bit(b, 3));
    assert(has_bit(a, 4) == has_bit(b, 4));
    assert(has_bit(a, 5) == has_bit(b, 5));
    assert(has_bit(a, 6) == has_bit(b, 6));
    assert(has_bit(a, 7) == has_bit(b, 7));
    assert(has_bit(a, 8) == has_bit(b, 8));
    assert(has_bit(a, 9) == has_bit(b, 9));
    assert(has_bit(a, 10) == has_bit(b, 10));
    assert(has_bit(a, 11) == has_bit(b, 11));
    assert(has_bit(a, 12) == has_bit(b, 12));
    assert(has_bit(a, 13) == has_bit(b, 13));
    assert(has_bit(a, 14) == has_bit(b, 14));
    assert(has_bit(a, 15) == has_bit(b, 15));
    assert(a == b) by (bit_vector)
        requires
            (a & (1u16 << 0u16) != 0) == (b & (1u16 << 0u16) != 0),
            (a & (1u16 << 1u16) != 0) == (b & (1u16 << 1u16) != 0),
            (a & (1u16 << 2u16) != 0) == (b & (1u16 << 2u16) != 0),
            (a & (1u16 << 3u16) != 0) == (b & (1u16 << 3u16) != 0),
            (a & (1u16 << 4u16) != 0) == (b & (1u16 << 4u16) != 0),
            (a & (1u16 << 5u16) != 0) == (b & (1u16 << 5u16) != 0),
            (a & (1u16 << 6u16) != 0) == (b & (1u16 << 6u16) != 0),
            (a & (1u16 << 7u16) != 0) == (b & (1u16 << 7u16) != 0),
            (a & (1u16 << 8u16) != 0) == (b & (1u16 << 8u16) != 0),
            (a & (1u16 << 9u16) != 0) == (b & (1u16 << 9u16) != 0),
            (a & (1u16 << 10u16) != 0) == (b & (1u16 << 10u16) != 0),
            (a & (1u16 << 11u16) != 0) == (b & (1u16 << 11u16) != 0),
            (a & (1u16 << 12u16) != 0) == (b & (1u16 << 12u16) != 0),
            (a & (1u16 << 13u16) != 0) == (b & (1u16 << 13u16) != 0),
            (a & (1u16 << 14u16) != 0) == (b & (1u16 << 14u16) != 0),
            (a & (1u16 << 15u16) != 0) == (b & (1u16 << 15u16) != 0),
    ;
}

pub proof fn lemma_and_subset(a: u16, b: u16)
    ensures
        subset(a & b, a),
        subset(a & b, b),
        subset(a & !b, a),
{
    assert((a & b) & a == (a & b)) by (bit_vector);
    assert((a & b) & b == (a & b)) by (bit_vector);
    assert((a & !b) & a == (a & !b)) by (bit_vector);
}

/// A mask that is not all of a larger one misses one of its bits.
pub proof fn lemma_missing_bit(a: u16, b: u16)
    requires
        subset(a, b),
        a != b,
    ensures
        exists|i: int| 0 <= i < 16 && has_bit(b, i) && !has_bit(a, i),
{
    let d = b & !a;
    assert(d != 0) by (bit_vector)
        requires
            a & b == a,
            a != b,
            d == b & !a,
    ;
    assert(d & (1u16 << 0u16) != 0 || d & (1u16 << 1u16) != 0 || d & (1u16 << 2u16) != 0 || d & (
    1u16 << 3u16) != 0 || d & (1u16 << 4u16) != 0 || d & (1u16 << 5u16) != 0 || d & (1u16
        << 6u16) != 0 || d & (1u16 << 7u16) != 0 || d & (1u16 << 8u16) != 0 || d & (1u16
        << 9u16) != 0 || d & (1u16 << 10u16) != 0 || d & (1u16 << 11u16) != 0 || d & (1u16
        << 12u16) != 0 || d & (1u16 << 13u16) != 0 || d & (1u16 << 14u16) != 0 || d & (1u16
        << 15u16) != 0) by (bit_vector)
        requires
            d != 0,
    ;
    let i = choose|i: int| 0 <= i < 16 && has_bit(d, i);
    assert(has_bit(d, 0) || has_bit(d, 1) || has_bit(d, 2) || has_bit(d, 3) || has_bit(d, 4)
        || has_bit(d, 5) || has_bit(d, 6) || has_bit(d, 7) || has_bit(d, 8) || has_bit(d, 9)
        || has_bit(d, 10) || has_bit(d, 11) || has_bit(d, 12) || has_bit(d, 13) || has_bit(d, 14)
        || has_bit(d, 15));
    lemma_bit_and_not(b, a, i);
}

pub proof fn lemma_bits_upto_mono(a: u16, b: u16, n: int)
    requires
        subset(a, b),
    ensures
        bits_upto(a, n) <= bits_upto(b, n),
        (exists|i: int| 0 <= i < n && has_bit(b, i) && !has_bit(a, i)) ==> bits_upto(a, n)
            < bits_upto(b, n),
    decreases n,
{
    if n > 0 {
        lemma_bits_upto_mono(a, b, n - 1);
        if has_bit(a, n - 1) {
            lemma_subset_bit(a, b, n - 1);
        }
        if exists|i: int| 0 <= i < n && has_bit(b, i) && !has_bit(a, i) {
            let i = choose|i: int| 0 <= i < n && has_bit(b, i) && !has_bit(a, i);
            if i < n - 1 {
            } else {
            }
        }
    }
}

/// Narrowing a mask never adds to its count, and losing a bit lowers it.
pub proof fn lemma_popcount_mono(a: u16, b: u16)
    requires
        subset(a, b),
    ensures
        popcount(a) <= popcount(b),
        a != b ==> popcount(a) < popcount(b),
{
    lemma_bits_upto_mono(a, b, 16);
    if a != b {
        lemma_missing_bit(a, b);
    }
}

pub proof fn lemma_bits_upto_at_least(x: u16, s: Set<int>, n: int)
    requires
        s.finite(),
        forall|i: int| s.contains(i) ==> 0 <= i < n && has_bit(x, i),
    ensures
        bits_upto(x, n) >= s.len(),
    decreases n,
{
    if n <= 0 {
        if s.len() > 0 {
            let i = s.choose();
            assert(s.contains(i));
        }
    } else {
        let t = s.remove(n - 1);
        lemma_bits_upto_at_least(x, t, n - 1);
        if s.contains(n - 1) {
            assert(t.len() == s.len() - 1);
        } else {
            assert(t =~= s);
        }
    }
}

/// A mask whose set bits include `s` has at least `|s|` bits.
pub proof fn lemma_popcount_at_least(x: u16, s: Set<int>)
    requires
        s.finite(),
        forall|i: int| s.contains(i) ==> has_bit(x, i),
    ensures
        popcount(x) >= s.len(),
{
    lemma_bits_upto_at_least(x, s, 16);
}

/// If a mask has at most `|s|` bits and contains every element of `s`, its bits are exactly `s`.
pub proof fn lemma_popcount_exhausted(x: u16, s: Set<int>, i: int)
    requires
        s.finite(),
        forall|j: int| s.contains(j) ==> has_bit(x, j),
        popcount(x) <= s.len(),
        has_bit(x, i),
    ensures
        s.contains(i),
{
    if !s.contains(i) {
        lemma_popcount_at_least(x, s.insert(i));
    }
}

/// The bits of a mask below 1024 are counted in the ten lowest positions.
pub proof fn lemma_popcount_low(x: u16)
    requires
        x < 1024,
    ensures
        popcount(x) == bits_upto(x, 10),
{
    lemma_bit_high(x, 10);
    lemma_bit_high(x, 11);
    lemma_bit_high(x, 12);
    lemma_bit_high(x, 13);
    lemma_bit_high(x, 14);
    lemma_bit_high(x, 15);
    assert(bits_upto(x, 16) == bits_upto(x, 15));
    assert(bits_upto(x, 15) == bits_upto(x, 14));
    assert(bits_upto(x, 14) == bits_upto(x, 13));
    assert(bits_upto(x, 13) == bits_upto(x, 12));
    assert(bits_upto(x, 12) == bits_upto(x, 11));
    assert(bits_upto(x, 11) == bits_upto(x, 10));
}

/// A mask with no set bit is zero.
pub proof fn lemma_popcount_zero(x: u16)
    ensures
        (popcount(x) == 0) == (x == 0),
{
    assert forall|i: int| #![auto] 0 <= i < 16 implies !has_bit(0u16, i) by {
        lemma_bit_zero(i);
    }
    lemma_bits_upto_zero(0u16, 16);
    if x != 0 {
        lemma_subset_zero(x);
        lemma_popcount_mono(0u16, x);
    }
}

proof fn lemma_bits_upto_zero(x: u16, n: int)
    requires
        forall|i: int| #![auto] 0 <= i < 16 ==> !has_bit(x, i),
        n <= 16,
    ensures
        bits_upto(x, n) == 0,
    decreases n,
{
    if n > 0 {
        lemma_bits_upto_zero(x, n - 1);
    }
}

pub proof fn lemma_subset_zero(x: u16)
    ensures
        subset(0u16, x),
{
    assert(0u16 & x == 0u16) by (bit_vector);
}

} // verus!
