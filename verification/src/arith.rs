//! Alignment arithmetic: rounding an address up to a multiple of a
//! power-of-two alignment.

use vstd::prelude::*;

verus! {

/// The smallest multiple of `align` at or above `x`.
pub open spec fn spec_align_up(x: int, align: int) -> int
    recommends
        align >= 1,
        x >= 0,
{
    if x % align == 0 {
        x
    } else {
        x + align - x % align
    }
}

pub open spec fn is_power_of_two(a: int) -> bool
    decreases a,
{
    if a <= 0 {
        false
    } else if a == 1 {
        true
    } else {
        a % 2 == 0 && is_power_of_two(a / 2)
    }
}

/// Rounding up lands on a multiple of the alignment, moves by less than one
/// alignment unit, and never moves down.
pub proof fn lemma_align_up(x: int, align: int)
    requires
        align >= 1,
        x >= 0,
    ensures
        spec_align_up(x, align) % align == 0,
        x <= spec_align_up(x, align) < x + align,
{
    vstd::arithmetic::div_mod::lemma_fundamental_div_mod(x, align);
    vstd::arithmetic::div_mod::lemma_mod_division_less_than_divisor(x, align);
    if x % align != 0 {
        let q = x / align;
        assert(spec_align_up(x, align) == (q + 1) * align) by (nonlinear_arith)
            requires
                x == align * q + x % align,
                spec_align_up(x, align) == x + align - x % align,
        ;
        vstd::arithmetic::div_mod::lemma_mod_multiples_basic(q + 1, align);
    }
}

/// `spec_align_up(x, align)` is the least multiple of `align` at or above `x`.
pub proof fn lemma_align_up_least(x: int, align: int, y: int)
    requires
        align >= 1,
        x >= 0,
        y >= x,
        y % align == 0,
    ensures
        y >= spec_align_up(x, align),
{
    if x % align != 0 {
        vstd::arithmetic::div_mod::lemma_fundamental_div_mod(x, align);
        vstd::arithmetic::div_mod::lemma_fundamental_div_mod(y, align);
        vstd::arithmetic::div_mod::lemma_mod_division_less_than_divisor(x, align);
        let qx = x / align;
        let qy = y / align;
        assert(qy >= qx + 1) by (nonlinear_arith)
            requires
                align >= 1,
                x == align * qx + x % align,
                0 < x % align < align,
                y == align * qy,
                y >= x,
        ;
        assert(y >= (qx + 1) * align) by (nonlinear_arith)
            requires
                align >= 1,
                y == align * qy,
                qy >= qx + 1,
        ;
        assert(spec_align_up(x, align) == (qx + 1) * align) by (nonlinear_arith)
            requires
                x == align * qx + x % align,
                spec_align_up(x, align) == x + align - x % align,
        ;
    }
}

/// A positive value rounded up to a positive alignment is at least one
/// alignment unit.
pub proof fn lemma_align_up_at_least_align(x: int, align: int)
    requires
        align >= 1,
        x >= 1,
    ensures
        spec_align_up(x, align) >= align,
{
    lemma_align_up(x, align);
    let r = spec_align_up(x, align);
    vstd::arithmetic::div_mod::lemma_fundamental_div_mod(r, align);
    let q = r / align;
    assert(r >= align) by (nonlinear_arith)
        requires
            align >= 1,
            r == align * q,
            r >= 1,
    ;
}

/// A smaller power of two divides a larger one.
pub proof fn lemma_pow2_divides(a: int, b: int)
    requires
        is_power_of_two(a),
        is_power_of_two(b),
        a <= b,
    ensures
        b % a == 0,
    decreases b,
{
    if a == 1 {
        assert(b % 1 == 0) by (nonlinear_arith)
            requires
                b >= 1,
        ;
    } else {
        assert(b > 1);
        vstd::arithmetic::div_mod::lemma_div_is_ordered(a, b, 2);
        assert(b / 2 < b) by (nonlinear_arith)
            requires
                b > 1,
        ;
        lemma_pow2_divides(a / 2, b / 2);
        vstd::arithmetic::div_mod::lemma_fundamental_div_mod(b / 2, a / 2);
        let k = (b / 2) / (a / 2);
        vstd::arithmetic::div_mod::lemma_fundamental_div_mod(b, 2);
        vstd::arithmetic::div_mod::lemma_fundamental_div_mod(a, 2);
        assert(b == k * a) by (nonlinear_arith)
            requires
                b == 2 * (b / 2),
                a == 2 * (a / 2),
                b / 2 == (a / 2) * k,
        ;
        vstd::arithmetic::div_mod::lemma_mod_multiples_basic(k, a);
    }
}

/// Rounding up to a coarser power-of-two alignment never lands lower.
pub proof fn lemma_align_up_mono_align(x: int, a1: int, a2: int)
    requires
        x >= 0,
        is_power_of_two(a1),
        is_power_of_two(a2),
        a1 <= a2,
    ensures
        spec_align_up(x, a1) <= spec_align_up(x, a2),
{
    lemma_align_up(x, a2);
    let r2 = spec_align_up(x, a2);
    lemma_pow2_divides(a1, a2);
    vstd::arithmetic::div_mod::lemma_fundamental_div_mod(r2, a2);
    vstd::arithmetic::div_mod::lemma_fundamental_div_mod(a2, a1);
    let k2 = r2 / a2;
    let m = a2 / a1;
    assert(r2 == (m * k2) * a1) by (nonlinear_arith)
        requires
            r2 == a2 * k2,
            a2 == a1 * m,
    ;
    vstd::arithmetic::div_mod::lemma_mod_multiples_basic(m * k2, a1);
    lemma_align_up_least(x, a1, r2);
}

/// Rounds `addr` up to the next multiple of `align`.
pub fn align_up(addr: usize, align: usize) -> (r: usize)
    requires
        align >= 1,
        is_power_of_two(align as int),
        addr + align <= usize::MAX,
    ensures
        r as int == spec_align_up(addr as int, align as int),
        r % align == 0,
        addr <= r < addr + align,
{
    proof {
        lemma_align_up(addr as int, align as int);
    }
    let rem = addr % align;
    if rem == 0 {
        addr
    } else {
        addr + (align - rem)
    }
}

} // verus!
