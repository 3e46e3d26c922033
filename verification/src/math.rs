//! Small integer helpers.

use vstd::prelude::*;

verus! {

/// `v` moved into the interval from `lo` to `hi`.
pub open spec fn clip3(lo: int, hi: int, v: int) -> int {
    if v < lo {
        lo
    } else if v > hi {
        hi
    } else {
        v
    }
}

/// The smaller of two integers.
pub open spec fn min_int(a: int, b: int) -> int {
    if a <= b {
        a
    } else {
        b
    }
}

/// The larger of two integers.
pub open spec fn max_int(a: int, b: int) -> int {
    if a >= b {
        a
    } else {
        b
    }
}

/// The number of blocks of `d` that cover `a`.
pub open spec fn ceil_div(a: int, d: int) -> int {
    (a + d - 1) / d
}

pub fn clip3_i32(lo: i32, hi: i32, v: i32) -> (r: i32)
    ensures
        r == clip3(lo as int, hi as int, v as int),
{
    if v < lo {
        lo
    } else if v > hi {
        hi
    } else {
        v
    }
}

pub fn max_u32(a: u32, b: u32) -> (r: u32)
    ensures
        r == max_int(a as int, b as int),
{
    if a >= b {
        a
    } else {
        b
    }
}

pub fn min_u32(a: u32, b: u32) -> (r: u32)
    ensures
        r == min_int(a as int, b as int),
{
    if a <= b {
        a
    } else {
        b
    }
}

pub fn min_usize(a: usize, b: usize) -> (r: usize)
    ensures
        r == min_int(a as int, b as int),
{
    if a <= b {
        a
    } else {
        b
    }
}

pub fn min_u8(a: u8, b: u8) -> (r: u8)
    ensures
        r == min_int(a as int, b as int),
{
    if a <= b {
        a
    } else {
        b
    }
}

/// `ceil_div` without overflow at the top of the range.
pub fn ceil_div_u32(a: u32, d: u32) -> (r: u32)
    requires
        d > 0,
    ensures
        r == ceil_div(a as int, d as int),
{
    let q: u32 = a / d;
    let rem: u32 = a % d;
    proof {
        let (ai, di) = (a as int, d as int);
        vstd::arithmetic::div_mod::lemma_fundamental_div_mod(ai, di);
        vstd::arithmetic::div_mod::lemma_fundamental_div_mod(ai + di - 1, di);
        let k = (ai + di - 1) / di;
        let t = (ai + di - 1) % di;
        let (qi, ri) = (q as int, rem as int);
        assert(ai == di * qi + ri && 0 <= ri < di);
        if ri == 0 {
            assert(k == qi) by (nonlinear_arith)
                requires
                    ai == di * qi,
                    ai + di - 1 == di * k + t,
                    0 <= t < di,
                    di > 0,
            ;
        } else {
            assert(k == qi + 1) by (nonlinear_arith)
                requires
                    ai == di * qi + ri,
                    0 < ri < di,
                    ai + di - 1 == di * k + t,
                    0 <= t < di,
                    di > 0,
            ;
            assert(qi + 1 <= u32::MAX) by (nonlinear_arith)
                requires
                    ai == di * qi + ri,
                    0 < ri < di,
                    ai <= u32::MAX,
            ;
        }
    }
    if rem == 0 {
        q
    } else {
        q + 1
    }
}

} // verus!
