//! The ideal binary arithmetic code: intervals of exact integers.
//!
//! A coder's state is the interval of code values that continue the bins coded so
//! far. Each bin selects a part of the interval; doubling the scale then keeps the
//! range at 256 or more. [`crate::cabac::CabacEncoder`] computes these intervals in
//! a fixed number of register bits.

use vstd::arithmetic::power2::{lemma_pow2_pos, lemma_pow2_unfold, pow2};
use vstd::prelude::*;

use crate::cabac::LPS_TABLE;

verus! {

/// The code values from `low` up to, not including, `low + range`, as numbers of
/// `len` bits.
pub struct CodeInterval {
    pub low: nat,
    pub range: nat,
    pub len: nat,
}

/// Doubles the scale until the range is at least 256.
pub open spec fn renorm(iv: CodeInterval) -> CodeInterval
    decreases
            (if iv.range >= 256 {
                0
            } else {
                256 - iv.range
            }),
{
    if iv.range >= 256 || iv.range == 0 {
        iv
    } else {
        renorm(CodeInterval { low: 2 * iv.low, range: 2 * iv.range, len: iv.len + 1 })
    }
}

/// The width of the least probable symbol's part of a range.
pub open spec fn lps_range(state_mps: int, range: nat) -> nat {
    LPS_TABLE[state_mps / 2][(range as int / 64) % 4] as nat
}

/// The part of the interval for a context-coded bin: the most probable symbol
/// keeps the lower part.
pub open spec fn code_bin(iv: CodeInterval, state_mps: int, bin: int) -> CodeInterval {
    let lps = lps_range(state_mps, iv.range);
    let mps_range = (iv.range - lps) as nat;
    if bin == state_mps % 2 {
        renorm(CodeInterval { low: iv.low, range: mps_range, len: iv.len })
    } else {
        renorm(CodeInterval { low: iv.low + mps_range, range: lps, len: iv.len })
    }
}

/// The part of the interval for a bypass bin: one of two halves at the doubled scale.
pub open spec fn code_bypass(iv: CodeInterval, bin: bool) -> CodeInterval {
    CodeInterval {
        low: 2 * iv.low + (if bin {
            iv.range
        } else {
            0
        }),
        range: iv.range,
        len: iv.len + 1,
    }
}

/// Bypass bins one after another.
pub open spec fn code_bypass_bins(iv: CodeInterval, bins: Seq<bool>) -> CodeInterval
    decreases bins.len(),
{
    if bins.len() == 0 {
        iv
    } else {
        code_bypass(code_bypass_bins(iv, bins.drop_last()), bins.last())
    }
}

/// The part of the interval for a terminating bin: the top two values end the code.
pub open spec fn code_terminate(iv: CodeInterval, bin: bool) -> CodeInterval {
    let rest = (iv.range - 2) as nat;
    if bin {
        renorm(CodeInterval { low: iv.low + rest, range: 2, len: iv.len })
    } else {
        renorm(CodeInterval { low: iv.low, range: rest, len: iv.len })
    }
}

proof fn lemma_times_pow2_0(x: nat)
    ensures
        x * pow2(0) == x,
{
    vstd::arithmetic::power2::lemma2_to64();
    assert(x * pow2(0) == x) by (nonlinear_arith)
        requires
            pow2(0) == 1,
    ;
}

/// `renorm` doubles `k` times when that is what brings the range to 256 or more.
pub proof fn lemma_renorm_shift(iv: CodeInterval, k: nat)
    requires
        256 <= iv.range * pow2(k) < 512,
    ensures
        renorm(iv) == (CodeInterval {
            low: iv.low * pow2(k),
            range: iv.range * pow2(k),
            len: iv.len + k,
        }),
    decreases k,
{
    if k == 0 {
        lemma_times_pow2_0(iv.low);
        lemma_times_pow2_0(iv.range);
    } else {
        let half = pow2((k - 1) as nat);
        lemma_pow2_unfold(k);
        lemma_pow2_pos((k - 1) as nat);
        assert(iv.range < 256) by (nonlinear_arith)
            requires
                iv.range * pow2(k) < 512,
                pow2(k) == 2 * half,
                half >= 1,
        ;
        assert(iv.range != 0) by (nonlinear_arith)
            requires
                256 <= iv.range * pow2(k),
        ;
        assert((2 * iv.range) * half == iv.range * pow2(k)) by (nonlinear_arith)
            requires
                pow2(k) == 2 * half,
        ;
        assert((2 * iv.low) * half == iv.low * pow2(k)) by (nonlinear_arith)
            requires
                pow2(k) == 2 * half,
        ;
        lemma_renorm_shift(
            CodeInterval { low: 2 * iv.low, range: 2 * iv.range, len: iv.len + 1 },
            (k - 1) as nat,
        );
    }
}

/// Bypass bins add their number, most significant bin first, times the range.
pub proof fn lemma_code_bypass_bins(iv: CodeInterval, bins: Seq<bool>)
    ensures
        code_bypass_bins(iv, bins) == (CodeInterval {
            low: iv.low * pow2(bins.len()) + iv.range * crate::bitstream::bits_value(bins),
            range: iv.range,
            len: iv.len + bins.len(),
        }),
    decreases bins.len(),
{
    if bins.len() == 0 {
        lemma_times_pow2_0(iv.low);
        assert(iv.range * 0 == 0);
    } else {
        let init = bins.drop_last();
        let v = crate::bitstream::bits_value(init);
        let b: nat = if bins.last() {
            1
        } else {
            0
        };
        lemma_code_bypass_bins(iv, init);
        lemma_pow2_unfold(bins.len());
        assert(2 * (iv.low * pow2(init.len()) + iv.range * v) + iv.range * b == iv.low * pow2(
            bins.len(),
        ) + iv.range * (2 * v + b)) by (nonlinear_arith)
            requires
                pow2(bins.len()) == 2 * pow2(init.len()),
        ;
        assert(iv.range * b == if bins.last() {
            iv.range
        } else {
            0
        }) by (nonlinear_arith)
            requires
                b == if bins.last() {
                    1nat
                } else {
                    0nat
                },
        ;
    }
}

/// Bypass bins in two groups.
pub proof fn lemma_code_bypass_append(iv: CodeInterval, first: Seq<bool>, second: Seq<bool>)
    ensures
        code_bypass_bins(iv, first + second) == code_bypass_bins(
            code_bypass_bins(iv, first),
            second,
        ),
    decreases second.len(),
{
    if second.len() == 0 {
        assert(first + second =~= first);
    } else {
        lemma_code_bypass_append(iv, first, second.drop_last());
        assert((first + second).drop_last() =~= first + second.drop_last());
    }
}

/// The parts that the table gives fit the range they divide.
pub proof fn lemma_lps_range(state_mps: int, range: nat)
    requires
        0 <= state_mps < 126,
        256 <= range <= 510,
    ensures
        6 <= lps_range(state_mps, range) <= 240,
        lps_range(state_mps, range) + 128 <= range,
{
    let state = state_mps / 2;
    let q = (range as int / 64) % 4;
    assert(0 <= state <= 62 && 0 <= q <= 3);
    assert(6 <= LPS_TABLE[state][q] <= 240);
    assert(LPS_TABLE[state][q] <= 128 + 64 * q);
    assert(LPS_TABLE[state][q] <= 128 + 48 * q);
    assert(range as int == 256 + 64 * q + range as int % 64) by {
        assert(range as int / 64 == 4 + q);
    }
}

} // verus!
