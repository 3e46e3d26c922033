//! How much structure a source block has.

use vstd::prelude::*;

use crate::source::square;

verus! {

pub open spec fn sample_sum(s: Seq<u16>) -> nat
    decreases s.len(),
{
    if s.len() == 0 {
        0
    } else {
        sample_sum(s.drop_last()) + s.last() as nat
    }
}

/// The squared distances from `mean`, summed.
pub open spec fn spread_sum(s: Seq<u16>, mean: int) -> nat
    decreases s.len(),
{
    if s.len() == 0 {
        0
    } else {
        spread_sum(s.drop_last(), mean) + square(s.last() - mean)
    }
}

/// The variance of a block in whole units: the mean is rounded down first.
pub open spec fn block_variance(s: Seq<u16>, n: int) -> int {
    spread_sum(s, sample_sum(s) as int / n) as int / n
}

/// Whether a block is so uniform that directional prediction is not worth trying. The
/// threshold is given for eight bits and scaled to the bit depth.
pub open spec fn is_uniform(s: Seq<u16>, size: int, threshold: Option<i64>, bit_depth: int) -> bool {
    match threshold {
        None => false,
        Some(th) => block_variance(s, size * size) < th * vstd::arithmetic::power2::pow2(
            (2 * (bit_depth - 8)) as nat,
        ),
    }
}

/// The scaled threshold is within range.
pub open spec fn threshold_fits(threshold: Option<i64>, bit_depth: int) -> bool {
    threshold matches Some(th) ==> i64::MIN <= th * vstd::arithmetic::power2::pow2(
        (2 * (bit_depth - 8)) as nat,
    ) <= i64::MAX
}

/// Tells whether a block is uniform.
pub fn prune_angular_modes(src: &[u16], size: usize, threshold: Option<i64>, bit_depth: u8) -> (r:
    bool)
    requires
        0 < size <= 4096,
        src@.len() == size * size,
        8 <= bit_depth <= 16,
        threshold_fits(threshold, bit_depth as int),
    ensures
        r == is_uniform(src@, size as int, threshold, bit_depth as int),
{
    let th: i64 = match threshold {
        None => {
            return false;
        },
        Some(th) => th,
    };
    let shift: u8 = 2 * (bit_depth - 8);
    proof {
        vstd::arithmetic::power2::lemma2_to64();
        vstd::bits::lemma_u64_pow2_no_overflow(shift as nat);
        vstd::bits::lemma_u64_shl_is_mul(1, shift as u64);
        if shift < 16 {
            vstd::arithmetic::power2::lemma_pow2_strictly_increases(shift as nat, 16);
        }
    }
    let scale: i64 = (1u64 << shift) as i64;
    let limit: i64 = th * scale;
    assert(0 < size * size <= 0x100_0000) by (nonlinear_arith)
        requires
            0 < size <= 4096,
    ;
    let n: usize = size * size;
    let mut sum: i64 = 0;
    for i in 0..n
        invariant
            n == src@.len(),
            n <= 0x100_0000,
            sum == sample_sum(src@.take(i as int)),
            sum <= 65535 * i,
    {
        assert(src@.take(i + 1).drop_last() =~= src@.take(i as int));
        sum = sum + src[i] as i64;
    }
    assert(src@.take(n as int) =~= src@);
    let mean: i64 = sum / n as i64;
    proof {
        assert(mean <= 65535) by (nonlinear_arith)
            requires
                mean == sum as int / n as int,
                0 <= sum <= 65535 * n,
                n > 0,
        ;
    }
    let mut spread: i64 = 0;
    for i in 0..n
        invariant
            n == src@.len(),
            n <= 0x100_0000,
            0 <= mean <= 65535,
            spread == spread_sum(src@.take(i as int), mean as int),
            0 <= spread <= 0x1_0000_0000 * i,
    {
        assert(src@.take(i + 1).drop_last() =~= src@.take(i as int));
        let d: i64 = src[i] as i64 - mean;
        assert(0 <= d * d <= 65535 * 65535) by (nonlinear_arith)
            requires
                -65535 <= d <= 65535,
        ;
        spread = spread + d * d;
    }
    assert(src@.take(n as int) =~= src@);
    let var: i64 = spread / n as i64;
    var < limit
}

/// The largest of some samples.
pub open spec fn sample_max(s: Seq<u16>) -> int
    decreases s.len(),
{
    if s.len() <= 1 {
        s[0] as int
    } else {
        crate::math::max_int(sample_max(s.drop_last()), s.last() as int)
    }
}

/// The smallest of some samples.
pub open spec fn sample_min(s: Seq<u16>) -> int
    decreases s.len(),
{
    if s.len() <= 1 {
        s[0] as int
    } else {
        crate::math::min_int(sample_min(s.drop_last()), s.last() as int)
    }
}

/// The difference between the largest and the smallest sample of a block.
pub fn sample_range(src: &[u16]) -> (r: u16)
    requires
        src@.len() > 0,
    ensures
        r == sample_max(src@) - sample_min(src@),
{
    let mut lo: u16 = src[0];
    let mut hi: u16 = src[0];
    let n: usize = src.len();
    let mut i: usize = 1;
    assert(src@.take(1)[0] == src@[0]);
    while i < n
        invariant
            1 <= i <= n,
            n == src@.len(),
            hi == sample_max(src@.take(i as int)),
            lo == sample_min(src@.take(i as int)),
            lo <= hi,
        decreases n - i,
    {
        assert(src@.take(i + 1).drop_last() =~= src@.take(i as int));
        if src[i] > hi {
            hi = src[i];
        }
        if src[i] < lo {
            lo = src[i];
        }
        i = i + 1;
    }
    assert(src@.take(n as int) =~= src@);
    hi - lo
}

} // verus!
