//! What holds of samples: blocks of the source, what a trial writes into its region, and
//! what its levels are estimated to cost.

use vstd::prelude::*;

use crate::block_eval::nonzeros;
use crate::cabac::bin_cost;
use crate::contexts::{
    COEFF_ABS_LEVEL_GREATER1_FLAG, COEFF_ABS_LEVEL_GREATER2_FLAG, SIG_COEFF_FLAG,
};
use crate::final_code::BlockTask;
use crate::geometry::side;
use crate::leaf_eval::{level_estimate, levels_estimate, residual_estimate, rice_counts};
use crate::source::SourcePicture;
use crate::trial_region::TrialReconRegion;
use crate::tu_search::written;

verus! {

/// A square of the source holds its samples row by row.
pub proof fn law_square_of_the_source(
    pic: &SourcePicture,
    c_idx: u8,
    x0: int,
    y0: int,
    size: int,
    dx: int,
    dy: int,
)
    requires
        0 <= dx < size,
        0 <= dy < size,
    ensures
        pic.square_of(c_idx, x0, y0, size).len() == size * size,
        pic.square_of(c_idx, x0, y0, size)[dy * size + dx] == pic.sample(c_idx, x0 + dx, y0 + dy),
{
    let k = dy * size + dx;
    assert(0 <= k < size * size) by (nonlinear_arith)
        requires
            0 <= dx < size,
            0 <= dy < size,
            k == dy * size + dx,
    ;
    vstd::arithmetic::div_mod::lemma_fundamental_div_mod_converse(k, size, dy, dx);
}

/// A block that is written into a region is read back row by row, in its own component, as
/// far as the region goes. Nothing else of the region changes.
pub proof fn law_written_block_is_read(
    before: TrialReconRegion,
    after: TrialReconRegion,
    t: BlockTask,
    samples: Seq<u16>,
    dx: int,
    dy: int,
    c: int,
    x: int,
    y: int,
)
    requires
        written(&before, &after, t, samples),
        0 <= dx < side(t.log2_size),
        0 <= dy < side(t.log2_size),
    ensures
        before.read(t.c_idx as int, t.x + dx, t.y + dy) is Some ==> after.read(
            t.c_idx as int,
            t.x + dx,
            t.y + dy,
        ) == Some(samples[dy * side(t.log2_size) + dx]),
        c != t.c_idx || x < t.x || x >= t.x + side(t.log2_size) || y < t.y || y >= t.y + side(
            t.log2_size,
        ) ==> after.read(c, x, y) == before.read(c, x, y),
        before.read(c, x, y) is None ==> after.read(c, x, y) is None,
{
    assert(after.read(t.c_idx as int, t.x + dx, t.y + dy) == after.read(
        t.c_idx as int,
        t.x + dx,
        t.y + dy,
    ));
    assert(after.read(c, x, y) == after.read(c, x, y));
}

/// A level's estimate is that of its flags, in the component's own contexts, of its sign,
/// and of what is left above two.
pub proof fn law_flags_of_a_level(states: Seq<int>, rice: u32)
    ensures
        level_estimate(states, 0, 1, rice) == bin_cost(
            states[COEFF_ABS_LEVEL_GREATER1_FLAG + 9],
            0,
        ) + 32768,
        level_estimate(states, 1, 1, rice) == bin_cost(
            states[COEFF_ABS_LEVEL_GREATER1_FLAG + 17],
            0,
        ) + 32768,
        level_estimate(states, 0, 2, rice) == bin_cost(
            states[COEFF_ABS_LEVEL_GREATER1_FLAG + 9],
            1,
        ) + bin_cost(states[COEFF_ABS_LEVEL_GREATER2_FLAG + 2], 0) + 32768,
        level_estimate(states, 1, 2, rice) == bin_cost(
            states[COEFF_ABS_LEVEL_GREATER1_FLAG + 17],
            1,
        ) + bin_cost(states[COEFF_ABS_LEVEL_GREATER2_FLAG + 4], 0) + 32768,
        level_estimate(states, 0, 3, 0) == bin_cost(
            states[COEFF_ABS_LEVEL_GREATER1_FLAG + 9],
            1,
        ) + bin_cost(states[COEFF_ABS_LEVEL_GREATER2_FLAG + 2], 1) + 32768,
        level_estimate(states, 1, rice as i16, rice) == level_estimate(
            states,
            2,
            rice as i16,
            rice,
        ),
{
    assert(0 * 32768 == 0);
}

/// A block without levels is estimated at nothing. One with levels pays a significance flag
/// that is set for each, and one that is not for a quarter of its places: a block of twice
/// the side pays for three times as many places more.
pub proof fn law_estimate_by_size<R>(
    states: Seq<int>,
    log2_size: u8,
    c_idx: u8,
    levels: Seq<i16>,
    rice_bins: R,
    bits: int,
) where R: Fn(u32) -> u32
    requires
        residual_estimate(states, log2_size, c_idx, levels, rice_bins, bits),
        2 <= log2_size <= 4,
        c_idx <= 2,
    ensures
        nonzeros(levels, levels.len()) == 0 ==> bits == 0,
        nonzeros(levels, levels.len()) > 0 ==> {
            let sig = SIG_COEFF_FLAG + if c_idx == 0 {
                0int
            } else {
                27
            };
            residual_estimate(
                states,
                (log2_size + 1) as u8,
                c_idx,
                levels,
                rice_bins,
                bits + 3 * (side(log2_size) * side(log2_size) / 4) * bin_cost(states[sig], 0),
            )
        },
{
    vstd::arithmetic::power2::lemma2_to64();
    assert(side(2) == 4 && side(3) == 8 && side(4) == 16 && side(5) == 32);
    assert(log2_size == 2 || log2_size == 3 || log2_size == 4);
    let sig = SIG_COEFF_FLAG + if c_idx == 0 {
        0int
    } else {
        27
    };
    let nnz = nonzeros(levels, levels.len());
    if nnz > 0 {
        let rice = choose|rice: Seq<u32>|
            {
                &&& #[trigger] rice_counts(rice)
                &&& rice.len() == levels.len()
                &&& forall|i: int|
                    0 <= i < levels.len() && crate::leaf_eval::level_abs(levels[i]) > 2
                        ==> call_ensures(
                        rice_bins,
                        ((crate::leaf_eval::level_abs(levels[i]) - 3) as u32,),
                        #[trigger] rice[i],
                    )
                &&& bits == nnz * bin_cost(states[sig], 1) + (side(log2_size) * side(log2_size)
                    / 4) * bin_cost(states[sig], 0) + levels_estimate(
                    states,
                    c_idx,
                    levels,
                    rice,
                    levels.len(),
                )
            };
        let q = side(log2_size) * side(log2_size) / 4;
        let b = bin_cost(states[sig], 0);
        assert(side((log2_size + 1) as u8) * side((log2_size + 1) as u8) / 4 == 4 * q);
        assert((4 * q) * b == q * b + 3 * q * b) by (nonlinear_arith);
        assert(rice_counts(rice));
    }
}

/// Every level counts once in an estimate.
pub proof fn law_level_estimates_add_up(
    states: Seq<int>,
    c_idx: u8,
    levels: Seq<i16>,
    rice: Seq<u32>,
    n: nat,
    i: int,
    v: i16,
)
    requires
        0 <= i < n <= levels.len(),
        rice.len() == levels.len(),
    ensures
        levels_estimate(states, c_idx, levels.update(i, v), rice, n) - levels_estimate(
            states,
            c_idx,
            levels,
            rice,
            n,
        ) == level_estimate(states, c_idx, v, rice[i]) - level_estimate(
            states,
            c_idx,
            levels[i],
            rice[i],
        ),
    decreases n,
{
    if i < n - 1 {
        law_level_estimates_add_up(states, c_idx, levels, rice, (n - 1) as nat, i, v);
    } else {
        lemma_same_estimate(states, c_idx, levels, levels.update(i, v), rice, (n - 1) as nat);
    }
}

proof fn lemma_same_estimate(
    states: Seq<int>,
    c_idx: u8,
    a: Seq<i16>,
    b: Seq<i16>,
    rice: Seq<u32>,
    n: nat,
)
    requires
        n <= a.len(),
        n <= b.len(),
        forall|i: int| 0 <= i < n ==> a[i] == b[i],
    ensures
        levels_estimate(states, c_idx, a, rice, n) == levels_estimate(states, c_idx, b, rice, n),
    decreases n,
{
    if n > 0 {
        lemma_same_estimate(states, c_idx, a, b, rice, (n - 1) as nat);
    }
}

} // verus!
