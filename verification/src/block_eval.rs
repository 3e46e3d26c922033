//! Evaluating a transform block: what stands around prediction, transform and
//! quantisation.
//!
//! The caller predicts, transforms, quantises and inverts; these functions form the
//! residual, decide which of those steps a block needs, and turn their results into a
//! reconstruction, its distortion and a coded block.

use vstd::prelude::*;

use crate::budget::BlockSearchBudget;
use crate::effort::ComponentKind;
use crate::final_code::BlockTask;
use crate::frame::{Frame, Plane};
use crate::geometry::{block_side, side};
use crate::math::{clip3, clip3_i32};
use crate::policy::{EvalPolicy, RdoqPolicy, ResidualBitPolicy};
use crate::region::{lemma_place, paste_rect, rect_pasted, Rect};
use crate::source::{block_in_plane, block_sse, square, SourcePicture};
use crate::stats::EncodeStats;
use crate::syntax::CodedBlock;

verus! {

/// The largest sample of a bit depth.
pub open spec fn max_sample(bit_depth: u8) -> int {
    side(bit_depth) - 1
}

/// A reconstructed sample: prediction and residual, moved into the sample range.
pub open spec fn recon_value(pred: u16, residual: int, bit_depth: u8) -> u16 {
    clip3(0, max_sample(bit_depth), pred + residual) as u16
}

/// The residual at a place of a reconstruction; none where nothing is coded.
pub open spec fn residual_at(recon: Option<Seq<i16>>, k: int) -> int {
    match recon {
        Some(r) => r[k] as int,
        None => 0,
    }
}

/// The difference of a source sample and its prediction.
pub open spec fn residual_of(
    pic: &SourcePicture,
    c_idx: u8,
    x: int,
    y: int,
    size: int,
    pred: Seq<u16>,
    k: int,
) -> int {
    pic.sample(c_idx, x + k % size, y + k / size) - pred[k]
}

/// A block lies in the coordinate range and is not larger than blocks are.
pub open spec fn block_ok(x: u32, y: u32, log2_size: u8) -> bool {
    &&& log2_size <= 14
    &&& x + side(log2_size) <= u32::MAX
    &&& y + side(log2_size) <= u32::MAX
}

/// A block as blocks are coded: of a component, 32x32 at most, in the coordinate range.
pub open spec fn task_ok(t: BlockTask) -> bool {
    &&& block_ok(t.x, t.y, t.log2_size)
    &&& t.log2_size <= 5
    &&& t.c_idx <= 2
}

/// How many samples a block has.
pub open spec fn task_area(t: BlockTask) -> int {
    side(t.log2_size) * side(t.log2_size)
}

proof fn lemma_block_area(log2_size: u8)
    requires
        log2_size <= 14,
    ensures
        0 < side(log2_size) <= 16384,
        0 < side(log2_size) * side(log2_size) <= 0x1000_0000,
{
    vstd::arithmetic::power2::lemma2_to64();
    vstd::arithmetic::power2::lemma_pow2_pos(log2_size as nat);
    if log2_size < 14 {
        vstd::arithmetic::power2::lemma_pow2_strictly_increases(log2_size as nat, 14);
    }
    let s = side(log2_size);
    assert(0 < s * s <= 0x1000_0000) by (nonlinear_arith)
        requires
            0 < s <= 16384,
    ;
}

/// Source minus prediction, row by row.
pub fn block_residual(
    pic: &SourcePicture,
    c_idx: u8,
    x: u32,
    y: u32,
    log2_size: u8,
    pred: &Vec<u16>,
) -> (residual: Vec<i16>)
    requires
        pic.bit_depth <= 16,
        block_ok(x, y, log2_size),
        pred@.len() == side(log2_size) * side(log2_size),
    ensures
        residual@.len() == pred@.len(),
        forall|k: int|
            0 <= k < pred@.len() ==> #[trigger] residual@[k] == residual_of(
                pic,
                c_idx,
                x as int,
                y as int,
                side(log2_size),
                pred@,
                k,
            ) as i16,
{
    let size: u32 = block_side(log2_size);
    proof {
        lemma_block_area(log2_size);
    }
    let area: u32 = size * size;
    let mut residual: Vec<i16> = Vec::new();
    let mut k: u32 = 0;
    while k < area
        invariant
            pic.bit_depth <= 16,
            0 < size <= 16384,
            size == side(log2_size),
            area == size * size,
            pred@.len() == area,
            x + size <= u32::MAX,
            y + size <= u32::MAX,
            k <= area,
            residual@.len() == k,
            forall|i: int|
                0 <= i < k ==> #[trigger] residual@[i] == residual_of(
                    pic,
                    c_idx,
                    x as int,
                    y as int,
                    side(log2_size),
                    pred@,
                    i,
                ) as i16,
        decreases area - k,
    {
        proof {
            lemma_row_in_block(k as int, size as int);
        }
        let s: i32 = pic.src_sample(c_idx, x + k % size, y + k / size) as i32;
        let p: i32 = pred[k as usize] as i32;
        residual.push((s - p) as i16);
        k = k + 1;
    }
    residual
}

proof fn lemma_row_in_block(k: int, size: int)
    requires
        0 <= k < size * size,
        size > 0,
    ensures
        0 <= k / size < size,
        0 <= k % size < size,
{
    vstd::arithmetic::div_mod::lemma_fundamental_div_mod(k, size);
    let q = k / size;
    assert(0 <= q < size) by (nonlinear_arith)
        requires
            k == size * q + k % size,
            0 <= k % size < size,
            0 <= k < size * size,
    ;
}

/// How a block's coefficients are quantised.
#[derive(Clone, Copy, Debug, PartialEq, Eq, Structural)]
pub enum Quantiser {
    /// One optimising scan.
    SingleScan,
    /// Plain; passes of refinement may follow.
    Plain,
}

/// The quantiser that a policy asks for.
pub open spec fn block_quantised(policy: EvalPolicy) -> Quantiser {
    if policy.rdoq == RdoqPolicy::FullSingleScan {
        Quantiser::SingleScan
    } else {
        Quantiser::Plain
    }
}

pub fn policy_quantiser(policy: EvalPolicy) -> (q: Quantiser)
    ensures
        q == block_quantised(policy),
{
    match policy.rdoq {
        RdoqPolicy::FullSingleScan => Quantiser::SingleScan,
        RdoqPolicy::Off => Quantiser::Plain,
    }
}

/// The quantiser of a block whose quantisation is optimised or not.
pub open spec fn quantiser_of(single_scan_rdoq: bool, do_rdoq: bool) -> Quantiser {
    if single_scan_rdoq && do_rdoq {
        Quantiser::SingleScan
    } else {
        Quantiser::Plain
    }
}

pub fn block_quantiser(single_scan_rdoq: bool, do_rdoq: bool) -> (q: Quantiser)
    ensures
        q == quantiser_of(single_scan_rdoq, do_rdoq),
{
    if single_scan_rdoq && do_rdoq {
        Quantiser::SingleScan
    } else {
        Quantiser::Plain
    }
}

/// How many passes refine levels that were quantised plainly.
pub fn refine_passes(
    budget: &BlockSearchBudget,
    do_rdoq: bool,
    log2_size: u8,
    c_idx: u8,
    nnz: u32,
) -> (n: u8)
    ensures
        n == if do_rdoq {
            budget.rdoq_pass_budget.spec_passes(log2_size, nnz)
        } else {
            0
        },
{
    if do_rdoq {
        budget.rdoq_passes(log2_size, ComponentKind::from_c_idx(c_idx), nnz)
    } else {
        0
    }
}

/// Whether a block uses the sine transform: 4x4 luma alone.
pub fn is_dst(log2_size: u8, c_idx: u8) -> (r: bool)
    ensures
        r == (log2_size == 2 && c_idx == 0),
{
    log2_size == 2 && c_idx == 0
}

/// The number of levels that are not zero among the first `n`.
pub open spec fn nonzeros(levels: Seq<i16>, n: nat) -> nat
    decreases n,
{
    if n == 0 {
        0
    } else {
        nonzeros(levels, (n - 1) as nat) + if levels[n - 1] != 0 {
            1nat
        } else {
            0
        }
    }
}

/// Where no level is counted, every level is zero.
pub proof fn lemma_none_counted(levels: Seq<i16>, n: nat)
    requires
        n <= levels.len(),
        nonzeros(levels, n) == 0,
    ensures
        forall|i: int| 0 <= i < n ==> #[trigger] levels[i] == 0,
    decreases n,
{
    if n > 0 {
        lemma_none_counted(levels, (n - 1) as nat);
    }
}

pub fn count_nonzero(levels: &[i16]) -> (nnz: u32)
    requires
        levels@.len() <= u32::MAX,
    ensures
        nnz == nonzeros(levels@, levels@.len()),
        nnz <= levels@.len(),
{
    let n: usize = levels.len();
    let mut nnz: u32 = 0;
    for i in 0..n
        invariant
            n == levels@.len(),
            n <= u32::MAX,
            nnz == nonzeros(levels@, i as nat),
            nnz <= i,
    {
        if levels[i] != 0 {
            nnz = nnz + 1;
        }
    }
    nnz
}

/// How a block's residual is priced.
#[derive(Clone, Copy, Debug, PartialEq, Eq, Structural)]
pub enum Pricing {
    /// Nothing is coded, so nothing is paid.
    Free,
    Approx,
    Exact,
}

/// The pricing of levels under a policy.
pub open spec fn pricing_of(levels: Seq<i16>, policy: EvalPolicy) -> Pricing {
    if forall|i: int| 0 <= i < levels.len() ==> #[trigger] levels[i] == 0 {
        Pricing::Free
    } else if policy.bits == ResidualBitPolicy::Approx {
        Pricing::Approx
    } else {
        Pricing::Exact
    }
}

pub fn residual_pricing(levels: &Vec<i16>, policy: EvalPolicy) -> (p: Pricing)
    ensures
        p == pricing_of(levels@, policy),
{
    let n: usize = levels.len();
    for i in 0..n
        invariant
            n == levels@.len(),
            forall|k: int| 0 <= k < i ==> #[trigger] levels@[k] == 0,
    {
        if levels[i] != 0 {
            assert(levels@[i as int] != 0);
            return match policy.bits {
                ResidualBitPolicy::Approx => Pricing::Approx,
                ResidualBitPolicy::Exact => Pricing::Exact,
            };
        }
    }
    Pricing::Free
}

/// The reconstruction of a block.
pub open spec fn recon_block(pred: Seq<u16>, recon: Option<Seq<i16>>, bit_depth: u8) -> Seq<u16> {
    Seq::new(pred.len(), |k: int| recon_value(pred[k], residual_at(recon, k), bit_depth))
}

/// The view of a residual that may be there.
pub open spec fn opt_view(r: Option<Vec<i16>>) -> Option<Seq<i16>> {
    match r {
        Some(v) => Some(v@),
        None => None,
    }
}

/// Prediction and residual, moved into the sample range.
pub fn reconstruct(pred: &Vec<u16>, recon: &Option<Vec<i16>>, bit_depth: u8) -> (samples: Vec<u16>)
    requires
        bit_depth <= 16,
        recon is Some ==> recon.unwrap()@.len() == pred@.len(),
    ensures
        samples@ == recon_block(pred@, opt_view(*recon), bit_depth),
{
    proof {
        lemma_depth(bit_depth);
    }
    let max_val: i32 = block_side(bit_depth) as i32 - 1;
    let n: usize = pred.len();
    let mut samples: Vec<u16> = Vec::new();
    for k in 0..n
        invariant
            n == pred@.len(),
            max_val == max_sample(bit_depth),
            0 <= max_val <= 65535,
            recon is Some ==> recon.unwrap()@.len() == n,
            samples@.len() == k,
            forall|i: int|
                0 <= i < k ==> #[trigger] samples@[i] == recon_value(
                    pred@[i],
                    residual_at(opt_view(*recon), i),
                    bit_depth,
                ),
    {
        let r: i32 = match recon {
            Some(v) => v[k] as i32,
            None => 0,
        };
        samples.push(clip3_i32(0, max_val, pred[k] as i32 + r) as u16);
    }
    assert(samples@ =~= recon_block(pred@, opt_view(*recon), bit_depth));
    samples
}

proof fn lemma_depth(bit_depth: u8)
    requires
        bit_depth <= 16,
    ensures
        0 <= max_sample(bit_depth) <= 65535,
{
    vstd::arithmetic::power2::lemma2_to64();
    vstd::arithmetic::power2::lemma_pow2_pos(bit_depth as nat);
    if bit_depth < 16 {
        vstd::arithmetic::power2::lemma_pow2_strictly_increases(bit_depth as nat, 16);
    }
}

/// The squared error of the first `k` samples of a block, from its buffers.
pub open spec fn eval_sse(pred: Seq<u16>, residual: Seq<i16>, recon: Seq<u16>, k: nat) -> nat
    decreases k,
{
    if k == 0 {
        0
    } else {
        let i = k - 1;
        eval_sse(pred, residual, recon, (k - 1) as nat) + square(pred[i] + residual[i] - recon[i])
    }
}

/// The squared error of a block, from its buffers: the source is what prediction and
/// residual add up to.
pub fn scratch_distortion(pred: &Vec<u16>, residual: &Vec<i16>, recon: &Vec<u16>) -> (sse: u64)
    requires
        pred@.len() <= 0x1000_0000,
        residual@.len() == pred@.len(),
        recon@.len() == pred@.len(),
    ensures
        sse == eval_sse(pred@, residual@, recon@, pred@.len()),
        sse <= pred@.len() * 0x8_0000_0000,
{
    let n: usize = pred.len();
    let mut sse: u64 = 0;
    for k in 0..n
        invariant
            n == pred@.len(),
            n <= 0x1000_0000,
            residual@.len() == n,
            recon@.len() == n,
            sse == eval_sse(pred@, residual@, recon@, k as nat),
            sse <= k * 0x8_0000_0000,
    {
        let d: i64 = pred[k] as i64 + residual[k] as i64 - recon[k] as i64;
        assert(0 <= d * d <= 0x8_0000_0000) by (nonlinear_arith)
            requires
                -98303 <= d <= 98303,
        ;
        sse = sse + (d * d) as u64;
    }
    sse
}

/// The square that a block covers.
pub open spec fn block_rect(x: u32, y: u32, log2_size: u8) -> Rect {
    Rect {
        x: x as usize,
        y: y as usize,
        width: side(log2_size) as usize,
        height: side(log2_size) as usize,
    }
}

/// Writes a block's samples into the frame.
pub fn commit_block(
    frame: &mut Frame,
    c_idx: u8,
    x: u32,
    y: u32,
    log2_size: u8,
    samples: &Vec<u16>,
)
    requires
        old(frame).well_formed(),
        block_ok(x, y, log2_size),
        block_in_plane(old(frame), c_idx, x as int, y as int, log2_size),
        samples@.len() == side(log2_size) * side(log2_size),
    ensures
        final(frame).well_formed(),
        final(frame).same_shape(old(frame)),
        final(frame).planes@[c_idx as int].data@ == rect_pasted(
            old(frame).planes@[c_idx as int].data@,
            old(frame).planes@[c_idx as int].stride as int,
            block_rect(x, y, log2_size),
            samples@,
        ),
        forall|c: int|
            0 <= c < 3 && c != c_idx ==> #[trigger] final(frame).planes@[c] == old(
                frame,
            ).planes@[c],
{
    let size: usize = block_side(log2_size) as usize;
    let rect = Rect { x: x as usize, y: y as usize, width: size, height: size };
    let c: usize = c_idx as usize;
    let ghost before = *frame;
    proof {
        lemma_block_area(log2_size);
        lemma_block_fits(&before.planes@[c as int], x, y, log2_size);
    }
    let stride: usize = frame.planes[c].stride;
    let plane = &mut frame.planes[c];
    paste_rect(&mut plane.data, stride, rect, samples);
    proof {
        assert forall|k: int| 0 <= k < 3 implies (#[trigger] frame.planes@[k]).well_formed() by {
            assert(before.planes@[k].well_formed());
        }
    }
}

proof fn lemma_block_fits(plane: &Plane, x: u32, y: u32, log2_size: u8)
    requires
        plane.well_formed(),
        x + side(log2_size) <= plane.width,
        y + side(log2_size) <= plane.height,
        0 <= side(log2_size) <= 16384,
    ensures
        block_rect(x, y, log2_size).fits(plane.stride as int, plane.data@.len() as int),
{
    plane.lemma_rows();
    let (b, h, st) = (y + side(log2_size), plane.height as int, plane.stride as int);
    assert(b * st <= h * st) by (nonlinear_arith)
        requires
            b <= h,
            st >= 0,
    ;
}

/// What the evaluation of a block gives.
pub struct LeafEval {
    pub distortion: u64,
    pub frac_bits: u64,
    pub coded: CodedBlock,
}

/// Puts the results of a block's evaluation together. `recon` is the inverse transform of
/// the levels, and is there exactly where some level is not zero. The samples go to the
/// caller for a policy that commits them.
pub fn finish_eval(
    policy: EvalPolicy,
    pred: &Vec<u16>,
    residual: &Vec<i16>,
    levels: Vec<i16>,
    nnz: u32,
    recon: &Option<Vec<i16>>,
    frac_bits: u64,
    bit_depth: u8,
) -> (r: (LeafEval, Vec<u16>))
    requires
        bit_depth <= 16,
        pred@.len() <= 0x1000_0000,
        residual@.len() == pred@.len(),
        recon is Some == (nnz > 0),
        recon is Some ==> recon.unwrap()@.len() == pred@.len(),
    ensures
        ({
            let (e, samples) = r;
            &&& samples@ == recon_block(pred@, opt_view(*recon), bit_depth)
            &&& e.distortion == eval_sse(pred@, residual@, samples@, pred@.len())
            &&& e.distortion <= pred@.len() * 0x8_0000_0000
            &&& e.frac_bits == frac_bits
            &&& e.coded.frac_bits == frac_bits
            &&& e.coded.cbf == (nnz > 0)
            &&& e.coded.levels@ == if policy.commit || (policy.rdoq == RdoqPolicy::Off
                && policy.bits == ResidualBitPolicy::Exact) {
                levels@
            } else {
                Seq::empty()
            }
        }),
{
    let samples = reconstruct(pred, recon, bit_depth);
    let distortion: u64 = scratch_distortion(pred, residual, &samples);
    let kept: Vec<i16> = if policy.keeps_levels() {
        levels
    } else {
        Vec::new()
    };
    let coded = CodedBlock { levels: kept, cbf: nnz > 0, frac_bits };
    (LeafEval { distortion, frac_bits, coded }, samples)
}

/// The work of coding a block: its transforms, and an estimate of its bits where they are
/// exact.
pub open spec fn eval_work(cbf: bool, pricing: Pricing) -> EncodeStats {
    EncodeStats {
        forward_transforms: 1,
        inverse_transforms: if cbf {
            1
        } else {
            0
        },
        residual_bit_estimates: if pricing == Pricing::Exact {
            1
        } else {
            0
        },
        ..EncodeStats::none()
    }
}

/// Counts the work of coding a block.
pub fn count_block(cbf: bool, pricing: Pricing) -> (work: EncodeStats)
    ensures
        work == eval_work(cbf, pricing),
{
    let mut work = EncodeStats::default();
    work.forward_transforms = 1;
    if cbf {
        work.inverse_transforms = 1;
    }
    if let Pricing::Exact = pricing {
        work.residual_bit_estimates = 1;
    }
    work
}

/// The samples of a block after it was committed.
proof fn lemma_committed_sample(
    before: &Plane,
    after: &Plane,
    x: u32,
    y: u32,
    log2_size: u8,
    samples: Seq<u16>,
    i: int,
)
    requires
        before.well_formed(),
        log2_size <= 14,
        x + side(log2_size) <= before.width,
        y + side(log2_size) <= before.height,
        samples.len() == side(log2_size) * side(log2_size),
        after.stride == before.stride,
        after.data@ == rect_pasted(
            before.data@,
            before.stride as int,
            block_rect(x, y, log2_size),
            samples,
        ),
        0 <= i < samples.len(),
    ensures
        after.sample(x + i % side(log2_size), y + i / side(log2_size)) == samples[i],
{
    let s = side(log2_size);
    lemma_block_area(log2_size);
    lemma_block_fits(before, x, y, log2_size);
    lemma_row_in_block(i, s);
    let rect = block_rect(x, y, log2_size);
    let (r, c) = (i / s, i % s);
    let (st, len) = (before.stride as int, before.data@.len() as int);
    lemma_place(rect, st, len, r, c);
    vstd::arithmetic::div_mod::lemma_fundamental_div_mod(i, s);
    assert(r * s + c == i) by (nonlinear_arith)
        requires
            i == s * r + c,
    ;
    assert(rect.place(st, r, c) == (y + r) * st + (x + c));
}

/// The distortion from a block's buffers is what the frame shows once the block is
/// committed, so that trials can stay out of the frame.
pub proof fn law_trial_distortion_is_committed(
    pic: &SourcePicture,
    before: &Plane,
    after: &Plane,
    c_idx: u8,
    x: u32,
    y: u32,
    log2_size: u8,
    pred: Seq<u16>,
    residual: Seq<i16>,
    samples: Seq<u16>,
    k: nat,
)
    requires
        before.well_formed(),
        log2_size <= 14,
        x + side(log2_size) <= before.width,
        y + side(log2_size) <= before.height,
        pred.len() == side(log2_size) * side(log2_size),
        residual.len() == pred.len(),
        samples.len() == pred.len(),
        k <= pred.len(),
        forall|i: int|
            0 <= i < pred.len() ==> #[trigger] residual[i] == residual_of(
                pic,
                c_idx,
                x as int,
                y as int,
                side(log2_size),
                pred,
                i,
            ),
        after.stride == before.stride,
        after.data@ == rect_pasted(
            before.data@,
            before.stride as int,
            block_rect(x, y, log2_size),
            samples,
        ),
    ensures
        block_sse(pic, after, c_idx, x as int, y as int, side(log2_size), k) == eval_sse(
            pred,
            residual,
            samples,
            k,
        ),
    decreases k,
{
    if k > 0 {
        let i = k - 1;
        law_trial_distortion_is_committed(
            pic,
            before,
            after,
            c_idx,
            x,
            y,
            log2_size,
            pred,
            residual,
            samples,
            (k - 1) as nat,
        );
        lemma_committed_sample(before, after, x, y, log2_size, samples, i);
        assert(residual[i] == residual_of(
            pic,
            c_idx,
            x as int,
            y as int,
            side(log2_size),
            pred,
            i,
        ));
    }
}

} // verus!
