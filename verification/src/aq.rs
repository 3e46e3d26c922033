//! Adaptive quantisation: the QP of each quantisation group and how it is signalled.
//!
//! A quantisation group is coded with a target QP. The decoder predicts the QP from the
//! groups around it and adds a coded difference; [`AqState`] keeps the same prediction,
//! so that the difference always leads to the target.

use vstd::arithmetic::power2::{lemma2_to64, lemma_pow2_pos, lemma_pow2_unfold, pow2};
use vstd::prelude::*;

use crate::bins::BinOp;
use crate::bitstream::{be_bits, bits_value, lemma_be_bits_value};
use crate::contexts::CU_QP_DELTA_ABS;
use crate::geometry::{chroma_qp_from_luma, spec_chroma_qp};
use crate::math::{clip3, clip3_i32};

verus! {

/// QP offsets per 32x32 quantisation group, row by row.
pub struct QgOffsets {
    pub cells_x: u32,
    pub offsets: Vec<i8>,
}

impl QgOffsets {
    /// The offset of the group that holds a sample, 0 behind the end of the table.
    pub open spec fn at(&self, x: int, y: int) -> int {
        let i = (y / 32) * self.cells_x + x / 32;
        if i < self.offsets@.len() {
            self.offsets@[i] as int
        } else {
            0
        }
    }

    pub fn offset_at(&self, x: u32, y: u32) -> (o: i32)
        ensures
            o == self.at(x as int, y as int),
            -128 <= o <= 127,
    {
        proof {
            let (a, b) = ((y / 32) as int, self.cells_x as int);
            assert(0 <= a * b <= 0x800_0000 * 0x1_0000_0000) by (nonlinear_arith)
                requires
                    0 <= a <= 0x800_0000,
                    0 <= b <= 0x1_0000_0000,
            ;
        }
        let i: u64 = (y / 32) as u64 * self.cells_x as u64 + (x / 32) as u64;
        if i < self.offsets.len() as u64 {
            self.offsets[i as usize] as i32
        } else {
            0
        }
    }
}

/// Resolved luma QPs per 4x4 cell.
pub struct QpMap {
    pub stride: u32,
    pub qps: Vec<i8>,
}

impl QpMap {
    /// The QP noted for a sample, `other` behind the end of the map.
    pub open spec fn at(&self, x: int, y: int, other: int) -> int {
        let i = (y / 4) * self.stride + x / 4;
        if i < self.qps@.len() {
            self.qps@[i] as int
        } else {
            other
        }
    }

    pub fn qpy_at(&self, x: u32, y: u32, other: i32) -> (q: i32)
        ensures
            q == self.at(x as int, y as int, other as int),
            q == other || -128 <= q <= 127,
    {
        proof {
            let (a, b) = ((y / 4) as int, self.stride as int);
            assert(0 <= a * b <= 0x4000_0000 * 0x1_0000_0000) by (nonlinear_arith)
                requires
                    0 <= a <= 0x4000_0000,
                    0 <= b <= 0x1_0000_0000,
            ;
        }
        let i: u64 = (y / 4) as u64 * self.stride as u64 + (x / 4) as u64;
        if i < self.qps.len() as u64 {
            self.qps[i as usize] as i32
        } else {
            other
        }
    }
}

/// The remainder that goes with division towards zero.
pub open spec fn trunc_rem(a: int, m: int) -> int {
    if a >= 0 {
        a % m
    } else {
        -((-a) % m)
    }
}

/// The QP that a prediction and a difference resolve to, wrapped into the range that the
/// bit depth gives.
pub open spec fn resolved_qpy(pred: int, delta: int, off: int) -> int {
    trunc_rem(pred + delta + 52 + 2 * off, 52 + off) - off
}

/// The target QP of the group that holds a sample.
pub open spec fn qg_target(slice_qp: int, offsets: &QgOffsets, x: int, y: int) -> int {
    clip3(0, 51, slice_qp + offsets.at(x, y))
}

/// The luma and chroma QPs, with the bit depth offset, of the group that holds a sample.
pub open spec fn group_qps(
    slice_qp: int,
    bd_offset: int,
    offsets: &QgOffsets,
    cat: u8,
    x: int,
    y: int,
) -> (int, int) {
    let target = qg_target(slice_qp, offsets, x, y);
    (target + bd_offset, spec_chroma_qp(clip3(-bd_offset, 57, target), cat) + bd_offset)
}

/// The sample at the top left of a sample's quantisation group, along one axis.
pub open spec fn qg_origin(v: int) -> int {
    (v / 32) * 32
}

/// The origin of no group.
pub const NO_GROUP: i32 = -1;

/// Signalling state of adaptive quantisation, in QPs without the bit depth offset.
#[derive(Clone, Copy, Debug)]
pub struct AqState {
    pub active: bool,
    /// `6 * (bit_depth - 8)`.
    pub qp_bd_offset: i32,
    pub slice_qp_y: i32,
    /// The last QP resolved.
    pub current_qpy: i32,
    /// The last QP of the previous group.
    pub last_qpy_prev_qg: i32,
    /// The current group's origin, -1 before the first.
    pub qg_x: i32,
    pub qg_y: i32,
    /// Whether the group has carried its difference.
    pub coded: bool,
    pub cu_qp_delta: i32,
    /// The prediction for the coding unit being written.
    pub pred: i32,
    /// The target of the coding unit being written.
    pub cu_target: i32,
    /// The group that `target` was computed for, (-1, -1) for none.
    pub target_qg: (i32, i32),
    pub target: i32,
}

pub open spec fn small_qp(q: int) -> bool {
    -1000 <= q <= 1000
}

impl AqState {
    /// The QPs are of a size that occurs.
    pub open spec fn well_formed(&self) -> bool {
        &&& 0 <= self.qp_bd_offset <= 48
        &&& small_qp(self.slice_qp_y as int)
        &&& small_qp(self.current_qpy as int)
        &&& small_qp(self.last_qpy_prev_qg as int)
        &&& small_qp(self.pred as int)
        &&& small_qp(self.cu_target as int)
        &&& -2000 <= self.cu_qp_delta <= 2000
    }

    /// The remembered target is that of its group.
    pub open spec fn memo_ok(&self, offsets: &QgOffsets) -> bool {
        self.target_qg.0 >= 0 && self.target_qg.1 >= 0 ==> self.target == qg_target(
            self.slice_qp_y as int,
            offsets,
            self.target_qg.0 as int,
            self.target_qg.1 as int,
        )
    }

    /// The state of an encode without adaptive quantisation.
    pub fn inert() -> (s: Self)
        ensures
            s.well_formed(),
            s == (AqState {
                active: false,
                qp_bd_offset: 0,
                slice_qp_y: 0,
                current_qpy: 0,
                last_qpy_prev_qg: 0,
                qg_x: NO_GROUP,
                qg_y: NO_GROUP,
                coded: false,
                cu_qp_delta: 0,
                pred: 0,
                cu_target: 0,
                target_qg: (NO_GROUP, NO_GROUP),
                target: 0,
            }),
    {
        AqState {
            active: false,
            qp_bd_offset: 0,
            slice_qp_y: 0,
            current_qpy: 0,
            last_qpy_prev_qg: 0,
            qg_x: NO_GROUP,
            qg_y: NO_GROUP,
            coded: false,
            cu_qp_delta: 0,
            pred: 0,
            cu_target: 0,
            target_qg: (NO_GROUP, NO_GROUP),
            target: 0,
        }
    }

    /// Back to the start of a slice: the first group predicts from the slice QP.
    pub fn reset_for_slice(&mut self)
        ensures
            *final(self) == old(self).slice_started(),
    {
        self.current_qpy = self.slice_qp_y;
        self.last_qpy_prev_qg = self.slice_qp_y;
        self.qg_x = NO_GROUP;
        self.qg_y = NO_GROUP;
        self.coded = false;
        self.cu_qp_delta = 0;
    }

    /// The target QP of the group that holds a sample, from the memory where it is the
    /// same group as before.
    pub fn aq_qg_target(&mut self, offsets: &QgOffsets, x0: u32, y0: u32) -> (target: i32)
        requires
            old(self).well_formed(),
            old(self).memo_ok(offsets),
            x0 <= i32::MAX,
            y0 <= i32::MAX,
        ensures
            target == qg_target(old(self).slice_qp_y as int, offsets, x0 as int, y0 as int),
            final(self).memo_ok(offsets),
            *final(self) == (AqState {
                target,
                target_qg: (qg_origin(x0 as int) as i32, qg_origin(y0 as int) as i32),
                ..*old(self)
            }),
    {
        let qx: i32 = ((x0 / 32) * 32) as i32;
        let qy: i32 = ((y0 / 32) * 32) as i32;
        if qx != self.target_qg.0 || qy != self.target_qg.1 {
            let offset: i32 = offsets.offset_at(qx as u32, qy as u32);
            self.target = clip3_i32(0, 51, self.slice_qp_y + offset);
            self.target_qg = (qx, qy);
        }
        self.target
    }

    /// The luma and chroma QPs, with the bit depth offset, of the group that holds a
    /// sample.
    pub fn aq_set_cu_qp(&mut self, offsets: &QgOffsets, cat: u8, x0: u32, y0: u32) -> (qps: (
        i32,
        i32,
    ))
        requires
            old(self).well_formed(),
            old(self).memo_ok(offsets),
            x0 <= i32::MAX,
            y0 <= i32::MAX,
        ensures
            (qps.0 as int, qps.1 as int) == group_qps(
                old(self).slice_qp_y as int,
                old(self).qp_bd_offset as int,
                offsets,
                cat,
                x0 as int,
                y0 as int,
            ),
            final(self).memo_ok(offsets),
            *final(self) == (AqState {
                target: final(self).target,
                target_qg: final(self).target_qg,
                ..*old(self)
            }),
    {
        let target: i32 = self.aq_qg_target(offsets, x0, y0);
        let off: i32 = self.qp_bd_offset;
        let qpi_c: i32 = clip3_i32(-off, 57, target);
        (target + off, chroma_qp_from_luma(qpi_c, cat) + off)
    }

    /// The QP that a prediction and a difference resolve to.
    pub fn aq_resolve_qpy(&self, pred: i32, delta: i32) -> (q: i32)
        requires
            0 <= self.qp_bd_offset <= 48,
            small_qp(pred as int),
            -2000 <= delta <= 2000,
        ensures
            q == resolved_qpy(pred as int, delta as int, self.qp_bd_offset as int),
            -200 <= q <= 200,
    {
        let off: i32 = self.qp_bd_offset;
        let sum: i32 = pred + delta + 52 + 2 * off;
        let m: i32 = 52 + off;
        let r: i32 = if sum >= 0 {
            sum % m
        } else {
            -((-sum) % m)
        };
        r - off
    }

    /// A new quantisation group: no difference yet.
    pub fn aq_qg_reset(&mut self)
        ensures
            *final(self) == old(self).group_started(),
    {
        self.coded = false;
        self.cu_qp_delta = 0;
    }

    /// The last QP of the group before the one that holds a sample.
    pub open spec fn prev_qg_qpy(&self, x: int, y: int) -> int {
        if qg_origin(x) == self.qg_x && qg_origin(y) == self.qg_y {
            self.last_qpy_prev_qg as int
        } else {
            self.current_qpy as int
        }
    }

    /// What a neighbour outside the coding tree block counts as: the slice QP in the
    /// slice's first group, else the last QP of the previous group.
    pub open spec fn qpy_fallback(&self, x: int, y: int) -> int {
        if qg_origin(x) == 0 && qg_origin(y) == 0 {
            self.slice_qp_y as int
        } else {
            self.prev_qg_qpy(x, y)
        }
    }

    /// The prediction for the group that holds a sample: the rounded mean of the left and
    /// upper neighbours of the group.
    pub open spec fn qpy_prediction(&self, qp_map: &QpMap, x: int, y: int) -> int {
        let (gx, gy) = (qg_origin(x), qg_origin(y));
        let other = self.qpy_fallback(x, y);
        let left = if gx % 64 != 0 {
            qp_map.at(gx - 1, gy, self.slice_qp_y as int)
        } else {
            other
        };
        let above = if gy % 64 != 0 {
            qp_map.at(gx, gy - 1, self.slice_qp_y as int)
        } else {
            other
        };
        (left + above + 1) / 2
    }

    /// The state at the start of a coding unit.
    pub open spec fn begun(&self, offsets: &QgOffsets, qp_map: &QpMap, x: int, y: int) -> AqState {
        let pred = self.qpy_prediction(qp_map, x, y);
        let target = qg_target(self.slice_qp_y as int, offsets, x, y);
        AqState {
            last_qpy_prev_qg: self.prev_qg_qpy(x, y) as i32,
            qg_x: qg_origin(x) as i32,
            qg_y: qg_origin(y) as i32,
            pred: pred as i32,
            current_qpy: resolved_qpy(
                pred,
                self.cu_qp_delta as int,
                self.qp_bd_offset as int,
            ) as i32,
            cu_target: target as i32,
            target: target as i32,
            target_qg: (qg_origin(x) as i32, qg_origin(y) as i32),
            ..*self
        }
    }

    /// The state behind a coding unit's difference.
    pub open spec fn taken(&self) -> AqState {
        let delta = self.cu_target - self.pred;
        AqState {
            coded: true,
            cu_qp_delta: delta as i32,
            current_qpy: resolved_qpy(
                self.pred as int,
                delta,
                self.qp_bd_offset as int,
            ) as i32,
            ..*self
        }
    }

    /// The state at the start of a quantisation group.
    pub open spec fn group_started(&self) -> AqState {
        AqState { coded: false, cu_qp_delta: 0, ..*self }
    }

    /// The state at the start of a slice.
    pub open spec fn slice_started(&self) -> AqState {
        AqState {
            current_qpy: self.slice_qp_y,
            last_qpy_prev_qg: self.slice_qp_y,
            qg_x: NO_GROUP,
            qg_y: NO_GROUP,
            coded: false,
            cu_qp_delta: 0,
            ..*self
        }
    }

    /// The start of a coding unit: its prediction, its QP so far and its target.
    pub fn aq_cu_begin(&mut self, offsets: &QgOffsets, qp_map: &QpMap, cu_x: u32, cu_y: u32)
        requires
            old(self).well_formed(),
            old(self).memo_ok(offsets),
            cu_x <= i32::MAX,
            cu_y <= i32::MAX,
        ensures
            final(self).well_formed(),
            final(self).memo_ok(offsets),
            *final(self) == old(self).begun(offsets, qp_map, cu_x as int, cu_y as int),
            final(self).pred == old(self).qpy_prediction(qp_map, cu_x as int, cu_y as int),
    {
        let x_qg: i32 = ((cu_x / 32) * 32) as i32;
        let y_qg: i32 = ((cu_y / 32) * 32) as i32;
        if x_qg != self.qg_x || y_qg != self.qg_y {
            self.last_qpy_prev_qg = self.current_qpy;
            self.qg_x = x_qg;
            self.qg_y = y_qg;
        }
        let first_qg_in_slice: bool = x_qg == 0 && y_qg == 0;
        let pred0: i32 = if first_qg_in_slice {
            self.slice_qp_y
        } else {
            self.last_qpy_prev_qg
        };
        let ctb_x: u32 = cu_x / 64;
        let ctb_y: u32 = cu_y / 64;
        let qp_y_a: i32 = if x_qg > 0 && (x_qg as u32 - 1) / 64 == ctb_x {
            qp_map.qpy_at(x_qg as u32 - 1, y_qg as u32, self.slice_qp_y)
        } else {
            pred0
        };
        let qp_y_b: i32 = if y_qg > 0 && (y_qg as u32 - 1) / 64 == ctb_y {
            qp_map.qpy_at(x_qg as u32, y_qg as u32 - 1, self.slice_qp_y)
        } else {
            pred0
        };
        let sum: i32 = qp_y_a + qp_y_b + 1;
        assert(sum >> 1 == sum / 2) by (bit_vector);
        let pred: i32 = sum >> 1;
        self.pred = pred;
        self.current_qpy = self.aq_resolve_qpy(pred, self.cu_qp_delta);
        self.cu_target = self.aq_qg_target(offsets, cu_x, cu_y);
    }

    /// The difference to code with the coding unit's first coded block.
    pub fn aq_take_cu_qp_delta(&mut self) -> (delta: i32)
        requires
            old(self).well_formed(),
        ensures
            delta == old(self).cu_target - old(self).pred,
            final(self).well_formed(),
            *final(self) == old(self).taken(),
    {
        let delta: i32 = self.cu_target - self.pred;
        self.coded = true;
        self.cu_qp_delta = delta;
        self.current_qpy = self.aq_resolve_qpy(self.pred, delta);
        delta
    }
}

/// Whatever the prediction, the difference from it to a target leads to the target.
pub proof fn law_delta_leads_to_target(pred: int, target: int, off: int)
    requires
        off >= 0,
        -off <= target <= 51,
    ensures
        resolved_qpy(pred, target - pred, off) == target,
{
    let m = 52 + off;
    assert((target + off + m) % m == target + off) by (nonlinear_arith)
        requires
            0 <= target + off < m,
    ;
}

/// All samples of a quantisation group have one target.
pub proof fn law_one_target_per_group(
    slice_qp: int,
    offsets: &QgOffsets,
    x: int,
    y: int,
    u: int,
    v: int,
)
    requires
        qg_origin(x) == qg_origin(u),
        qg_origin(y) == qg_origin(v),
    ensures
        qg_target(slice_qp, offsets, x, y) == qg_target(slice_qp, offsets, u, v),
        0 <= qg_target(slice_qp, offsets, x, y) <= 51,
{
    assert(x / 32 == u / 32);
    assert(y / 32 == v / 32);
}

/// `n` one bits.
pub open spec fn one_bits(n: nat) -> Seq<bool> {
    Seq::new(n, |i: int| true)
}

/// The largest `m` with `2^m <= v`.
pub open spec fn floor_log2(v: nat) -> nat
    decreases v,
{
    if v <= 1 {
        0
    } else {
        floor_log2(v / 2) + 1
    }
}

pub proof fn lemma_floor_log2(v: nat, m: nat)
    requires
        pow2(m) <= v < pow2(m + 1),
    ensures
        floor_log2(v) == m,
    decreases v,
{
    lemma2_to64();
    lemma_pow2_unfold(m + 1);
    lemma_pow2_pos(m);
    if m == 0 {
        assert(v == 1);
    } else {
        lemma_pow2_unfold(m);
        lemma_floor_log2(v / 2, (m - 1) as nat);
        lemma_pow2_pos((m - 1) as nat);
    }
}

/// An order-0 Exp-Golomb code: `m` ones, a zero, and what `value + 1` exceeds `2^m` by
/// in `m` bits, where `m` is the logarithm of `value + 1`.
pub open spec fn eg0_bits(value: nat) -> Seq<bool> {
    let m = floor_log2(value + 1);
    one_bits(m) + seq![false] + be_bits(m, (value + 1 - pow2(m)) as nat)
}

/// The number of ones at the start of a bit string.
pub open spec fn leading_ones(bits: Seq<bool>) -> nat
    decreases bits.len(),
{
    if bits.len() == 0 || !bits[0] {
        0
    } else {
        1 + leading_ones(bits.drop_first())
    }
}

/// The number at the start of a bit string in order-0 Exp-Golomb code, and its length.
pub open spec fn decode_eg0(bits: Seq<bool>) -> (int, nat) {
    let m = leading_ones(bits);
    let suffix = bits.subrange(m as int + 1, 2 * m as int + 1);
    (pow2(m) - 1 + bits_value(suffix), 2 * m + 1)
}

proof fn lemma_leading_ones(m: nat, rest: Seq<bool>)
    requires
        rest.len() > 0,
        !rest[0],
    ensures
        leading_ones(one_bits(m) + rest) == m,
    decreases m,
{
    let s = one_bits(m) + rest;
    if m > 0 {
        assert(s.drop_first() =~= one_bits((m - 1) as nat) + rest);
        lemma_leading_ones((m - 1) as nat, rest);
    } else {
        assert(s =~= rest);
    }
}

proof fn lemma_floor_log2_bounds(v: nat)
    requires
        v >= 1,
    ensures
        pow2(floor_log2(v)) <= v < pow2(floor_log2(v) + 1),
    decreases v,
{
    lemma2_to64();
    let m = floor_log2(v);
    if v > 1 {
        lemma_floor_log2_bounds(v / 2);
        lemma_pow2_unfold(m);
        lemma_pow2_unfold(m + 1);
    }
}

/// An Exp-Golomb code decodes to its number, whatever follows.
pub proof fn law_eg0_decodes(value: nat, rest: Seq<bool>)
    ensures
        decode_eg0(eg0_bits(value) + rest) == (value as int, eg0_bits(value).len()),
{
    let m = floor_log2(value + 1);
    let suffix_value = (value + 1 - pow2(m)) as nat;
    let suffix = be_bits(m, suffix_value);
    let all = eg0_bits(value) + rest;
    lemma_floor_log2_bounds(value + 1);
    lemma_pow2_unfold(m + 1);
    lemma_be_bits_value(m, suffix_value);
    assert(all =~= one_bits(m) + (seq![false] + suffix + rest));
    lemma_leading_ones(m, seq![false] + suffix + rest);
    assert(all.subrange(m as int + 1, 2 * m as int + 1) =~= suffix);
}

/// Bypass bins.
pub open spec fn bypass_ops(bits: Seq<bool>) -> Seq<BinOp> {
    bits.map_values(|b: bool| BinOp::Bypass(b))
}

fn push_bypass_bits(out: &mut Vec<BinOp>, n: u32, value: u32)
    requires
        n <= 32,
    ensures
        final(out)@ == old(out)@ + bypass_ops(be_bits(n as nat, value as nat)),
    decreases n,
{
    if n > 0 {
        push_bypass_bits(out, n - 1, value / 2);
        out.push(BinOp::Bypass(value % 2 == 1));
    }
    assert(out@ =~= old(out)@ + bypass_ops(be_bits(n as nat, value as nat)));
}

/// Appends a number in order-0 Exp-Golomb code, as bypass bins.
pub fn encode_egk0_bypass(out: &mut Vec<BinOp>, value: u32)
    requires
        value < 0x7fff_ffff,
    ensures
        final(out)@ == old(out)@ + bypass_ops(eg0_bits(value as nat)),
{
    let ghost start = out@;
    let mut m: u32 = 0;
    let mut power: u32 = 1;
    proof {
        lemma2_to64();
        assert(start + bypass_ops(one_bits(0)) =~= start);
    }
    while power * 2 - 1 <= value
        invariant
            value < 0x7fff_ffff,
            m <= 30,
            power == pow2(m as nat),
            1 <= power <= 0x4000_0000,
            power <= value + 1,
            out@ == start + bypass_ops(one_bits(m as nat)),
        decreases value + 1 - power,
    {
        proof {
            lemma_pow2_unfold((m + 1) as nat);
            lemma2_to64();
            if m == 30 {
                assert(power == 0x4000_0000);
            }
        }
        out.push(BinOp::Bypass(true));
        m = m + 1;
        power = power * 2;
        assert(out@ =~= start + bypass_ops(one_bits(m as nat)));
    }
    proof {
        lemma_pow2_unfold((m + 1) as nat);
        lemma_floor_log2((value + 1) as nat, m as nat);
    }
    out.push(BinOp::Bypass(false));
    let ghost mid = out@;
    push_bypass_bits(out, m, value + 1 - power);
    proof {
        let suffix = be_bits(m as nat, (value + 1 - power) as nat);
        assert(out@ =~= start + bypass_ops(one_bits(m as nat) + seq![false] + suffix));
    }
}

/// The context-coded start of a QP difference: a unary number of at most five bins.
pub open spec fn delta_prefix_ops(abs: nat) -> Seq<BinOp> {
    if abs == 0 {
        seq![BinOp::Context(CU_QP_DELTA_ABS, false)]
    } else if abs < 5 {
        seq![BinOp::Context(CU_QP_DELTA_ABS, true)] + Seq::new(
            abs,
            |i: int| BinOp::Context((CU_QP_DELTA_ABS + 1) as usize, i < abs - 1),
        )
    } else {
        seq![BinOp::Context(CU_QP_DELTA_ABS, true)] + Seq::new(
            4,
            |i: int| BinOp::Context((CU_QP_DELTA_ABS + 1) as usize, true),
        )
    }
}

pub open spec fn abs_int(v: int) -> nat {
    if v < 0 {
        (-v) as nat
    } else {
        v as nat
    }
}

/// The bins of a QP difference: its magnitude, the part above five in Exp-Golomb code,
/// and its sign.
pub open spec fn qp_delta_ops(delta: int) -> Seq<BinOp> {
    let abs = abs_int(delta);
    delta_prefix_ops(abs) + (if abs >= 5 {
        bypass_ops(eg0_bits((abs - 5) as nat))
    } else {
        Seq::empty()
    }) + (if abs >= 1 {
        seq![BinOp::Bypass(delta < 0)]
    } else {
        Seq::empty()
    })
}

/// Appends the bins of a QP difference.
pub fn encode_cu_qp_delta(out: &mut Vec<BinOp>, delta: i32)
    ensures
        final(out)@ == old(out)@ + qp_delta_ops(delta as int),
{
    let ghost start = out@;
    let abs: u32 = if delta < 0 {
        (-(delta as i64)) as u32
    } else {
        delta as u32
    };
    let prefix: u32 = if abs < 5 {
        abs
    } else {
        5
    };
    out.push(BinOp::Context(CU_QP_DELTA_ABS, prefix >= 1));
    if prefix >= 1 {
        let ghost head = seq![BinOp::Context(CU_QP_DELTA_ABS, true)];
        let mut i: u32 = 1;
        assert(out@ =~= start + head + Seq::new(
            0,
            |k: int| BinOp::Context((CU_QP_DELTA_ABS + 1) as usize, true),
        ));
        while i < prefix
            invariant
                1 <= i <= prefix <= 5,
                out@ == start + head + Seq::new(
                    (i - 1) as nat,
                    |k: int| BinOp::Context((CU_QP_DELTA_ABS + 1) as usize, true),
                ),
            decreases prefix - i,
        {
            out.push(BinOp::Context(CU_QP_DELTA_ABS + 1, true));
            i = i + 1;
            assert(out@ =~= start + head + Seq::new(
                (i - 1) as nat,
                |k: int| BinOp::Context((CU_QP_DELTA_ABS + 1) as usize, true),
            ));
        }
        if prefix < 5 {
            out.push(BinOp::Context(CU_QP_DELTA_ABS + 1, false));
        }
    }
    assert(out@ =~= start + delta_prefix_ops(abs as nat));
    if abs >= 5 {
        encode_egk0_bypass(out, abs - 5);
    }
    if abs >= 1 {
        out.push(BinOp::Bypass(delta < 0));
    }
    assert(out@ =~= start + qp_delta_ops(delta as int));
}

/// The bins' values.
pub open spec fn op_values(ops: Seq<BinOp>) -> Seq<bool> {
    ops.map_values(|op: BinOp| op.coded().1)
}

/// The QP difference at the start of a sequence of bins.
pub open spec fn decode_qp_delta(bits: Seq<bool>) -> int {
    let ones = leading_ones(bits);
    if ones < 5 {
        if ones == 0 {
            0
        } else if bits[ones as int + 1] {
            -(ones as int)
        } else {
            ones as int
        }
    } else {
        let (more, len) = decode_eg0(bits.skip(5));
        if bits[5 + len as int] {
            -(5 + more)
        } else {
            5 + more
        }
    }
}

proof fn lemma_leading_ones_at_least(m: nat, rest: Seq<bool>)
    ensures
        leading_ones(one_bits(m) + rest) >= m,
    decreases m,
{
    let s = one_bits(m) + rest;
    if m > 0 {
        assert(s.drop_first() =~= one_bits((m - 1) as nat) + rest);
        lemma_leading_ones_at_least((m - 1) as nat, rest);
    }
}

/// A QP difference decodes to itself, whatever bins follow.
pub proof fn law_qp_delta_decodes(delta: int, rest: Seq<bool>)
    ensures
        decode_qp_delta(op_values(qp_delta_ops(delta)) + rest) == delta,
{
    let abs = abs_int(delta);
    let bits = op_values(qp_delta_ops(delta)) + rest;
    if abs == 0 {
        assert(!bits[0]);
    } else if abs < 5 {
        let tail = seq![false] + seq![delta < 0] + rest;
        assert(bits =~= one_bits(abs) + tail);
        lemma_leading_ones(abs, tail);
        assert(bits[abs as int + 1] == (delta < 0));
    } else {
        let code = eg0_bits((abs - 5) as nat);
        let tail = seq![delta < 0] + rest;
        assert(bits =~= one_bits(5) + code + tail);
        assert(bits =~= one_bits(5) + (code + tail));
        lemma_leading_ones_at_least(5, code + tail);
        assert(bits.skip(5) =~= code + tail);
        law_eg0_decodes((abs - 5) as nat, tail);
        assert(bits[5 + code.len() as int] == (delta < 0));
    }
}

} // verus!
