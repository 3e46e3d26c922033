//! Context-adaptive binary arithmetic coding.
//!
//! [`ContextModel`] is the adaptive probability state of one syntax element bin,
//! [`CabacEstimator`] prices bins in fractional bits, and [`CabacEncoder`] turns
//! them into a bit string. The tables are those of H.265 Tables 9-43 and 9-46.

use vstd::arithmetic::power2::{
    lemma2_to64, lemma_pow2_adds, lemma_pow2_pos, lemma_pow2_strictly_increases, pow2,
};
use vstd::bits::{lemma_u32_shl_is_mul, lemma_u32_shr_is_div};
use vstd::prelude::*;

use crate::arith_code::{
    code_bin, code_bypass, code_bypass_bins, code_terminate, lemma_code_bypass_append,
    lemma_code_bypass_bins, lemma_lps_range, lemma_renorm_shift, lps_range, CodeInterval,
};
use crate::bitstream::{
    be_bits, bits_value, lemma_be_bits_value, lemma_be_bits_split, lemma_bits_value_append,
    BitWriter,
};
use crate::math::{clip3, clip3_i32};

verus! {

/// LPS sub-range by probability state and quantised range.
pub const LPS_TABLE: [[u8; 4]; 64] = [
    [128, 176, 208, 240],
    [128, 167, 197, 227],
    [128, 158, 187, 216],
    [123, 150, 178, 205],
    [116, 142, 169, 195],
    [111, 135, 160, 185],
    [105, 128, 152, 175],
    [100, 122, 144, 166],
    [95, 116, 137, 158],
    [90, 110, 130, 150],
    [85, 104, 123, 142],
    [81, 99, 117, 135],
    [77, 94, 111, 128],
    [73, 89, 105, 122],
    [69, 85, 100, 116],
    [66, 80, 95, 110],
    [62, 76, 90, 104],
    [59, 72, 86, 99],
    [56, 69, 81, 94],
    [53, 65, 77, 89],
    [51, 62, 73, 85],
    [48, 59, 69, 80],
    [46, 56, 66, 76],
    [43, 53, 63, 72],
    [41, 50, 59, 69],
    [39, 48, 56, 65],
    [37, 45, 54, 62],
    [35, 43, 51, 59],
    [33, 41, 48, 56],
    [32, 39, 46, 53],
    [30, 37, 43, 50],
    [29, 35, 41, 48],
    [27, 33, 39, 45],
    [26, 31, 37, 43],
    [24, 30, 35, 41],
    [23, 28, 33, 39],
    [22, 27, 32, 37],
    [21, 26, 30, 35],
    [20, 24, 29, 33],
    [19, 23, 27, 31],
    [18, 22, 26, 30],
    [17, 21, 25, 28],
    [16, 20, 23, 27],
    [15, 19, 22, 25],
    [14, 18, 21, 24],
    [14, 17, 20, 23],
    [13, 16, 19, 22],
    [12, 15, 18, 21],
    [12, 14, 17, 20],
    [11, 14, 16, 19],
    [11, 13, 15, 18],
    [10, 12, 15, 17],
    [10, 12, 14, 16],
    [9, 11, 13, 15],
    [9, 11, 12, 14],
    [8, 10, 12, 14],
    [8, 9, 11, 13],
    [7, 9, 11, 12],
    [7, 9, 10, 12],
    [7, 8, 10, 11],
    [6, 8, 9, 11],
    [6, 7, 9, 10],
    [6, 7, 8, 9],
    [2, 2, 2, 2],
];

/// State after a most probable symbol.
pub const STATE_TRANS_MPS: [u8; 64] = [
    1, 2, 3, 4, 5, 6, 7, 8, 9, 10, 11, 12, 13, 14, 15, 16, 17, 18, 19, 20, 21, 22, 23, 24, 25, 26,
    27, 28, 29, 30, 31, 32, 33, 34, 35, 36, 37, 38, 39, 40, 41, 42, 43, 44, 45, 46, 47, 48, 49, 50,
    51, 52, 53, 54, 55, 56, 57, 58, 59, 60, 61, 62, 62, 63,
];

/// State after a least probable symbol.
pub const STATE_TRANS_LPS: [u8; 64] = [
    0, 0, 1, 2, 2, 4, 4, 5, 6, 7, 8, 9, 9, 11, 11, 12, 13, 13, 15, 15, 16, 16, 18, 18, 19, 19, 21,
    21, 22, 22, 23, 24, 24, 25, 26, 26, 27, 27, 28, 29, 29, 30, 30, 30, 31, 32, 32, 33, 33, 33, 34,
    34, 35, 35, 35, 36, 36, 36, 37, 37, 37, 38, 38, 63,
];

/// Cost of a bin in 1/32768 bit: twice the state for the most probable symbol,
/// one more for the least probable one.
pub const ENTROPY_BITS: [u32; 128] = [
    0x07b23, 0x085f9, 0x074a0, 0x08cbc, 0x06ee4, 0x09354, 0x067f4, 0x09c1b, 0x060b0, 0x0a62a,
    0x05a9c, 0x0af5b, 0x0548d, 0x0b955, 0x04f56, 0x0c2a9, 0x04a87, 0x0cbf7, 0x045d6, 0x0d5c3,
    0x04144, 0x0e01b, 0x03d88, 0x0e937, 0x039e0, 0x0f2cd, 0x03663, 0x0fc9e, 0x03347, 0x10600,
    0x03050, 0x10f95, 0x02d4d, 0x11a02, 0x02ad3, 0x12333, 0x0286e, 0x12cad, 0x02604, 0x136df,
    0x02425, 0x13f48, 0x021f4, 0x149c4, 0x0203e, 0x1527b, 0x01e4d, 0x15d00, 0x01c99, 0x166de,
    0x01b18, 0x17017, 0x019a5, 0x17988, 0x01841, 0x18327, 0x016df, 0x18d50, 0x015d9, 0x19547,
    0x0147c, 0x1a083, 0x0138e, 0x1a8a3, 0x01251, 0x1b418, 0x01166, 0x1bd27, 0x01068, 0x1c77b,
    0x00f7f, 0x1d18e, 0x00eda, 0x1d91a, 0x00e19, 0x1e254, 0x00d4f, 0x1ec9a, 0x00c90, 0x1f6e0,
    0x00c01, 0x1fef8, 0x00b5f, 0x208b1, 0x00ab6, 0x21362, 0x00a15, 0x21e46, 0x00988, 0x2285d,
    0x00934, 0x22ea8, 0x008a8, 0x239b2, 0x0081d, 0x24577, 0x007c9, 0x24ce6, 0x00763, 0x25663,
    0x00710, 0x25e8f, 0x006a0, 0x26a26, 0x00672, 0x26f23, 0x005e8, 0x27ef8, 0x005ba, 0x284b5,
    0x0055e, 0x29057, 0x0050c, 0x29bab, 0x004c1, 0x2a674, 0x004a7, 0x2aa5e, 0x0046f, 0x2b32f,
    0x0041f, 0x2c0ad, 0x003e7, 0x2ca8d, 0x003ba, 0x2d323, 0x0010c, 0x3bfbb,
];

/// The adaptive state of one context: a probability state and the most probable
/// symbol, packed as `2 * state + mps`.
#[derive(Clone, Copy, Debug, PartialEq, Eq, Structural)]
pub struct ContextModel {
    state_mps: u8,
}

/// A context's initial state on the scale 1 to 126, from its initialisation value
/// and the slice QP.
pub open spec fn pre_ctx_state(init_value: int, slice_qp: int) -> int {
    let m = (init_value / 16) * 5 - 45;
    let n = (init_value % 16) * 8 - 16;
    clip3(1, 126, (m * clip3(0, 51, slice_qp)) / 16 + n)
}

/// The packed state after coding `bin`.
pub open spec fn next_state_mps(state_mps: int, bin: int) -> int {
    let state = state_mps / 2;
    let mps = state_mps % 2;
    if bin == mps {
        2 * STATE_TRANS_MPS[state] + mps
    } else if state == 0 {
        2 * STATE_TRANS_LPS[state] + (1 - mps)
    } else {
        2 * STATE_TRANS_LPS[state] + mps
    }
}

/// The cost of `bin` in a context, in 1/32768 bit.
pub open spec fn bin_cost(state_mps: int, bin: int) -> int {
    let state = state_mps / 2;
    if bin == state_mps % 2 {
        ENTROPY_BITS[2 * state] as int
    } else {
        ENTROPY_BITS[2 * state + 1] as int
    }
}

/// Coding a bin leaves a context in one of the adaptive states.
pub proof fn lemma_next_state_range(state_mps: int, bin: int)
    requires
        0 <= state_mps < 126,
        0 <= bin <= 1,
    ensures
        0 <= next_state_mps(state_mps, bin) < 126,
{
    let state = state_mps / 2;
    assert(0 <= state <= 62);
    assert(STATE_TRANS_MPS[state] <= 62);
    assert(STATE_TRANS_LPS[state] <= 62);
}

/// A more skewed state has a cheaper most probable symbol.
#[verifier::spinoff_prover]
proof fn lemma_mps_cheaper(state: int)
    requires
        0 <= state < 62,
    ensures
        ENTROPY_BITS[2 * state + 2] < ENTROPY_BITS[2 * state],
{
}

/// A more skewed state has a dearer least probable symbol.
#[verifier::spinoff_prover]
proof fn lemma_lps_dearer(state: int)
    requires
        0 <= state < 62,
    ensures
        ENTROPY_BITS[2 * state + 1] < ENTROPY_BITS[2 * state + 3],
{
}

proof fn lemma_lps_order(less: int, more: int)
    requires
        0 <= less < more <= 62,
    ensures
        ENTROPY_BITS[2 * less + 1] < ENTROPY_BITS[2 * more + 1],
    decreases more - less,
{
    lemma_lps_dearer(more - 1);
    assert(2 * (more - 1) + 3 == 2 * more + 1);
    assert(2 * (more - 1) + 1 == 2 * more - 1);
    if less < more - 1 {
        lemma_lps_order(less, more - 1);
    }
}

/// The tables move a state one up behind a most probable symbol, as far as they go, and
/// down behind a least probable one.
#[verifier::spinoff_prover]
proof fn lemma_transitions(state: int)
    requires
        0 <= state <= 62,
    ensures
        STATE_TRANS_MPS[state] == if state < 62 {
            state + 1
        } else {
            62
        },
        state > 0 ==> STATE_TRANS_LPS[state] < state,
        state == 0 ==> STATE_TRANS_LPS[state] == 0,
{
}

#[verifier::spinoff_prover]
proof fn lemma_even_odds()
    ensures
        ENTROPY_BITS[0] < ENTROPY_BITS[1],
{
}

/// Coding a bin never makes the same bin dearer, and makes it cheaper unless it is the most
/// probable symbol of the most skewed state.
pub proof fn law_coding_cheapens(state_mps: int, bin: int)
    requires
        0 <= state_mps < 126,
        0 <= bin <= 1,
    ensures
        0 <= next_state_mps(state_mps, bin) < 126,
        bin_cost(next_state_mps(state_mps, bin), bin) <= bin_cost(state_mps, bin),
        bin_cost(next_state_mps(state_mps, bin), bin) == bin_cost(state_mps, bin) <==> (bin
            == state_mps % 2 && state_mps / 2 == 62),
{
    let state = state_mps / 2;
    let mps = state_mps % 2;
    let next = next_state_mps(state_mps, bin);
    lemma_transitions(state);
    lemma_next_state_range(state_mps, bin);
    if bin == mps {
        assert(next % 2 == mps);
        if state < 62 {
            assert(next / 2 == state + 1);
            lemma_mps_cheaper(state);
            assert(2 * (state + 1) == 2 * state + 2);
        } else {
            assert(next / 2 == 62);
        }
    } else if state == 0 {
        assert(next / 2 == 0 && next % 2 == bin);
        lemma_even_odds();
    } else {
        let down = STATE_TRANS_LPS[state] as int;
        assert(next / 2 == down && next % 2 == mps);
        lemma_lps_order(down, state);
    }
}

proof fn lemma_costs_from(state: int)
    requires
        0 <= state < 63,
    ensures
        ENTROPY_BITS[2 * state] <= ENTROPY_BITS[0],
        ENTROPY_BITS[1] <= ENTROPY_BITS[2 * state + 1],
    decreases state,
{
    if state > 0 {
        lemma_costs_from(state - 1);
        lemma_mps_cheaper(state - 1);
        lemma_lps_order(state - 1, state);
    }
}

/// In every state the most probable symbol costs less than one bit, but something, and the
/// other symbol more than one bit.
pub proof fn law_sides_of_one_bit(state_mps: int)
    requires
        0 <= state_mps < 126,
    ensures
        0 < bin_cost(state_mps, state_mps % 2) < CabacEstimator::SCALE < bin_cost(
            state_mps,
            1 - state_mps % 2,
        ),
{
    let state = state_mps / 2;
    lemma_costs_from(state);
    lemma_one_bit_between();
    if state < 62 {
        lemma_mps_cheaper(state);
    }
}

proof fn lemma_one_bit_between()
    ensures
        ENTROPY_BITS[0] < 32768 < ENTROPY_BITS[1],
        ENTROPY_BITS[124] > 0,
{
}

/// Flipping the low bit of a packed state by a bin tells the most probable symbol
/// from the least probable one.
pub proof fn lemma_packed_xor(packed: u8, bin: u8)
    by (bit_vector)
    requires
        packed < 128,
        bin < 128,
    ensures
        packed ^ bin < 128,
        bin <= 1 ==> packed ^ bin == if bin == packed % 2 {
            2 * (packed / 2)
        } else {
            2 * (packed / 2) + 1
        },
{
}

impl ContextModel {
    /// The packed state.
    pub closed spec fn packed(&self) -> int {
        self.state_mps as int
    }

    /// The state is one of the 63 adaptive ones; the last row of the tables belongs
    /// to the terminating bin and is never entered.
    pub open spec fn well_formed(&self) -> bool {
        0 <= self.packed() < 126
    }

    /// The context that `init_value` and the slice QP select.
    pub fn new(init_value: u8, slice_qp: i32) -> (c: Self)
        ensures
            c.well_formed(),
            ({
                let s = pre_ctx_state(init_value as int, slice_qp as int);
                c.packed() == if s >= 64 {
                    2 * (s - 64) + 1
                } else {
                    2 * (63 - s)
                }
            }),
    {
        let m: i32 = (init_value / 16) as i32 * 5 - 45;
        let n: i32 = (init_value % 16) as i32 * 8 - 16;
        let qp: i32 = clip3_i32(0, 51, slice_qp);
        assert(-2295 <= m * qp <= 1530) by (nonlinear_arith)
            requires
                -45 <= m <= 30,
                0 <= qp <= 51,
        ;
        let scaled: i32 = (m * qp) >> 4;
        assert(scaled == (m * qp) / 16) by {
            let p: i32 = (m * qp) as i32;
            assert(p >> 4 == p / 16) by (bit_vector);
        }
        let pre: i32 = clip3_i32(1, 126, scaled + n);
        if pre >= 64 {
            ContextModel { state_mps: (2 * (pre - 64) + 1) as u8 }
        } else {
            ContextModel { state_mps: (2 * (63 - pre)) as u8 }
        }
    }

    fn state(self) -> (s: u8)
        ensures
            s == self.packed() / 2,
    {
        self.state_mps / 2
    }

    fn mps(self) -> (m: u8)
        ensures
            m == self.packed() % 2,
    {
        self.state_mps % 2
    }

    /// The probability state and the most probable symbol.
    pub fn get_state(&self) -> (r: (u8, u8))
        ensures
            r.0 == self.packed() / 2,
            r.1 == self.packed() % 2,
    {
        (self.state(), self.mps())
    }

    /// The cost of coding `bin_value`, in 1/32768 bit. A bin is zero or one; larger
    /// values select the entry that the packed state and the value give together.
    pub fn entropy_bits(&self, bin_value: u8) -> (cost: u32)
        requires
            self.well_formed(),
            bin_value < 128,
        ensures
            cost == ENTROPY_BITS[((self.packed() as u8) ^ bin_value) as int],
            bin_value <= 1 ==> cost == bin_cost(self.packed(), bin_value as int),
            cost <= 0x3bfbb,
            bin_value == self.packed() % 2 ==> 0 < cost < CabacEstimator::SCALE,
            bin_value == 1 - self.packed() % 2 ==> cost > CabacEstimator::SCALE,
    {
        proof {
            lemma_packed_xor(self.state_mps, bin_value);
            law_sides_of_one_bit(self.packed());
        }
        ENTROPY_BITS[(self.state_mps ^ bin_value) as usize]
    }

    /// The state transition of coding `bin_value`.
    pub fn update(&mut self, bin_value: u8)
        requires
            old(self).well_formed(),
            bin_value <= 1,
        ensures
            final(self).well_formed(),
            final(self).packed() == next_state_mps(old(self).packed(), bin_value as int),
            bin_cost(final(self).packed(), bin_value as int) <= bin_cost(
                old(self).packed(),
                bin_value as int,
            ),
            bin_cost(final(self).packed(), bin_value as int) == bin_cost(
                old(self).packed(),
                bin_value as int,
            ) <==> (bin_value == old(self).packed() % 2 && old(self).packed() / 2 == 62),
    {
        let state: u8 = self.state_mps / 2;
        let mps: u8 = self.state_mps % 2;
        proof {
            law_coding_cheapens(self.packed(), bin_value as int);
        }
        self.state_mps = if bin_value == mps {
            STATE_TRANS_MPS[state as usize] * 2 + mps
        } else if state == 0 {
            STATE_TRANS_LPS[state as usize] * 2 + (1 - mps)
        } else {
            STATE_TRANS_LPS[state as usize] * 2 + mps
        };
    }
}

/// Sums the cost of bins in fractional bits, without producing any.
#[derive(Clone, Copy, Debug)]
pub struct CabacEstimator {
    frac_bits: u64,
}

impl Default for CabacEstimator {
    fn default() -> (e: Self)
        ensures
            e.total() == 0,
    {
        CabacEstimator { frac_bits: 0 }
    }
}

impl CabacEstimator {
    /// Fractional bits per bit.
    pub const SCALE: u64 = 32768;

    /// The sum so far, in units of `1 / SCALE` bit.
    pub closed spec fn total(&self) -> nat {
        self.frac_bits as nat
    }

    pub fn new() -> (e: Self)
        ensures
            e.total() == 0,
    {
        CabacEstimator { frac_bits: 0 }
    }

    /// Prices a context-coded bin and moves the context on.
    pub fn encode_bin(&mut self, bin_value: u8, ctx: &mut ContextModel)
        requires
            old(ctx).well_formed(),
            bin_value <= 1,
            old(self).total() + bin_cost(old(ctx).packed(), bin_value as int) <= u64::MAX,
        ensures
            final(self).total() == old(self).total() + bin_cost(
                old(ctx).packed(),
                bin_value as int,
            ),
            final(ctx).well_formed(),
            final(ctx).packed() == next_state_mps(old(ctx).packed(), bin_value as int),
    {
        self.frac_bits = self.frac_bits + ctx.entropy_bits(bin_value) as u64;
        ctx.update(bin_value);
    }

    /// Prices a bypass bin: one bit.
    pub fn encode_bin_ep(&mut self, _bin_value: u8)
        requires
            old(self).total() + Self::SCALE <= u64::MAX,
        ensures
            final(self).total() == old(self).total() + Self::SCALE,
    {
        self.frac_bits = self.frac_bits + Self::SCALE;
    }

    /// Prices `num_bins` bypass bins.
    pub fn encode_bins_ep(&mut self, _bin_values: u32, num_bins: u32)
        requires
            old(self).total() + Self::SCALE * num_bins <= u64::MAX,
        ensures
            final(self).total() == old(self).total() + Self::SCALE * num_bins,
    {
        self.frac_bits = self.frac_bits + Self::SCALE * num_bins as u64;
    }

    /// Prices a terminating bin.
    pub fn encode_bin_trm(&mut self, bin_value: u8)
        requires
            bin_value < 128,
            old(self).total() + ENTROPY_BITS[(126u8 ^ bin_value) as int] <= u64::MAX,
        ensures
            final(self).total() == old(self).total() + ENTROPY_BITS[(126u8 ^ bin_value) as int],
            bin_value <= 1 ==> final(self).total() == old(self).total() + ENTROPY_BITS[126
                + bin_value],
    {
        proof {
            lemma_packed_xor(126, bin_value);
        }
        self.frac_bits = self.frac_bits + ENTROPY_BITS[(126 ^ bin_value) as usize] as u64;
    }

    /// Adds a cost that was computed elsewhere.
    pub fn add_frac_bits(&mut self, frac_bits: u64)
        requires
            old(self).total() + frac_bits <= u64::MAX,
        ensures
            final(self).total() == old(self).total() + frac_bits,
    {
        self.frac_bits = self.frac_bits + frac_bits;
    }

    pub fn frac_bits(&self) -> (total: u64)
        ensures
            total == self.total(),
    {
        self.frac_bits
    }
}

/// `count` copies of a byte, as bits.
pub open spec fn byte_run(byte: nat, count: nat) -> Seq<bool>
    decreases count,
{
    if count == 0 {
        Seq::empty()
    } else {
        byte_run(byte, (count - 1) as nat) + be_bits(8, byte)
    }
}

proof fn lemma_byte_run(byte: nat, count: nat)
    requires
        byte == 0 || byte == 255,
    ensures
        byte_run(byte, count).len() == 8 * count,
        bits_value(byte_run(byte, count)) == if byte == 0 {
            0
        } else {
            pow2(8 * count) - 1
        },
    decreases count,
{
    lemma2_to64();
    if count > 0 {
        let prev = (count - 1) as nat;
        lemma_byte_run(byte, prev);
        lemma_be_bits_value(8, byte);
        lemma_bits_value_append(byte_run(byte, prev), be_bits(8, byte));
        lemma_pow2_adds(8 * prev, 8);
        assert((pow2(8 * prev) - 1) * 256 + 255 == pow2(8 * prev) * 256 - 1);
    }
}

/// Appends `count` copies of `byte`.
fn write_run(w: &mut BitWriter, byte: u32, count: u32)
    requires
        old(w).well_formed(),
        byte < 256,
    ensures
        final(w).well_formed(),
        final(w)@ == old(w)@ + byte_run(byte as nat, count as nat),
{
    let ghost before = w@;
    assert(before + byte_run(byte as nat, 0) =~= before);
    proof {
        lemma2_to64();
    }
    let mut i: u32 = 0;
    while i < count
        invariant
            i <= count,
            byte < 256,
            pow2(8) == 256,
            w.well_formed(),
            w@ == before + byte_run(byte as nat, i as nat),
        decreases count - i,
    {
        w.write_bits(8, byte);
        i = i + 1;
        proof {
            assert(before + byte_run(byte as nat, i as nat) =~= before + byte_run(
                byte as nat,
                (i - 1) as nat,
            ) + be_bits(8, byte as nat));
        }
    }
}

/// The number that a buffered byte and the `0xff` bytes behind it spell.
spec fn pending_value(count: nat, buffered: nat) -> int {
    if count == 0 {
        0
    } else {
        (buffered + 1) * pow2((8 * (count - 1)) as nat) - 1
    }
}

/// The bytes that a buffered byte and the `0xff` bytes behind it become once it is
/// known whether a carry runs through them.
spec fn settled_bits(count: nat, buffered: nat, carry: nat) -> Seq<bool> {
    if count == 0 {
        Seq::empty()
    } else {
        be_bits(8, buffered + carry) + byte_run(
            if carry == 0 {
                255
            } else {
                0
            },
            (count - 1) as nat,
        )
    }
}

proof fn lemma_settled_bits(w: Seq<bool>, count: nat, buffered: nat, carry: nat)
    requires
        buffered + carry < 256,
        carry <= 1,
        count == 0 ==> carry == 0,
    ensures
        settled_bits(count, buffered, carry).len() == 8 * count,
        bits_value(w + settled_bits(count, buffered, carry)) == bits_value(w) * pow2(8 * count)
            + pending_value(count, buffered) + carry,
{
    let t = settled_bits(count, buffered, carry);
    lemma2_to64();
    if count > 0 {
        let k = (count - 1) as nat;
        let fill: nat = if carry == 0 {
            255
        } else {
            0
        };
        lemma_byte_run(fill, k);
        lemma_be_bits_value(8, buffered + carry);
        lemma_bits_value_append(be_bits(8, buffered + carry), byte_run(fill, k));
        let p = pow2(8 * k);
        assert(bits_value(t) == (buffered + carry) * p + (if carry == 0 {
            p - 1
        } else {
            0
        }));
        assert((buffered + 1) * p == buffered * p + p) by (nonlinear_arith);
        if carry == 0 {
            assert((buffered + 0) * p == buffered * p);
        }
        assert(bits_value(t) == pending_value(count, buffered) + carry);
    }
    lemma_bits_value_append(w, t);
}

/// Splitting a register at bit `k`.
proof fn lemma_split(low: u32, k: u32)
    requires
        k < 32,
    ensures
        low >> k == low as nat / pow2(k as nat),
        low as nat == (low as nat / pow2(k as nat)) * pow2(k as nat) + low as nat % pow2(
            k as nat,
        ),
        0 <= low as nat % pow2(k as nat) < pow2(k as nat),
        pow2(k as nat) > 0,
{
    lemma_u32_shr_is_div(low, k);
    lemma_pow2_pos(k as nat);
    vstd::arithmetic::div_mod::lemma_fundamental_div_mod(low as int, pow2(k as nat) as int);
    vstd::arithmetic::mul::lemma_mul_is_commutative(
        low as int / pow2(k as nat) as int,
        pow2(k as nat) as int,
    );
}

/// Binary arithmetic encoder.
///
/// The interval's low end is spread over the writer, the buffered bytes and the
/// `low` register. A carry out of the register reaches the buffered bytes but never
/// the bits already written.
pub struct CabacEncoder {
    low: u32,
    range: u32,
    bits_left: i32,
    buffered_byte: u8,
    num_buffered_bytes: u32,
}

impl Default for CabacEncoder {
    fn default() -> (e: Self)
        ensures
            e.well_formed(),
            e.backlog() == 0,
            e.interval(Seq::empty()) == (CodeInterval { low: 0, range: 510, len: 9 }),
    {
        CabacEncoder::new()
    }
}

impl CabacEncoder {
    /// The interval coded so far, when `written` holds the bits written before and by
    /// the encoder.
    pub closed spec fn interval(&self, written: Seq<bool>) -> CodeInterval {
        CodeInterval {
            low: self.code_low(written) as nat,
            range: self.range as nat,
            len: (written.len() + 8 * self.num_buffered_bytes + 21 + self.bits_left) as nat,
        }
    }

    closed spec fn code_low(&self, written: Seq<bool>) -> int {
        (bits_value(written) * pow2(8 * self.num_buffered_bytes as nat) + pending_value(
            self.num_buffered_bytes as nat,
            self.buffered_byte as nat,
        )) * pow2((21 + self.bits_left) as nat) + self.low
    }

    /// How many bytes wait for a carry to be settled.
    pub closed spec fn backlog(&self) -> nat {
        self.num_buffered_bytes as nat
    }

    spec fn register_ok(&self) -> bool {
        &&& 256 <= self.range <= 510
        &&& self.low + self.range <= pow2((22 + self.bits_left) as nat)
        &&& self.buffered_byte == 255 ==> self.low + self.range <= pow2(
            (21 + self.bits_left) as nat,
        )
        &&& self.num_buffered_bytes == 0 ==> self.buffered_byte == 255
    }

    pub closed spec fn well_formed(&self) -> bool {
        &&& -12 <= self.bits_left <= -1
        &&& self.register_ok()
    }

    /// An encoder at the start of a code.
    pub fn new() -> (e: Self)
        ensures
            e.well_formed(),
            e.backlog() == 0,
            e.interval(Seq::empty()) == (CodeInterval { low: 0, range: 510, len: 9 }),
            forall|written: Seq<bool>| #[trigger]
                e.interval(written) == (CodeInterval {
                    low: bits_value(written) * 512,
                    range: 510,
                    len: written.len() + 9,
                }),
    {
        let e = CabacEncoder {
            low: 0,
            range: 510,
            bits_left: -12,
            buffered_byte: 0xff,
            num_buffered_bytes: 0,
        };
        proof {
            lemma2_to64();
            assert forall|written: Seq<bool>| #[trigger]
                e.interval(written) == (CodeInterval {
                    low: bits_value(written) * 512,
                    range: 510,
                    len: written.len() + 9,
                }) by {
                assert(bits_value(written) * pow2(0) == bits_value(written)) by (nonlinear_arith)
                    requires
                        pow2(0) == 1,
                ;
            }
        }
        e
    }

    /// Moves one settled byte out of the register.
    fn write_out(&mut self, w: &mut BitWriter)
        requires
            old(self).register_ok(),
            0 <= old(self).bits_left <= 7,
            old(self).backlog() < u32::MAX,
            old(w).well_formed(),
        ensures
            final(self).well_formed(),
            final(self).backlog() <= old(self).backlog() + 1,
            final(w).well_formed(),
            old(w)@.is_prefix_of(final(w)@),
            final(self).interval(final(w)@) == old(self).interval(old(w)@),
    {
        let ghost before = *self;
        let ghost written = w@;
        let k: u32 = (13 + self.bits_left) as u32;
        let ghost top = pow2(k as nat);
        proof {
            lemma2_to64();
            lemma_split(self.low, k);
            lemma_pow2_adds(8, k as nat);
            lemma_pow2_adds(9, k as nat);
            if k > 13 {
                lemma_pow2_strictly_increases(13, k as nat);
            }
            assert(top >= 8192);
        }
        let lead_byte: u32 = self.low >> k;
        let rest: u32 = self.low & (u32::MAX >> ((32 - k) as u32));
        proof {
            lemma_low_mask(self.low, k);
            let (lo, le, re, ra) = (self.low as int, lead_byte as int, rest as int, self.range as int);
            assert(lo == le * top + re && 0 <= re < top);
            assert(le < 512) by (nonlinear_arith)
                requires
                    lo == le * top + re,
                    0 <= re,
                    lo + ra <= 512 * top,
                    ra > 0,
                    top > 0,
            ;
            if self.buffered_byte == 255 {
                assert(le < 256) by (nonlinear_arith)
                    requires
                        lo == le * top + re,
                        0 <= re,
                        lo + ra <= 256 * top,
                        ra > 0,
                        top > 0,
                ;
            }
        }
        self.bits_left = self.bits_left - 8;
        self.low = rest;
        if lead_byte == 0xff {
            self.num_buffered_bytes = self.num_buffered_bytes + 1;
            proof {
                self.lemma_keep_ff(before, written, top as int);
            }
        } else {
            let carry: u32 = lead_byte >> 8;
            proof {
                lemma_u32_shr_is_div(lead_byte, 8);
            }
            if self.num_buffered_bytes > 0 {
                w.write_bits(8, self.buffered_byte as u32 + carry);
                let ghost mid = w@;
                let fill: u32 = if carry == 0 {
                    0xff
                } else {
                    0
                };
                write_run(w, fill, self.num_buffered_bytes - 1);
                proof {
                    assert(w@ =~= written + settled_bits(
                        before.num_buffered_bytes as nat,
                        before.buffered_byte as nat,
                        carry as nat,
                    ));
                }
            } else {
                assert(w@ =~= written + settled_bits(0, before.buffered_byte as nat, 0));
            }
            self.num_buffered_bytes = 1;
            self.buffered_byte = (lead_byte % 256) as u8;
            proof {
                self.lemma_settle(before, written, w@, lead_byte as int, top as int);
            }
        }
    }

    /// Takes the register to a part of the interval, `num_bits` doublings further on.
    fn shift_in(&mut self, w: &mut BitWriter, low: u32, range: u32, num_bits: u32)
        requires
            old(self).well_formed(),
            old(self).backlog() < u32::MAX,
            old(w).well_formed(),
            256 <= range <= 510,
            num_bits <= 8,
            old(self).low * pow2(num_bits as nat) <= low,
            low + range <= (old(self).low + old(self).range) * pow2(num_bits as nat),
        ensures
            final(self).well_formed(),
            final(self).backlog() <= old(self).backlog() + 1,
            final(w).well_formed(),
            old(w)@.is_prefix_of(final(w)@),
            final(self).interval(final(w)@) == (CodeInterval {
                low: (old(self).interval(old(w)@).low * pow2(num_bits as nat) + low - old(self).low
                    * pow2(num_bits as nat)) as nat,
                range: range as nat,
                len: old(self).interval(old(w)@).len + num_bits as nat,
            }),
    {
        let ghost before = *self;
        self.low = low;
        self.range = range;
        self.bits_left = self.bits_left + num_bits as i32;
        proof {
            let n = num_bits as nat;
            let f = pow2(n) as int;
            let b = before.bits_left;
            lemma_pow2_pos(n);
            lemma_pow2_adds((22 + b) as nat, n);
            lemma_pow2_adds((21 + b) as nat, n);
            let (lo, ra) = (before.low as int, before.range as int);
            let (w22, w21) = (pow2((22 + b) as nat) as int, pow2((21 + b) as nat) as int);
            assert((lo + ra) * f <= w22 * f) by (nonlinear_arith)
                requires
                    lo + ra <= w22,
                    f > 0,
            ;
            if before.buffered_byte == 255 {
                assert((lo + ra) * f <= w21 * f) by (nonlinear_arith)
                    requires
                        lo + ra <= w21,
                        f > 0,
                ;
            }
            let head = bits_value(w@) * pow2(8 * before.num_buffered_bytes as nat) + pending_value(
                before.num_buffered_bytes as nat,
                before.buffered_byte as nat,
            );
            assert((head * w21 + lo) * f + low - lo * f == head * (w21 * f) + low)
                by (nonlinear_arith);
            before.lemma_code_low_nonneg(w@);
        }
        if self.bits_left >= 0 {
            self.write_out(w);
        }
    }

    proof fn lemma_code_low_nonneg(&self, written: Seq<bool>)
        ensures
            self.code_low(written) >= 0,
    {
        let n = self.num_buffered_bytes as nat;
        let q = pow2((8 * (n - 1)) as nat) as int;
        let b1 = self.buffered_byte as int + 1;
        lemma_pow2_pos((8 * (n - 1)) as nat);
        assert(b1 * q >= 1) by (nonlinear_arith)
            requires
                b1 >= 1,
                q >= 1,
        ;
        let head = bits_value(written) * pow2(8 * n) + pending_value(n, self.buffered_byte as nat);
        assert(head >= 0);
        assert(head * pow2((21 + self.bits_left) as nat) >= 0) by (nonlinear_arith)
            requires
                head >= 0,
        ;
    }

    /// Codes a bin in a context and moves the context on.
    pub fn encode_bin(&mut self, w: &mut BitWriter, bin_value: u8, ctx: &mut ContextModel)
        requires
            old(self).well_formed(),
            old(self).backlog() < u32::MAX,
            old(w).well_formed(),
            old(ctx).well_formed(),
            bin_value <= 1,
        ensures
            final(self).well_formed(),
            final(self).backlog() <= old(self).backlog() + 1,
            final(w).well_formed(),
            old(w)@.is_prefix_of(final(w)@),
            final(self).interval(final(w)@) == code_bin(
                old(self).interval(old(w)@),
                old(ctx).packed(),
                bin_value as int,
            ),
            final(ctx).well_formed(),
            final(ctx).packed() == next_state_mps(old(ctx).packed(), bin_value as int),
    {
        let q: u32 = (self.range / 64) % 4;
        let lps: u8 = LPS_TABLE[ctx.state() as usize][q as usize];
        let mps: u8 = ctx.mps();
        proof {
            lemma_lps_range(ctx.packed(), self.range as nat);
            assert(lps == lps_range(ctx.packed(), self.range as nat));
        }
        let mps_range: u32 = self.range - lps as u32;
        let ghost iv = self.interval(w@);
        proof {
            self.lemma_code_low_nonneg(w@);
            self.lemma_register_bound();
            lemma2_to64();
        }
        ctx.update(bin_value);
        if bin_value == mps {
            if mps_range >= 256 {
                proof {
                    let part = CodeInterval { low: iv.low, range: mps_range as nat, len: iv.len };
                    lemma_renorm_shift(part, 0);
                }
                self.shift_in(w, self.low, mps_range, 0);
            } else {
                proof {
                    let part = CodeInterval { low: iv.low, range: mps_range as nat, len: iv.len };
                    lemma_renorm_shift(part, 1);
                }
                self.shift_in(w, self.low * 2, mps_range * 2, 1);
            }
        } else {
            let num_bits: u32 = 1 + lps.leading_zeros();
            let ghost f = pow2(num_bits as nat) as int;
            proof {
                lemma_normalise(lps);
                let part = CodeInterval {
                    low: iv.low + mps_range as nat,
                    range: lps as nat,
                    len: iv.len,
                };
                lemma_renorm_shift(part, num_bits as nat);
                let (lo, mr, lr) = (self.low as int, mps_range as int, lps as int);
                assert(f <= 64);
                assert((lo + mr) * f <= (lo + mr) * 64) by (nonlinear_arith)
                    requires
                        f <= 64,
                        lo + mr >= 0,
                ;
                assert((lo + mr) * f + lr * f == (lo + mr + lr) * f) by (nonlinear_arith);
                assert(lo * f <= (lo + mr) * f) by (nonlinear_arith)
                    requires
                        mr >= 0,
                        f >= 0,
                ;
                assert((iv.low + mr) * f == iv.low * f + (lo + mr) * f - lo * f)
                    by (nonlinear_arith);
                lemma_u32_shl_is_mul((self.low + mps_range) as u32, num_bits);
                lemma_u32_shl_is_mul(lps as u32, num_bits);
            }
            self.shift_in(w, (self.low + mps_range) << num_bits, (lps as u32) << num_bits, num_bits);
        }
    }

    /// Codes a bypass bin.
    pub fn encode_bin_ep(&mut self, w: &mut BitWriter, bin_value: u8)
        requires
            old(self).well_formed(),
            old(self).backlog() < u32::MAX,
            old(w).well_formed(),
        ensures
            final(self).well_formed(),
            final(self).backlog() <= old(self).backlog() + 1,
            final(w).well_formed(),
            old(w)@.is_prefix_of(final(w)@),
            final(self).interval(final(w)@) == code_bypass(
                old(self).interval(old(w)@),
                bin_value != 0,
            ),
    {
        proof {
            self.lemma_code_low_nonneg(w@);
            self.lemma_register_bound();
            lemma2_to64();
        }
        let mut low: u32 = self.low * 2;
        if bin_value != 0 {
            low = low + self.range;
        }
        self.shift_in(w, low, self.range, 1);
    }

    /// Codes `num_bins` bypass bins, the bits of `bin_values` most significant first.
    pub fn encode_bins_ep(&mut self, w: &mut BitWriter, bin_values: u32, num_bins: u32)
        requires
            old(self).well_formed(),
            old(self).backlog() + num_bins / 8 + 1 <= u32::MAX,
            old(w).well_formed(),
            num_bins <= 39,
            (bin_values as nat) < pow2(num_bins as nat),
        ensures
            final(self).well_formed(),
            final(self).backlog() <= old(self).backlog() + num_bins / 8 + 1,
            final(w).well_formed(),
            old(w)@.is_prefix_of(final(w)@),
            final(self).interval(final(w)@) == code_bypass_bins(
                old(self).interval(old(w)@),
                be_bits(num_bins as nat, bin_values as nat),
            ),
    {
        let ghost iv = self.interval(w@);
        let ghost all = be_bits(num_bins as nat, bin_values as nat);
        let ghost mut done: Seq<bool> = Seq::empty();
        let mut rest: u32 = bin_values;
        let mut left: u32 = num_bins;
        assert(done + all =~= all);
        while left > 8
            invariant
                self.well_formed(),
                self.backlog() + left / 8 <= old(self).backlog() + num_bins / 8,
                old(self).backlog() + num_bins / 8 + 1 <= u32::MAX,
                w.well_formed(),
                old(w)@.is_prefix_of(w@),
                left <= num_bins <= 39,
                (rest as nat) < pow2(left as nat),
                all == done + be_bits(left as nat, rest as nat),
                self.interval(w@) == code_bypass_bins(iv, done),
            decreases left,
        {
            left = left - 8;
            let pattern: u32 = rest >> left;
            let ghost low_part = rest as nat % pow2(left as nat);
            proof {
                lemma_split(rest, left);
                lemma_pow2_adds(8, left as nat);
                lemma2_to64();
                let (p, f, lp) = (pattern as int, pow2(left as nat) as int, low_part as int);
                assert(p < 256) by (nonlinear_arith)
                    requires
                        p * f + lp < 256 * f,
                        lp >= 0,
                        f > 0,
                ;
                lemma_u32_shl_is_mul(pattern, left);
                lemma_be_bits_split(8, left as nat, pattern as nat, low_part);
            }
            rest = rest - (pattern << left);
            self.encode_bypass_group(w, pattern, 8);
            proof {
                let head = be_bits(8, pattern as nat);
                lemma_code_bypass_append(iv, done, head);
                assert(done + (head + be_bits(left as nat, rest as nat)) =~= (done + head)
                    + be_bits(left as nat, rest as nat));
                done = done + head;
            }
        }
        self.encode_bypass_group(w, rest, left);
        proof {
            lemma_code_bypass_append(iv, done, be_bits(left as nat, rest as nat));
        }
    }

    /// Codes up to eight bypass bins.
    fn encode_bypass_group(&mut self, w: &mut BitWriter, pattern: u32, num_bins: u32)
        requires
            old(self).well_formed(),
            old(self).backlog() < u32::MAX,
            old(w).well_formed(),
            num_bins <= 8,
            (pattern as nat) < pow2(num_bins as nat),
        ensures
            final(self).well_formed(),
            final(self).backlog() <= old(self).backlog() + 1,
            final(w).well_formed(),
            old(w)@.is_prefix_of(final(w)@),
            final(self).interval(final(w)@) == code_bypass_bins(
                old(self).interval(old(w)@),
                be_bits(num_bins as nat, pattern as nat),
            ),
    {
        let ghost iv = self.interval(w@);
        let ghost f = pow2(num_bins as nat) as int;
        proof {
            self.lemma_code_low_nonneg(w@);
            self.lemma_register_bound();
            lemma2_to64();
            lemma_pow2_pos(num_bins as nat);
            if num_bins < 8 {
                lemma_pow2_strictly_increases(num_bins as nat, 8);
            }
            let (lo, ra, p) = (self.low as int, self.range as int, pattern as int);
            assert(0 <= ra * p <= ra * (f - 1) && ra * (f - 1) == ra * f - ra) by (nonlinear_arith)
                requires
                    0 <= p <= f - 1,
                    ra >= 0,
            ;
            assert((lo + ra) * f == lo * f + ra * f) by (nonlinear_arith);
            assert((lo + ra) * f <= 0x20_0000 * 256) by (nonlinear_arith)
                requires
                    0 <= lo + ra <= 0x20_0000,
                    0 < f <= 256,
            ;
            assert(lo * f >= 0) by (nonlinear_arith)
                requires
                    lo >= 0,
                    f > 0,
            ;
            lemma_u32_shl_is_mul(self.low, num_bins);
            lemma_be_bits_value(num_bins as nat, pattern as nat);
            lemma_code_bypass_bins(iv, be_bits(num_bins as nat, pattern as nat));
        }
        self.shift_in(w, (self.low << num_bins) + self.range * pattern, self.range, num_bins);
    }

    /// Codes a terminating bin. A one ends the code: [`Self::finish`] follows.
    pub fn encode_bin_trm(&mut self, w: &mut BitWriter, bin_value: u8)
        requires
            old(self).well_formed(),
            old(self).backlog() < u32::MAX,
            old(w).well_formed(),
        ensures
            final(self).well_formed(),
            final(self).backlog() <= old(self).backlog() + 1,
            final(w).well_formed(),
            old(w)@.is_prefix_of(final(w)@),
            final(self).interval(final(w)@) == code_terminate(
                old(self).interval(old(w)@),
                bin_value != 0,
            ),
    {
        let ghost iv = self.interval(w@);
        let rest: u32 = self.range - 2;
        proof {
            self.lemma_code_low_nonneg(w@);
            self.lemma_register_bound();
            lemma2_to64();
        }
        if bin_value != 0 {
            proof {
                let part = CodeInterval { low: iv.low + rest as nat, range: 2, len: iv.len };
                lemma_renorm_shift(part, 7);
            }
            self.shift_in(w, (self.low + rest) * 128, 256, 7);
        } else if rest >= 256 {
            proof {
                let part = CodeInterval { low: iv.low, range: rest as nat, len: iv.len };
                lemma_renorm_shift(part, 0);
            }
            self.shift_in(w, self.low, rest, 0);
        } else {
            proof {
                let part = CodeInterval { low: iv.low, range: rest as nat, len: iv.len };
                lemma_renorm_shift(part, 1);
            }
            self.shift_in(w, self.low * 2, rest * 2, 1);
        }
    }

    /// The state that [`Self::finish`] leaves: at most one buffered byte, no carry.
    pub closed spec fn finished(self) -> Self {
        CabacEncoder {
            low: (self.low as nat % pow2((21 + self.bits_left) as nat)) as u32,
            num_buffered_bytes: if self.num_buffered_bytes > 0 {
                1
            } else {
                0
            },
            ..self
        }
    }

    /// Writes out everything but the last eight bits of the interval's low end.
    pub fn finish(&mut self, w: &mut BitWriter)
        requires
            old(self).well_formed(),
            old(w).well_formed(),
        ensures
            *final(self) == old(self).finished(),
            final(w).well_formed(),
            old(w)@.is_prefix_of(final(w)@),
            final(w)@.len() + 8 == old(self).interval(old(w)@).len,
            bits_value(final(w)@) == old(self).interval(old(w)@).low / 256,
    {
        let ghost before = *self;
        let ghost written = w@;
        let k: u32 = (21 + self.bits_left) as u32;
        let ghost top = pow2(k as nat) as int;
        proof {
            lemma2_to64();
            lemma_split(self.low, k);
            lemma_pow2_adds(1, k as nat);
            let (c, r) = (self.low as nat / pow2(k as nat), self.low as nat % pow2(k as nat));
            assert(c <= 1) by (nonlinear_arith)
                requires
                    c * top + r < 2 * top,
                    r >= 0,
                    top > 0,
            ;
            if self.buffered_byte == 255 {
                assert(c == 0) by (nonlinear_arith)
                    requires
                        c * top + r < top,
                        c >= 0,
                        r >= 0,
                        top > 0,
                ;
            }
            if c == 1 {
                lemma_u32_shl_is_mul(1, k);
            }
        }
        let carry: u32 = self.low >> k;
        if self.num_buffered_bytes > 0 {
            w.write_bits(8, self.buffered_byte as u32 + carry);
            let fill: u32 = if carry == 0 {
                0xff
            } else {
                0
            };
            write_run(w, fill, self.num_buffered_bytes - 1);
            self.num_buffered_bytes = 1;
        }
        if carry != 0 {
            assert(1 * top == top);
            self.low = self.low - (1u32 << k);
        } else {
            assert(0 * top == 0);
        }
        let ghost settled = w@;
        assert(settled =~= written + settled_bits(
            before.num_buffered_bytes as nat,
            before.buffered_byte as nat,
            carry as nat,
        ));
        let n: u32 = k - 8;
        proof {
            lemma_u32_shr_is_div(self.low, 8);
            lemma_pow2_adds(8, n as nat);
            lemma_pow2_pos(n as nat);
        }
        let tail: u32 = self.low >> 8;
        assert((tail as nat) < pow2(n as nat));
        w.write_bits(n, tail);
        proof {
            lemma_be_bits_value(n as nat, tail as nat);
            lemma_settled_bits(
                written,
                before.num_buffered_bytes as nat,
                before.buffered_byte as nat,
                carry as nat,
            );
            lemma_bits_value_append(settled, be_bits(n as nat, tail as nat));
            vstd::arithmetic::div_mod::lemma_small_mod(tail as nat, pow2(n as nat));
            before.lemma_code_low_nonneg(written);
            let s = pow2(n as nat) as int;
            let head = bits_value(written) * pow2(8 * before.num_buffered_bytes as nat)
                + pending_value(before.num_buffered_bytes as nat, before.buffered_byte as nat);
            let v = before.code_low(written);
            let low = self.low as int;
            let c = carry as int;
            assert(v == ((head + c) * s) * 256 + low) by (nonlinear_arith)
                requires
                    v == head * (256 * s) + (c * (256 * s) + low),
            ;
            assert(v / 256 == (head + c) * s + low / 256);
        }
    }

    /// The register has room for a doubling by eight bits.
    proof fn lemma_register_bound(&self)
        requires
            self.well_formed(),
        ensures
            self.low + self.range <= 0x20_0000,
    {
        lemma2_to64();
        if self.bits_left < -1 {
            lemma_pow2_strictly_increases((22 + self.bits_left) as nat, 21);
        }
    }

    /// A `0xff` lead byte joins the buffered ones.
    proof fn lemma_keep_ff(&self, before: Self, written: Seq<bool>, top: int)
        requires
            before.register_ok(),
            0 <= before.bits_left <= 7,
            top == pow2((13 + before.bits_left) as nat),
            top >= 8192,
            before.low == 255 * top + self.low,
            self.low < top,
            self.range == before.range,
            self.bits_left == before.bits_left - 8,
            self.buffered_byte == before.buffered_byte,
            self.num_buffered_bytes == before.num_buffered_bytes + 1,
        ensures
            self.well_formed(),
            self.interval(written) == before.interval(written),
    {
        lemma2_to64();
        let k = (13 + before.bits_left) as nat;
        lemma_pow2_adds(8, k);
        lemma_pow2_adds(1, k);
        let n = before.num_buffered_bytes as nat;
        let e = bits_value(written) as int;
        let p = pending_value(n, before.buffered_byte as nat);
        let p1 = pending_value(n + 1, before.buffered_byte as nat);
        lemma_pow2_adds(8 * n, 8);
        let b1 = before.buffered_byte as int + 1;
        assert((8 * ((n + 1) as nat - 1)) as nat == 8 * n);
        assert(p1 == b1 * pow2(8 * n) - 1);
        if n > 0 {
            lemma_pow2_adds((8 * (n - 1)) as nat, 8);
            let q = pow2((8 * (n - 1)) as nat) as int;
            assert(pow2(8 * n) == q * 256);
            assert(p == b1 * q - 1);
            assert(b1 * (q * 256) == (b1 * q) * 256) by (nonlinear_arith);
        } else {
            let one = pow2(8 * n) as int;
            assert(one == 1 && b1 == 256);
            assert(b1 * one == 256) by (nonlinear_arith)
                requires
                    one == 1,
                    b1 == 256,
            ;
        }
        assert(p1 == p * 256 + 255);
        let s = pow2(8 * n) as int;
        assert((e * s + p) * (256 * top) + (255 * top + self.low) == (e * (s * 256) + p1) * top
            + self.low) by (nonlinear_arith)
            requires
                p1 == p * 256 + 255,
        ;
    }

    /// A lead byte other than `0xff` settles the buffered ones and takes their place.
    proof fn lemma_settle(
        &self,
        before: Self,
        written: Seq<bool>,
        after: Seq<bool>,
        lead: int,
        top: int,
    )
        requires
            before.register_ok(),
            0 <= before.bits_left <= 7,
            top == pow2((13 + before.bits_left) as nat),
            top >= 8192,
            0 <= lead < 512,
            lead != 255,
            before.buffered_byte == 255 ==> lead < 256,
            before.low == lead * top + self.low,
            self.low < top,
            self.range == before.range,
            self.bits_left == before.bits_left - 8,
            self.buffered_byte == lead % 256,
            self.num_buffered_bytes == 1,
            after == written + settled_bits(
                before.num_buffered_bytes as nat,
                before.buffered_byte as nat,
                (lead / 256) as nat,
            ),
        ensures
            self.well_formed(),
            self.interval(after) == before.interval(written),
    {
        lemma2_to64();
        let k = (13 + before.bits_left) as nat;
        lemma_pow2_adds(8, k);
        lemma_pow2_adds(1, k);
        let n = before.num_buffered_bytes as nat;
        let c = (lead / 256) as nat;
        lemma_settled_bits(written, n, before.buffered_byte as nat, c);
        let e = bits_value(written) as int;
        let s = pow2(8 * n) as int;
        let p = pending_value(n, before.buffered_byte as nat);
        let b = lead % 256;
        assert((e * s + p) * (256 * top) + (lead * top + self.low) == ((e * s + p + c) * 256 + (b
            + 1) * 1 - 1) * top + self.low) by (nonlinear_arith)
            requires
                lead == 256 * c + b,
        ;
        assert(pow2((8 * (1 - 1)) as nat) == 1);
        if self.buffered_byte == 255 {
            assert(lead == 511);
            assert(self.low + self.range <= top) by (nonlinear_arith)
                requires
                    before.low == 511 * top + self.low,
                    before.low + self.range <= 512 * top,
            ;
        }
    }
}

/// The leading zeros of a sub-range are the doublings, but one, that bring it to
/// 256 or more.
proof fn lemma_normalise(lps: u8)
    requires
        6 <= lps <= 240,
    ensures
        lps.leading_zeros() <= 5,
        256 <= lps * pow2(1 + lps.leading_zeros() as nat) <= 510,
        pow2(1 + lps.leading_zeros() as nat) <= 64,
{
    let z = lps.leading_zeros() as u8;
    let a = (7 - z) as u8;
    let c = (8 - z) as u8;
    vstd::std_specs::bits::axiom_u8_leading_zeros(lps);
    assert(z <= 5 && 128 <= (lps as u32) * (1u32 << z) < 256) by (bit_vector)
        requires
            6 <= lps <= 240,
            z < 8,
            a + z == 7,
            c + z == 8,
            (lps >> a) & 1u8 != 0u8,
            lps >> c == 0,
    ;
    lemma2_to64();
    lemma_u32_shl_is_mul(1, z as u32);
    lemma_pow2_adds(1, z as nat);
    let p = pow2(z as nat) as int;
    assert(lps * (2 * p) == 2 * (lps * p)) by (nonlinear_arith);
    if z < 5 {
        lemma_pow2_strictly_increases(z as nat, 5);
    }
}

/// A register masked to its low `k` bits.
proof fn lemma_low_mask(low: u32, k: u32)
    requires
        13 <= k <= 20,
    ensures
        low & (u32::MAX >> ((32 - k) as u32)) == low as nat % pow2(k as nat),
{
    let sh = (32 - k) as u32;
    let mask = u32::MAX >> sh;
    lemma2_to64();
    lemma_u32_shr_is_div(u32::MAX, sh);
    lemma_pow2_adds(k as nat, sh as nat);
    let (a, b) = (pow2(k as nat) as int, pow2(sh as nat) as int);
    lemma_pow2_pos(sh as nat);
    assert(u32::MAX as int / b == a - 1) by (nonlinear_arith)
        requires
            a * b == 0x1_0000_0000,
            b > 0,
            u32::MAX as int == 0x1_0000_0000 - 1,
    ;
    vstd::bits::lemma_u32_low_bits_mask_is_mod(low, k as nat);
}

/// A context is its packed state: updating it, coding a bin in it and pricing a bin in it
/// leave the same context.
pub proof fn law_context_is_its_state(a: ContextModel, b: ContextModel)
    requires
        a.packed() == b.packed(),
    ensures
        a == b,
{
}

/// Updating a context by a bin, coding the bin in it and pricing the bin in it all leave the
/// same context, a valid one, in which the bin is no dearer than before; it is cheaper unless
/// it was the most probable symbol of the most skewed state.
pub proof fn law_bin_updates_alike(
    before: ContextModel,
    updated: ContextModel,
    coded: ContextModel,
    priced: ContextModel,
    bin: int,
)
    requires
        before.well_formed(),
        0 <= bin <= 1,
        updated.packed() == next_state_mps(before.packed(), bin),
        coded.packed() == next_state_mps(before.packed(), bin),
        priced.packed() == next_state_mps(before.packed(), bin),
    ensures
        updated == coded,
        updated == priced,
        updated.well_formed(),
        bin_cost(updated.packed(), bin) <= bin_cost(before.packed(), bin),
        bin_cost(updated.packed(), bin) == bin_cost(before.packed(), bin) <==> (bin
            == before.packed() % 2 && before.packed() / 2 == 62),
{
    law_coding_cheapens(before.packed(), bin);
    law_context_is_its_state(updated, coded);
    law_context_is_its_state(updated, priced);
}

} // verus!
