//! Entropy coding: what is written can be decoded, and what it costs.

use still265::aq::{encode_cu_qp_delta, encode_egk0_bypass};
use still265::bins::{slice_payload, BinOp};
use still265::bitstream::BitWriter;
use still265::cabac::{
    CabacEncoder, CabacEstimator, ContextModel, LPS_TABLE, STATE_TRANS_LPS, STATE_TRANS_MPS,
};
use still265::contexts::{
    Contexts, CBF_LUMA, NUM_CONTEXTS, PART_MODE, PREV_INTRA_LUMA_PRED_FLAG,
};
use still265::cost::{
    estimate_intra_chroma_mode_bits, estimate_intra_luma_mode_bits, estimate_luma_cu_trial_bits,
    estimate_tt_bits,
};
use still265::items::{write_intra_chroma_mode, write_intra_luma_mode, SyntaxItem};
use still265::maps::{BlockMaps, TileGrid};
use still265::slice::{encode_slice, write_slice};
use still265::syntax::{CodedBlock, CuLeaf, CuNode, DecisionConfidence, LeafTu, Tt};

/// An arithmetic decoder over a byte string, zeros behind its end.
struct Decoder {
    bytes: Vec<u8>,
    pos: usize,
    range: u32,
    value: u32,
}

impl Decoder {
    fn new(bytes: Vec<u8>) -> Self {
        let mut d = Decoder { bytes, pos: 0, range: 510, value: 0 };
        for _ in 0..9 {
            d.value = d.value * 2 + d.bit();
        }
        d
    }

    fn bit(&mut self) -> u32 {
        let byte = self.bytes.get(self.pos / 8).copied().unwrap_or(0);
        let bit = (byte >> (7 - self.pos % 8)) & 1;
        self.pos += 1;
        bit as u32
    }

    fn renorm(&mut self) {
        while self.range < 256 {
            self.range *= 2;
            self.value = self.value * 2 + self.bit();
        }
    }

    fn context(&mut self, state: &mut (u8, u8)) -> bool {
        let lps = LPS_TABLE[state.0 as usize][((self.range >> 6) & 3) as usize] as u32;
        self.range -= lps;
        let bin;
        if self.value < self.range {
            bin = state.1;
            state.0 = STATE_TRANS_MPS[state.0 as usize];
        } else {
            bin = 1 - state.1;
            self.value -= self.range;
            self.range = lps;
            if state.0 == 0 {
                state.1 = 1 - state.1;
            }
            state.0 = STATE_TRANS_LPS[state.0 as usize];
        }
        self.renorm();
        bin == 1
    }

    fn bypass(&mut self) -> bool {
        self.value = self.value * 2 + self.bit();
        if self.value >= self.range {
            self.value -= self.range;
            true
        } else {
            false
        }
    }

    fn terminate(&mut self) -> bool {
        self.range -= 2;
        if self.value >= self.range {
            true
        } else {
            self.renorm();
            false
        }
    }
}

fn contexts(qp: i32) -> Contexts {
    let init: Vec<u8> = (0..NUM_CONTEXTS).map(|i| (i * 37 % 256) as u8).collect();
    Contexts::new(&init, qp)
}

fn pseudo_ops(n: usize) -> Vec<BinOp> {
    let mut x: u32 = 12345;
    let mut ops = Vec::new();
    for _ in 0..n {
        x = x.wrapping_mul(1664525).wrapping_add(1013904223);
        let bit = (x >> 16) & 1 == 1;
        match (x >> 20) % 5 {
            0 => ops.push(BinOp::Bypass(bit)),
            1 => ops.push(BinOp::Terminate(false)),
            _ => ops.push(BinOp::Context(((x >> 24) % NUM_CONTEXTS as u32) as usize, bit)),
        }
    }
    ops.push(BinOp::Terminate(true));
    ops
}

#[test]
fn a_slice_payload_decodes_to_its_bins() {
    for n in [0usize, 1, 7, 100, 3000] {
        let ops = pseudo_ops(n);
        let mut ctxs = contexts(26);
        let mut states: Vec<(u8, u8)> = ctxs.models.iter().map(|m| m.get_state()).collect();
        let bytes = slice_payload(&mut ctxs, &ops);
        let mut d = Decoder::new(bytes);
        for op in &ops {
            match *op {
                BinOp::Context(ci, bin) => assert_eq!(d.context(&mut states[ci]), bin),
                BinOp::Bypass(bin) => assert_eq!(d.bypass(), bin),
                BinOp::Terminate(bin) => assert_eq!(d.terminate(), bin),
            }
        }
        for (m, s) in ctxs.models.iter().zip(&states) {
            assert_eq!(m.get_state(), *s);
        }
    }
}

#[test]
fn long_runs_of_ones_propagate_their_carry() {
    let mut w = BitWriter::new();
    let mut e = CabacEncoder::new();
    let mut d_bins = Vec::new();
    for i in 0..200u32 {
        let bin = (i % 40 != 39) as u8;
        e.encode_bin_ep(&mut w, bin);
        d_bins.push(bin == 1);
    }
    e.encode_bin_trm(&mut w, 1);
    e.finish(&mut w);
    w.write_bits(1, 1);
    w.byte_align();
    let mut d = Decoder::new(w.into_bytes());
    for bin in d_bins {
        assert_eq!(d.bypass(), bin);
    }
    assert!(d.terminate());
}

#[test]
fn groups_of_bypass_bins_are_their_single_bins() {
    let value: u32 = 0b1_0110_0111_0001;
    let mut w1 = BitWriter::new();
    let mut e1 = CabacEncoder::new();
    e1.encode_bins_ep(&mut w1, value, 13);
    e1.encode_bin_trm(&mut w1, 1);
    e1.finish(&mut w1);
    w1.byte_align();
    let mut w2 = BitWriter::new();
    let mut e2 = CabacEncoder::new();
    for i in (0..13).rev() {
        e2.encode_bin_ep(&mut w2, ((value >> i) & 1) as u8);
    }
    e2.encode_bin_trm(&mut w2, 1);
    e2.finish(&mut w2);
    w2.byte_align();
    assert_eq!(w1.into_bytes(), w2.into_bytes());
}

#[test]
fn bits_are_packed_from_the_top() {
    let mut w = BitWriter::new();
    w.write_bits(3, 0b101);
    w.write_bit(1);
    assert!(!w.is_aligned());
    w.write_bits(4, 0x2);
    assert!(w.is_aligned());
    w.write_bit(1);
    w.byte_align();
    assert_eq!(w.into_bytes(), vec![0xb2, 0x80]);
}

#[test]
fn a_context_starts_where_its_value_and_qp_say() {
    // 154 stands for equal probabilities at every QP.
    for qp in [0, 26, 51] {
        assert_eq!(ContextModel::new(154, qp).get_state(), (0, 1));
    }
    // Slope -5 and offset 64 at QP 32: 54, so a zero is more probable by nine states.
    assert_eq!(ContextModel::new(8 * 16 + 10, 32).get_state(), (9, 0));
    // QPs are clipped.
    assert_eq!(ContextModel::new(141, 80).get_state(), ContextModel::new(141, 51).get_state());
}

#[test]
fn equal_probabilities_cost_one_bit() {
    let m = ContextModel::new(154, 30);
    assert_eq!(m.entropy_bits(0), m.entropy_bits(0));
    let sum = m.entropy_bits(0) as u64 + m.entropy_bits(1) as u64;
    let two = 2 * CabacEstimator::SCALE;
    assert!(sum > two - two / 50 && sum < two + two / 50);
}

#[test]
fn the_estimator_adds_bins() {
    let mut e = CabacEstimator::new();
    e.encode_bin_ep(1);
    e.encode_bins_ep(0, 4);
    assert_eq!(e.frac_bits(), 5 * CabacEstimator::SCALE);
    e.add_frac_bits(7);
    assert_eq!(e.frac_bits(), 5 * CabacEstimator::SCALE + 7);
    let mut m = ContextModel::new(154, 30);
    let cost = m.entropy_bits(1) as u64;
    let mut e = CabacEstimator::new();
    e.encode_bin(1, &mut m);
    assert_eq!(e.frac_bits(), cost);
}

#[test]
fn zero_order_codes_have_a_unary_prefix() {
    let bits = |value: u32| -> Vec<bool> {
        let mut ops = Vec::new();
        encode_egk0_bypass(&mut ops, value);
        ops.iter()
            .map(|op| match op {
                BinOp::Bypass(b) => *b,
                _ => panic!("a bypass bin"),
            })
            .collect()
    };
    assert_eq!(bits(0), vec![false]);
    assert_eq!(bits(1), vec![true, false, false]);
    assert_eq!(bits(2), vec![true, false, true]);
    assert_eq!(bits(5), vec![true, true, false, true, false]);
}

#[test]
fn qp_differences_have_a_capped_prefix_and_a_sign() {
    let values = |delta: i32| -> Vec<bool> {
        let mut ops = Vec::new();
        encode_cu_qp_delta(&mut ops, delta);
        ops.iter()
            .map(|op| match op {
                BinOp::Context(_, b) | BinOp::Bypass(b) | BinOp::Terminate(b) => *b,
            })
            .collect()
    };
    assert_eq!(values(0), vec![false]);
    assert_eq!(values(2), vec![true, true, false, false]);
    assert_eq!(values(-1), vec![true, false, true]);
    // Five ones, then the rest in the zero order code, then the sign.
    assert_eq!(values(5), vec![true, true, true, true, true, false, false]);
    assert_eq!(values(-6), vec![true, true, true, true, true, true, false, false, true]);
}

#[test]
fn a_probable_luma_mode_has_a_short_index() {
    let mpm = [0u8, 1, 26];
    let mut items = Vec::new();
    write_intra_luma_mode(&mut items, mpm, 0);
    assert!(matches!(items[0], SyntaxItem::Bin(PREV_INTRA_LUMA_PRED_FLAG, true)));
    assert!(matches!(items[1], SyntaxItem::Bypass(false)));
    assert_eq!(items.len(), 2);
    let mut items = Vec::new();
    write_intra_luma_mode(&mut items, mpm, 26);
    assert_eq!(items.len(), 3);
    // The 32 other modes are numbered without the probable ones: 10 becomes 8.
    let mut items = Vec::new();
    write_intra_luma_mode(&mut items, mpm, 10);
    assert!(matches!(items[0], SyntaxItem::Bin(PREV_INTRA_LUMA_PRED_FLAG, false)));
    let bits: Vec<bool> = items[1..]
        .iter()
        .map(|i| match i {
            SyntaxItem::Bypass(b) => *b,
            _ => panic!("a bypass bin"),
        })
        .collect();
    assert_eq!(bits, vec![false, true, false, false, false]);
}

#[test]
fn mode_prices_are_those_of_what_is_written() {
    let ctxs = contexts(30);
    let flag = ctxs.models[PREV_INTRA_LUMA_PRED_FLAG];
    let scale = CabacEstimator::SCALE;
    let mpm = [0u8, 1, 26];
    assert_eq!(
        estimate_intra_luma_mode_bits(&ctxs, mpm, 0),
        flag.entropy_bits(1) as u64 + scale
    );
    assert_eq!(
        estimate_intra_luma_mode_bits(&ctxs, mpm, 1),
        flag.entropy_bits(1) as u64 + 2 * scale
    );
    assert_eq!(
        estimate_intra_luma_mode_bits(&ctxs, mpm, 9),
        flag.entropy_bits(0) as u64 + 5 * scale
    );
    let chroma = ctxs.models[still265::contexts::INTRA_CHROMA_PRED_MODE];
    assert_eq!(estimate_intra_chroma_mode_bits(&ctxs, 4), chroma.entropy_bits(0) as u64);
    assert_eq!(
        estimate_intra_chroma_mode_bits(&ctxs, 2),
        chroma.entropy_bits(1) as u64 + 2 * scale
    );
    let mut items = Vec::new();
    write_intra_chroma_mode(&mut items, 2);
    assert_eq!(items.len(), 3);
    assert!(matches!(items[1], SyntaxItem::Bypass(true)));
    assert!(matches!(items[2], SyntaxItem::Bypass(false)));
}

#[test]
fn a_part_is_priced_with_its_flag_and_levels() {
    let ctxs = contexts(30);
    let cbf = ctxs.models[CBF_LUMA];
    let mode = estimate_intra_luma_mode_bits(&ctxs, [0, 1, 26], 10);
    assert_eq!(
        still265::nxn_search::nxn_pu_bits(&ctxs, [0, 1, 26], 10, false, 999),
        mode + cbf.entropy_bits(0) as u64
    );
    assert_eq!(
        still265::nxn_search::nxn_pu_bits(&ctxs, [0, 1, 26], 10, true, 999),
        mode + cbf.entropy_bits(1) as u64 + 999
    );
}

fn tu(log2_size: u8, luma: CodedBlock) -> Tt {
    Tt::Leaf(LeafTu {
        log2_size,
        chroma_log2: 0,
        trafo_depth: 0,
        luma_mode: 10,
        chroma_mode: 10,
        luma,
        cb: CodedBlock::empty(),
        cr: CodedBlock::empty(),
        cb1: CodedBlock::empty(),
        cr1: CodedBlock::empty(),
    })
}

fn unit(tt: Tt) -> CuNode {
    CuNode::Leaf(CuLeaf {
        mpm: [0, 1, 26],
        luma_mode: 10,
        chroma_mode_idx: 4,
        nxn: None,
        confidence: DecisionConfidence::Clear,
        tt,
    })
}

fn ones() -> CodedBlock {
    CodedBlock { levels: vec![1; 32 * 32], cbf: true, frac_bits: 77 }
}

#[test]
fn a_coded_slice_decodes_to_its_syntax() {
    let maps = BlockMaps {
        width: 128,
        height: 64,
        tile_grid: TileGrid::single(),
        mode_map: vec![1; 32 * 16],
        mode_stride: 32,
        ct_depth_map: vec![0; 16 * 8],
        ct_depth_stride: 16,
    };
    let four = |coded: usize| CuNode::Split {
        kids: (0..4)
            .map(|i| unit(tu(5, if i == coded { ones() } else { CodedBlock::empty() })))
            .collect(),
    };
    let trees = vec![four(1), four(3)];
    let residuals = [
        vec![BinOp::Context(40, true), BinOp::Bypass(false), BinOp::Bypass(true)],
        vec![BinOp::Bypass(true), BinOp::Context(41, false)],
    ];
    let mut items = Vec::new();
    write_slice(&mut items, &maps, 0, &trees);
    let mut ctxs = contexts(26);
    let mut states: Vec<(u8, u8)> = ctxs.models.iter().map(|m| m.get_state()).collect();
    let bytes = encode_slice(&mut ctxs, &maps, 0, &trees, &residuals);
    let mut d = Decoder::new(bytes);
    let mut seen = 0;
    let mut ends = Vec::new();
    for item in &items {
        match *item {
            SyntaxItem::Bin(ci, bin) => assert_eq!(d.context(&mut states[ci]), bin),
            SyntaxItem::Bypass(bin) => assert_eq!(d.bypass(), bin),
            SyntaxItem::Terminate(bin) => {
                assert_eq!(d.terminate(), bin);
                ends.push(bin);
            }
            SyntaxItem::Residual { block, log2_size, .. } => {
                assert_eq!((block.frac_bits, log2_size), (77, 5));
                for op in &residuals[seen] {
                    match *op {
                        BinOp::Context(ci, bin) => assert_eq!(d.context(&mut states[ci]), bin),
                        BinOp::Bypass(bin) => assert_eq!(d.bypass(), bin),
                        BinOp::Terminate(bin) => assert_eq!(d.terminate(), bin),
                    }
                }
                seen += 1;
            }
        }
    }
    assert_eq!(seen, 2);
    assert_eq!(ends, vec![false, true]);
}

#[test]
fn a_luma_trial_is_priced_part_by_part() {
    let ctxs = contexts(30);
    let tt = tu(3, CodedBlock { levels: vec![1; 64], cbf: true, frac_bits: 5000 });
    let mode = estimate_intra_luma_mode_bits(&ctxs, [0, 1, 26], 10);
    let tree = estimate_tt_bits(&ctxs, &tt, 0, false, true, true);
    let part = ctxs.models[PART_MODE].entropy_bits(1) as u64;
    assert!(tree >= 5000);
    assert_eq!(estimate_luma_cu_trial_bits(&ctxs, [0, 1, 26], 10, &tt, 3), part + mode + tree);
    assert_eq!(estimate_luma_cu_trial_bits(&ctxs, [0, 1, 26], 10, &tt, 4), mode + tree);
}

#[test]
fn coding_a_bin_never_makes_it_dearer() {
    for init in 0..=255u8 {
        for bin in 0..2u8 {
            let mut m = ContextModel::new(init, 30);
            for _ in 0..80 {
                let (state, mps) = m.get_state();
                let before = m.entropy_bits(bin);
                m.update(bin);
                let after = m.entropy_bits(bin);
                assert!(after <= before);
                assert_eq!(after == before, bin == mps && state == 62);
            }
        }
    }
}

#[test]
fn the_likelier_symbol_costs_less_than_a_bit() {
    let even = ContextModel::new(154, 26);
    assert_eq!((even.entropy_bits(1), even.entropy_bits(0)), (31523, 34297));
    for init in 0..=255u8 {
        for qp in [0, 26, 51] {
            let m = ContextModel::new(init, qp);
            let (_, mps) = m.get_state();
            let likely = m.entropy_bits(mps);
            assert!(0 < likely && likely < 32768);
            assert!(m.entropy_bits(1 - mps) > 32768);
        }
    }
}

#[test]
fn nothing_is_read_behind_the_stop_bit() {
    let ops = pseudo_ops(500);
    let mut ctxs = contexts(26);
    let start: Vec<(u8, u8)> = ctxs.models.iter().map(|m| m.get_state()).collect();
    let bytes = slice_payload(&mut ctxs, &ops);
    let bits = bytes.len() * 8;
    let mut d = Decoder::new(bytes);
    let mut states = start;
    for op in &ops {
        match *op {
            BinOp::Context(ci, bin) => assert_eq!(d.context(&mut states[ci]), bin),
            BinOp::Bypass(bin) => assert_eq!(d.bypass(), bin),
            BinOp::Terminate(bin) => assert_eq!(d.terminate(), bin),
        }
    }
    assert!(d.pos <= bits);
    for (m, s) in ctxs.models.iter().zip(&states) {
        assert_eq!(m.get_state(), *s);
    }
}
