//! Coding a slice's bins.

use vstd::prelude::*;

use crate::arith_decode::{
    code_all, code_start, code_symbol, decode_all, decoder_after, decoder_at, decoder_start,
    law_finished_code_decodes, runs_on, symbols_of, values_of, CodeState, Symbol,
};
use crate::bitstream::{align_pad, bytes_bits, zero_bits, BitWriter};
use crate::cabac::{CabacEncoder, ContextModel};
use crate::contexts::{Contexts, NUM_CONTEXTS};

verus! {

/// One bin and how it is coded.
#[derive(Clone, Copy, Debug, PartialEq, Eq)]
pub enum BinOp {
    /// In the context at a place.
    Context(usize, bool),
    Bypass(bool),
    Terminate(bool),
}

impl BinOp {
    pub open spec fn coded(self) -> (Symbol, bool) {
        match self {
            BinOp::Context(ci, bin) => (Symbol::Context(ci as nat), bin),
            BinOp::Bypass(bin) => (Symbol::Bypass, bin),
            BinOp::Terminate(bin) => (Symbol::Terminate, bin),
        }
    }

    /// The context exists.
    pub open spec fn valid(self) -> bool {
        self matches BinOp::Context(ci, _) ==> ci < NUM_CONTEXTS
    }
}

/// The bins of a sequence of operations.
pub open spec fn coded_bins(ops: Seq<BinOp>) -> Seq<(Symbol, bool)> {
    ops.map_values(|op: BinOp| op.coded())
}

/// Where a coder stands: its interval, given what has been written, and its contexts.
pub open spec fn coder_state(enc: CabacEncoder, written: Seq<bool>, ctxs: Contexts) -> CodeState {
    CodeState { interval: enc.interval(written), contexts: ctxs@ }
}

/// Codes one bin.
pub fn encode_op(enc: &mut CabacEncoder, w: &mut BitWriter, ctxs: &mut Contexts, op: BinOp)
    requires
        old(enc).well_formed(),
        old(enc).backlog() < u32::MAX,
        old(w).well_formed(),
        old(ctxs).well_formed(),
        op.valid(),
    ensures
        final(enc).well_formed(),
        final(enc).backlog() <= old(enc).backlog() + 1,
        final(w).well_formed(),
        old(w)@.is_prefix_of(final(w)@),
        final(ctxs).well_formed(),
        coder_state(*final(enc), final(w)@, *final(ctxs)) == code_symbol(
            coder_state(*old(enc), old(w)@, *old(ctxs)),
            op.coded().0,
            op.coded().1,
        ),
{
    match op {
        BinOp::Context(ci, bin) => {
            let ghost before = ctxs@;
            let mut m: ContextModel = ctxs.models[ci];
            assert(before[ci as int] == m.packed());
            enc.encode_bin(w, bin as u8, &mut m);
            ctxs.models.set(ci, m);
            assert(ctxs@ =~= before.update(ci as int, m.packed()));
        },
        BinOp::Bypass(bin) => {
            enc.encode_bin_ep(w, bin as u8);
        },
        BinOp::Terminate(bin) => {
            enc.encode_bin_trm(w, bin as u8);
        },
    }
}

proof fn lemma_code_all_push(st: CodeState, bins: Seq<(Symbol, bool)>, last: (Symbol, bool))
    ensures
        code_all(st, bins.push(last)) == code_symbol(code_all(st, bins), last.0, last.1),
    decreases bins.len(),
{
    let longer = bins.push(last);
    if bins.len() == 0 {
        reveal_with_fuel(code_all, 2);
        assert(longer.drop_first() =~= Seq::empty());
    } else {
        assert(longer.drop_first() =~= bins.drop_first().push(last));
        lemma_code_all_push(code_symbol(st, bins[0].0, bins[0].1), bins.drop_first(), last);
    }
}

/// Codes bins one after another.
pub fn encode_ops(enc: &mut CabacEncoder, w: &mut BitWriter, ctxs: &mut Contexts, ops: &[BinOp])
    requires
        old(enc).well_formed(),
        old(enc).backlog() + ops@.len() <= u32::MAX,
        old(w).well_formed(),
        old(ctxs).well_formed(),
        forall|i: int| 0 <= i < ops@.len() ==> (#[trigger] ops@[i]).valid(),
    ensures
        final(enc).well_formed(),
        final(enc).backlog() <= old(enc).backlog() + ops@.len(),
        final(w).well_formed(),
        old(w)@.is_prefix_of(final(w)@),
        final(ctxs).well_formed(),
        coder_state(*final(enc), final(w)@, *final(ctxs)) == code_all(
            coder_state(*old(enc), old(w)@, *old(ctxs)),
            coded_bins(ops@),
        ),
{
    let ghost start = coder_state(*enc, w@, *ctxs);
    let n: usize = ops.len();
    for i in 0..n
        invariant
            n == ops@.len(),
            old(enc).backlog() + n <= u32::MAX,
            forall|k: int| 0 <= k < ops@.len() ==> (#[trigger] ops@[k]).valid(),
            enc.well_formed(),
            enc.backlog() <= old(enc).backlog() + i,
            w.well_formed(),
            old(w)@.is_prefix_of(w@),
            ctxs.well_formed(),
            coder_state(*enc, w@, *ctxs) == code_all(start, coded_bins(ops@.take(i as int))),
    {
        encode_op(enc, w, ctxs, ops[i]);
        proof {
            let done = coded_bins(ops@.take(i as int));
            assert(coded_bins(ops@.take(i + 1)) =~= done.push(ops@[i as int].coded()));
            lemma_code_all_push(start, done, ops@[i as int].coded());
        }
    }
    assert(ops@.take(n as int) =~= ops@);
}

/// No operation ends the code.
pub open spec fn ops_run_on(ops: Seq<BinOp>) -> bool {
    forall|i: int| 0 <= i < ops.len() ==> #[trigger] ops[i] != BinOp::Terminate(true)
}

/// A decoder that starts on a stream with some contexts reads bins back, and ends with
/// others.
pub open spec fn reads_back(
    contexts: Seq<int>,
    bins: Seq<(Symbol, bool)>,
    stream: Seq<bool>,
    after: Seq<int>,
) -> bool {
    let d = decoder_start(contexts, stream);
    &&& decode_all(d, symbols_of(bins), stream) == values_of(bins)
    &&& decoder_after(d, symbols_of(bins), stream).contexts == after
}

/// The payload of a slice: its bins, the rest of the code, a stop bit and zero bits up
/// to a byte boundary.
///
/// A decoder that starts with the same contexts and expects the same kinds of bins
/// reads back the bins and ends with the same contexts, whether or not anything follows
/// the payload.
pub fn slice_payload(ctxs: &mut Contexts, ops: &[BinOp]) -> (bytes: Vec<u8>)
    requires
        old(ctxs).well_formed(),
        0 < ops@.len() <= u32::MAX,
        forall|i: int| 0 <= i < ops@.len() ==> (#[trigger] ops@[i]).valid(),
        ops@.last() == BinOp::Terminate(true),
        ops_run_on(ops@.drop_last()),
    ensures
        final(ctxs).well_formed(),
        final(ctxs)@ == code_all(code_start(Seq::empty(), old(ctxs)@), coded_bins(ops@)).contexts,
        payload_spells(code_start(Seq::empty(), old(ctxs)@), coded_bins(ops@), bytes@),
        forall|more: Seq<bool>|
            reads_back(
                old(ctxs)@,
                coded_bins(ops@),
                #[trigger] (bytes_bits(bytes@) + more),
                final(ctxs)@,
            ),
{
    let ghost start_ctxs = ctxs@;
    let ghost bins = coded_bins(ops@);
    let mut w = BitWriter::new();
    let mut enc = CabacEncoder::new();
    let ghost st = code_start(Seq::empty(), start_ctxs);
    assert(crate::bitstream::bits_value(Seq::empty()) * 512 == 0);
    assert(coder_state(enc, w@, *ctxs) == st);
    encode_ops(&mut enc, &mut w, ctxs, ops);
    let ghost end = code_all(st, bins);
    enc.finish(&mut w);
    let ghost written = w@;
    w.write_bit(1);
    w.byte_align();
    let bytes = w.into_bytes();
    proof {
        let pad = zero_bits(align_pad((written.len() + 1) as nat));
        assert(bytes_bits(bytes@) =~= written + seq![true] + pad) by {
            let aligned = written.push(true) + pad;
            assert(align_pad(aligned.len()) == 0);
            assert(aligned + zero_bits(0) =~= aligned);
        }
        crate::bitstream::lemma_bits_of_value(written);
        assert(runs_on(bins.drop_last())) by {
            assert forall|i: int| 0 <= i < bins.len() - 1 implies !((
            #[trigger] bins.drop_last()[i]).0 is Terminate && bins.drop_last()[i].1) by {
                assert(ops@.drop_last()[i] != BinOp::Terminate(true));
            }
        }
        assert forall|more: Seq<bool>|
            reads_back(start_ctxs, bins, #[trigger] (bytes_bits(bytes@) + more), ctxs@) by {
            let after = pad + more;
            let stream = bytes_bits(bytes@) + more;
            assert(bytes_bits(bytes@) + more =~= written + seq![true] + after);
            assert(bins.last() == (Symbol::Terminate, true));
            assert(crate::arith_decode::symbols_ok(NUM_CONTEXTS as nat, bins)) by {
                assert forall|i: int| 0 <= i < bins.len() implies (
                #[trigger] bins[i].0 matches Symbol::Context(ci) ==> ci < NUM_CONTEXTS) by {
                    assert(ops@[i].valid());
                }
            }
            law_finished_code_decodes(Seq::empty(), start_ctxs, bins, written, after);
            assert(decoder_at(st, stream) == decoder_start(start_ctxs, stream));
        }
    }
    bytes
}

/// The bytes are the code of the bins: all but eight bits of the interval's low end, a
/// one and zeros.
pub open spec fn payload_spells(
    start: CodeState,
    bins: Seq<(Symbol, bool)>,
    bytes: Seq<u8>,
) -> bool {
    let end = code_all(start, bins).interval;
    let head = (end.len - 8) as nat;
    bytes_bits(bytes) == crate::bitstream::be_bits(head, end.low / 256) + seq![true] + zero_bits(
        align_pad(head + 1),
    )
}

} // verus!
