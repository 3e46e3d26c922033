//! What a decoder makes of an arithmetic code, and that it is what was coded.

use vstd::arithmetic::power2::{lemma2_to64, pow2};
use vstd::prelude::*;

use crate::arith_code::{
    code_bin, code_bypass, code_bypass_bins, code_terminate, lemma_lps_range, lemma_renorm_shift, lps_range, renorm,
    CodeInterval,
};
use crate::bitstream::{bits_value, lemma_bits_value_append};
use crate::cabac::{lemma_next_state_range, next_state_mps};

verus! {

/// How a bin is coded: in a context, given by its place, as a bypass bin, or as a
/// terminating bin.
pub enum Symbol {
    Context(nat),
    Bypass,
    Terminate,
}

/// A coder in the middle of a code: its interval and its contexts' packed states.
pub struct CodeState {
    pub interval: CodeInterval,
    pub contexts: Seq<int>,
}

pub open spec fn bin_of(b: bool) -> int {
    if b {
        1
    } else {
        0
    }
}

/// The coder's state after one more bin.
pub open spec fn code_symbol(st: CodeState, sym: Symbol, bin: bool) -> CodeState {
    match sym {
        Symbol::Context(ci) => CodeState {
            interval: code_bin(st.interval, st.contexts[ci as int], bin_of(bin)),
            contexts: st.contexts.update(
                ci as int,
                next_state_mps(st.contexts[ci as int], bin_of(bin)),
            ),
        },
        Symbol::Bypass => CodeState { interval: code_bypass(st.interval, bin), ..st },
        Symbol::Terminate => CodeState { interval: code_terminate(st.interval, bin), ..st },
    }
}

/// The coder's state after a sequence of bins.
pub open spec fn code_all(st: CodeState, bins: Seq<(Symbol, bool)>) -> CodeState
    decreases bins.len(),
{
    if bins.len() == 0 {
        st
    } else {
        code_all(code_symbol(st, bins[0].0, bins[0].1), bins.drop_first())
    }
}

/// The bins name contexts that exist.
pub open spec fn symbols_ok(contexts: nat, bins: Seq<(Symbol, bool)>) -> bool {
    forall|i: int|
        0 <= i < bins.len() ==> (#[trigger] bins[i].0 matches Symbol::Context(ci) ==> ci < contexts)
}

/// The range is normalised and the contexts are in adaptive states.
pub open spec fn state_ok(st: CodeState) -> bool {
    &&& 256 <= st.interval.range <= 510
    &&& forall|i: int| 0 <= i < st.contexts.len() ==> 0 <= #[trigger] st.contexts[i] < 126
}

/// The number that the first `len` bits of a stream spell.
pub open spec fn prefix_value(stream: Seq<bool>, len: nat) -> nat {
    bits_value(stream.take(len as int))
}

/// The stream's code value lies in the interval.
pub open spec fn in_interval(stream: Seq<bool>, iv: CodeInterval) -> bool {
    &&& iv.len <= stream.len()
    &&& iv.low <= prefix_value(stream, iv.len) < iv.low + iv.range
}

/// A decoder in the middle of a code: how far the stream's code value lies above the
/// interval's low end, the range, the bits read and the contexts.
pub struct DecodeState {
    pub offset: nat,
    pub range: nat,
    pub len: nat,
    pub contexts: Seq<int>,
}

/// Reads bits until the range is at least 256.
pub open spec fn renorm_read(d: DecodeState, stream: Seq<bool>) -> DecodeState
    decreases
            (if d.range >= 256 {
                0
            } else {
                256 - d.range
            }),
{
    if d.range >= 256 || d.range == 0 {
        d
    } else {
        renorm_read(
            DecodeState {
                offset: (2 * d.offset + bin_of(stream[d.len as int])) as nat,
                range: 2 * d.range,
                len: d.len + 1,
                ..d
            },
            stream,
        )
    }
}

/// One bin and the decoder's state behind it. Behind a one that terminates the code nothing
/// more is read.
pub open spec fn decode_symbol(d: DecodeState, sym: Symbol, stream: Seq<bool>) -> (
    bool,
    DecodeState,
) {
    match sym {
        Symbol::Context(ci) => {
            let packed = d.contexts[ci as int];
            let lps = lps_range(packed, d.range);
            let mps_range = (d.range - lps) as nat;
            let is_mps = d.offset < mps_range;
            let bin = if is_mps {
                packed % 2 == 1
            } else {
                packed % 2 == 0
            };
            let contexts = d.contexts.update(ci as int, next_state_mps(packed, bin_of(bin)));
            let part = if is_mps {
                DecodeState { range: mps_range, contexts, ..d }
            } else {
                DecodeState { offset: (d.offset - mps_range) as nat, range: lps, contexts, ..d }
            };
            (bin, renorm_read(part, stream))
        },
        Symbol::Bypass => {
            let offset = (2 * d.offset + bin_of(stream[d.len as int])) as nat;
            let len = d.len + 1;
            if offset >= d.range {
                (true, DecodeState { offset: (offset - d.range) as nat, len, ..d })
            } else {
                (false, DecodeState { offset, len, ..d })
            }
        },
        Symbol::Terminate => {
            let rest = (d.range - 2) as nat;
            if d.offset >= rest {
                (true, d)
            } else {
                (false, renorm_read(DecodeState { range: rest, ..d }, stream))
            }
        },
    }
}

/// The bins that a decoder reads when it expects `symbols`.
pub open spec fn decode_all(d: DecodeState, symbols: Seq<Symbol>, stream: Seq<bool>) -> Seq<bool>
    decreases symbols.len(),
{
    if symbols.len() == 0 {
        Seq::empty()
    } else {
        let (bin, next) = decode_symbol(d, symbols[0], stream);
        seq![bin] + decode_all(next, symbols.drop_first(), stream)
    }
}

/// The decoder's state behind `symbols`.
pub open spec fn decoder_after(
    d: DecodeState,
    symbols: Seq<Symbol>,
    stream: Seq<bool>,
) -> DecodeState
    decreases symbols.len(),
{
    if symbols.len() == 0 {
        d
    } else {
        decoder_after(decode_symbol(d, symbols[0], stream).1, symbols.drop_first(), stream)
    }
}

/// A decoder at the start of a stream: nine bits read into a range of 510.
pub open spec fn decoder_start(contexts: Seq<int>, stream: Seq<bool>) -> DecodeState {
    DecodeState { offset: prefix_value(stream, 9), range: 510, len: 9, contexts }
}

/// The decoder's state that goes with a coder's.
pub open spec fn decoder_at(st: CodeState, stream: Seq<bool>) -> DecodeState {
    DecodeState {
        offset: (prefix_value(stream, st.interval.len) - st.interval.low) as nat,
        range: st.interval.range,
        len: st.interval.len,
        contexts: st.contexts,
    }
}

proof fn lemma_prefix_step(stream: Seq<bool>, len: nat)
    requires
        len < stream.len(),
    ensures
        prefix_value(stream, len + 1) == 2 * prefix_value(stream, len) + bin_of(stream[len as int]),
{
    let longer = stream.take(len + 1 as int);
    assert(longer.drop_last() =~= stream.take(len as int));
    assert(longer.last() == stream[len as int]);
}

/// A code value in a renormalised interval is one of the interval, and the decoder
/// follows the renormalisation.
proof fn lemma_renorm_follow(iv: CodeInterval, contexts: Seq<int>, stream: Seq<bool>)
    requires
        0 < iv.range <= 510,
        in_interval(stream, renorm(iv)),
    ensures
        iv.len <= stream.len(),
        in_interval(stream, iv),
        256 <= renorm(iv).range <= 510,
        ({
            let st = CodeState { interval: iv, contexts };
            let after = CodeState { interval: renorm(iv), contexts };
            renorm_read(decoder_at(st, stream), stream) == decoder_at(after, stream)
        }),
    decreases
            (if iv.range >= 256 {
                0
            } else {
                256 - iv.range
            }),
{
    if iv.range < 256 {
        let next = CodeInterval { low: 2 * iv.low, range: 2 * iv.range, len: iv.len + 1 };
        lemma_renorm_follow(next, contexts, stream);
        lemma_prefix_step(stream, iv.len);
        let x = prefix_value(stream, iv.len);
        assert(iv.low <= x < iv.low + iv.range);
        let d = decoder_at(CodeState { interval: iv, contexts }, stream);
        let d2 = decoder_at(CodeState { interval: next, contexts }, stream);
        assert(d2.offset == 2 * d.offset + bin_of(stream[d.len as int]));
    }
}

/// One bin: a code value in the interval of the longer code is in that of the shorter
/// one, and the decoder reads the bin that was coded.
proof fn lemma_symbol_follow(st: CodeState, sym: Symbol, bin: bool, stream: Seq<bool>)
    requires
        state_ok(st),
        sym matches Symbol::Context(ci) ==> ci < st.contexts.len(),
        !(sym is Terminate && bin),
        in_interval(stream, code_symbol(st, sym, bin).interval),
    ensures
        in_interval(stream, st.interval),
        state_ok(code_symbol(st, sym, bin)),
        decode_symbol(decoder_at(st, stream), sym, stream) == (
            bin,
            decoder_at(code_symbol(st, sym, bin), stream),
        ),
{
    let iv = st.interval;
    let next = code_symbol(st, sym, bin);
    match sym {
        Symbol::Context(ci) => {
            let packed = st.contexts[ci as int];
            assert(0 <= packed < 126);
            lemma_lps_range(packed, iv.range);
            lemma_next_state_range(packed, bin_of(bin));
            let lps = lps_range(packed, iv.range);
            let mps_range = (iv.range - lps) as nat;
            let part = if bin_of(bin) == packed % 2 {
                CodeInterval { low: iv.low, range: mps_range, len: iv.len }
            } else {
                CodeInterval { low: iv.low + mps_range, range: lps, len: iv.len }
            };
            lemma_renorm_follow(part, next.contexts, stream);
            assert forall|i: int| 0 <= i < next.contexts.len() implies 0
                <= #[trigger] next.contexts[i] < 126 by {
                assert(0 <= st.contexts[i] < 126);
            }
        },
        Symbol::Bypass => {
            assert(iv.len < stream.len());
            lemma_prefix_step(stream, iv.len);
        },
        Symbol::Terminate => {
            let rest = (iv.range - 2) as nat;
            let part = CodeInterval { low: iv.low, range: rest, len: iv.len };
            lemma_renorm_follow(part, st.contexts, stream);
        },
    }
}

/// The intervals keep their shape from bin to bin.
proof fn lemma_renorm_range(iv: CodeInterval)
    requires
        0 < iv.range <= 510,
    ensures
        256 <= renorm(iv).range <= 510,
    decreases
            (if iv.range >= 256 {
                0
            } else {
                256 - iv.range
            }),
{
    if iv.range < 256 {
        lemma_renorm_range(
            CodeInterval { low: 2 * iv.low, range: 2 * iv.range, len: iv.len + 1 },
        );
    }
}

/// Coding a bin keeps the range normalised and the contexts adaptive.
pub proof fn lemma_code_symbol_ok(st: CodeState, sym: Symbol, bin: bool)
    requires
        state_ok(st),
        sym matches Symbol::Context(ci) ==> ci < st.contexts.len(),
    ensures
        state_ok(code_symbol(st, sym, bin)),
        code_symbol(st, sym, bin).contexts.len() == st.contexts.len(),
{
    let iv = st.interval;
    let next = code_symbol(st, sym, bin);
    match sym {
        Symbol::Context(ci) => {
            let packed = st.contexts[ci as int];
            assert(0 <= packed < 126);
            lemma_lps_range(packed, iv.range);
            lemma_next_state_range(packed, bin_of(bin));
            let lps = lps_range(packed, iv.range);
            let mps_range = (iv.range - lps) as nat;
            lemma_renorm_range(CodeInterval { low: iv.low, range: mps_range, len: iv.len });
            lemma_renorm_range(CodeInterval { low: iv.low + mps_range, range: lps, len: iv.len });
            assert forall|i: int| 0 <= i < next.contexts.len() implies 0
                <= #[trigger] next.contexts[i] < 126 by {
                assert(0 <= st.contexts[i] < 126);
            }
        },
        Symbol::Bypass => {},
        Symbol::Terminate => {
            let rest = (iv.range - 2) as nat;
            lemma_renorm_range(CodeInterval { low: iv.low + rest, range: 2, len: iv.len });
            lemma_renorm_range(CodeInterval { low: iv.low, range: rest, len: iv.len });
        },
    }
}

pub open spec fn symbols_of(bins: Seq<(Symbol, bool)>) -> Seq<Symbol> {
    bins.map_values(|b: (Symbol, bool)| b.0)
}

pub open spec fn values_of(bins: Seq<(Symbol, bool)>) -> Seq<bool> {
    bins.map_values(|b: (Symbol, bool)| b.1)
}

/// No bin terminates the code.
pub open spec fn runs_on(bins: Seq<(Symbol, bool)>) -> bool {
    forall|i: int| 0 <= i < bins.len() ==> !((#[trigger] bins[i]).0 is Terminate && bins[i].1)
}

/// Every stream whose code value lies in the interval of a sequence of bins decodes
/// to those bins, and leaves the decoder where the coder is, with the same contexts.
pub proof fn law_code_decodes(st: CodeState, bins: Seq<(Symbol, bool)>, stream: Seq<bool>)
    requires
        state_ok(st),
        symbols_ok(st.contexts.len(), bins),
        runs_on(bins),
        in_interval(stream, code_all(st, bins).interval),
    ensures
        in_interval(stream, st.interval),
        decode_all(decoder_at(st, stream), symbols_of(bins), stream) == values_of(bins),
        decoder_after(decoder_at(st, stream), symbols_of(bins), stream) == decoder_at(
            code_all(st, bins),
            stream,
        ),
    decreases bins.len(),
{
    if bins.len() == 0 {
        assert(values_of(bins) =~= Seq::<bool>::empty());
    } else {
        let (sym, bin) = bins[0];
        let next = code_symbol(st, sym, bin);
        let rest = bins.drop_first();
        lemma_code_symbol_ok(st, sym, bin);
        assert forall|i: int| 0 <= i < rest.len() implies (#[trigger] rest[i].0 matches Symbol::Context(
            ci,
        ) ==> ci < next.contexts.len()) by {
            assert(rest[i] == bins[i + 1]);
        }
        assert forall|i: int| 0 <= i < rest.len() implies !((#[trigger] rest[i]).0 is Terminate
            && rest[i].1) by {
            assert(rest[i] == bins[i + 1]);
        }
        law_code_decodes(next, rest, stream);
        assert(!(bins[0].0 is Terminate && bins[0].1));
        lemma_symbol_follow(st, sym, bin, stream);
        assert(symbols_of(bins).drop_first() =~= symbols_of(rest));
        assert(values_of(bins) =~= seq![bin] + values_of(rest));
    }
}

/// One more symbol is decoded from where those before it left the decoder.
proof fn lemma_decode_last(d: DecodeState, symbols: Seq<Symbol>, last: Symbol, stream: Seq<bool>)
    ensures
        ({
            let mid = decoder_after(d, symbols, stream);
            let all = symbols.push(last);
            &&& decode_all(d, all, stream) == decode_all(d, symbols, stream).push(
                decode_symbol(mid, last, stream).0,
            )
            &&& decoder_after(d, all, stream) == decode_symbol(mid, last, stream).1
        }),
    decreases symbols.len(),
{
    let all = symbols.push(last);
    if symbols.len() == 0 {
        reveal_with_fuel(decode_all, 2);
        reveal_with_fuel(decoder_after, 2);
        assert(all.drop_first() =~= symbols);
        assert(decode_all(d, all, stream) =~= Seq::empty().push(decode_symbol(d, last, stream).0));
    } else {
        let (bin, next) = decode_symbol(d, symbols[0], stream);
        assert(all.drop_first() =~= symbols.drop_first().push(last));
        assert(all[0] == symbols[0]);
        lemma_decode_last(next, symbols.drop_first(), last, stream);
        assert(decode_all(d, all, stream) =~= decode_all(d, symbols, stream).push(
            decode_symbol(decoder_after(d, symbols, stream), last, stream).0,
        ));
    }
}

/// Bins coded as bypass bins.
pub open spec fn bypass_symbols(bins: Seq<bool>) -> Seq<(Symbol, bool)> {
    bins.map_values(|b: bool| (Symbol::Bypass, b))
}

/// A group of bypass bins codes what its bins code one by one.
pub proof fn law_bypass_group(st: CodeState, bins: Seq<bool>)
    ensures
        code_all(st, bypass_symbols(bins)) == (CodeState {
            interval: code_bypass_bins(st.interval, bins),
            ..st
        }),
    decreases bins.len(),
{
    let all = bypass_symbols(bins);
    if bins.len() > 0 {
        let init = bins.drop_last();
        law_bypass_group(st, init);
        lemma_code_all_last(st, all);
        assert(all.drop_last() =~= bypass_symbols(init));
    }
}

/// The state of a coder that begins behind `written` bits.
pub open spec fn code_start(written: Seq<bool>, contexts: Seq<int>) -> CodeState {
    CodeState {
        interval: CodeInterval {
            low: bits_value(written) * 512,
            range: 510,
            len: written.len() + 9,
        },
        contexts,
    }
}

proof fn lemma_code_all_last(st: CodeState, bins: Seq<(Symbol, bool)>)
    requires
        bins.len() > 0,
    ensures
        code_all(st, bins) == code_symbol(
            code_all(st, bins.drop_last()),
            bins.last().0,
            bins.last().1,
        ),
    decreases bins.len(),
{
    if bins.len() == 1 {
        reveal_with_fuel(code_all, 2);
    } else {
        let next = code_symbol(st, bins[0].0, bins[0].1);
        lemma_code_all_last(next, bins.drop_first());
        assert(bins.drop_first().drop_last() =~= bins.drop_last().drop_first());
        assert(bins.drop_first().last() == bins.last());
        assert(bins.drop_last()[0] == bins[0]);
    }
}

/// Coding keeps the state in shape.
pub proof fn lemma_code_all_ok(st: CodeState, bins: Seq<(Symbol, bool)>)
    requires
        state_ok(st),
        symbols_ok(st.contexts.len(), bins),
    ensures
        state_ok(code_all(st, bins)),
        code_all(st, bins).contexts.len() == st.contexts.len(),
    decreases bins.len(),
{
    if bins.len() > 0 {
        let (sym, bin) = bins[0];
        let rest = bins.drop_first();
        lemma_code_symbol_ok(st, sym, bin);
        assert forall|i: int| 0 <= i < rest.len() implies (#[trigger] rest[i].0 matches Symbol::Context(
            ci,
        ) ==> ci < st.contexts.len()) by {
            assert(rest[i] == bins[i + 1]);
        }
        lemma_code_all_ok(code_symbol(st, sym, bin), rest);
    }
}

/// A finished code decodes to its bins: when the last bin, and no other, terminates the
/// code and all but the last eight bits of the interval's low end have been written, the
/// stop bit behind them selects a code value of the interval. Whatever follows, if anything
/// does, is not read, and the decoder's contexts end as the coder's do.
pub proof fn law_finished_code_decodes(
    before: Seq<bool>,
    contexts: Seq<int>,
    bins: Seq<(Symbol, bool)>,
    written: Seq<bool>,
    after: Seq<bool>,
)
    requires
        state_ok(code_start(before, contexts)),
        bins.len() > 0,
        symbols_ok(contexts.len(), bins),
        runs_on(bins.drop_last()),
        bins.last() == (Symbol::Terminate, true),
        written.len() + 8 == code_all(code_start(before, contexts), bins).interval.len,
        bits_value(written) == code_all(code_start(before, contexts), bins).interval.low / 256,
    ensures
        ({
            let st = code_start(before, contexts);
            let stream = written + seq![true] + after;
            let end = decoder_after(decoder_at(st, stream), symbols_of(bins), stream);
            &&& in_interval(stream, st.interval)
            &&& decode_all(decoder_at(st, stream), symbols_of(bins), stream) == values_of(bins)
            &&& end.contexts == code_all(st, bins).contexts
            &&& end.len == written.len() + 1
        }),
{
    let st = code_start(before, contexts);
    let stream = written + seq![true] + after;
    let init = bins.drop_last();
    let prev = code_all(st, init);
    let end = code_all(st, bins);
    assert(symbols_ok(contexts.len(), init));
    lemma_code_all_ok(st, init);
    lemma_code_all_last(st, bins);
    let rest = (prev.interval.range - 2) as nat;
    let part = CodeInterval { low: prev.interval.low + rest, range: 2, len: prev.interval.len };
    lemma2_to64();
    lemma_renorm_shift(part, 7);
    assert(end.interval.low == part.low * 128 && end.interval.len == part.len + 7);
    assert(stream.take(prev.interval.len as int) =~= written + seq![true]);
    lemma_bits_value_append(written, seq![true]);
    assert(bits_value(seq![true]) == 1) by {
        reveal_with_fuel(bits_value, 2);
        assert(seq![true].drop_last() =~= Seq::<bool>::empty());
    }
    assert(bits_value(written) == part.low / 2);
    assert(prefix_value(stream, prev.interval.len) == bits_value(written) * 2 + 1);
    assert(in_interval(stream, prev.interval));
    law_code_decodes(st, init, stream);
    let d = decoder_at(st, stream);
    assert(symbols_of(bins) =~= symbols_of(init).push(Symbol::Terminate));
    lemma_decode_last(d, symbols_of(init), Symbol::Terminate, stream);
    assert(values_of(bins) =~= values_of(init).push(true));
}

} // verus!
