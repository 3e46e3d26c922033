//! Reading the syntax of coding units back.

use vstd::prelude::*;

use crate::bitstream::be_bits;
use crate::contexts::{INTRA_CHROMA_PRED_MODE, PART_MODE, PREV_INTRA_LUMA_PRED_FLAG};
use crate::items::{
    bin_if, bypass_items, chroma_mode_items, cu_leaf_items, decode_rem, law_luma_rem_decodes,
    leaf_mode_items, lemma_concat_assoc, luma_rem, luma_tail_bits, mpm_distinct, mpm_place,
    nxn_flag_items, nxn_tail_items, tt_items, SyntaxItem,
};
use crate::syntax::{CuLeaf, NxnInfo};
use crate::syntax_read::{
    at, law_transform_tree_reads_back, lemma_read_bin, read_bin, read_bypass, read_tt, tt_regular,
    tt_seen, Cursor, SeenTt,
};

verus! {

/// Reads five bypass bins as a number, the highest first.
pub open spec fn read_five<'a>(c: Cursor<'a>, due: bool) -> (int, Cursor<'a>) {
    let (b0, c0) = read_bypass(c, due);
    let (b1, c1) = read_bypass(c0, due);
    let (b2, c2) = read_bypass(c1, due);
    let (b3, c3) = read_bypass(c2, due);
    let (b4, c4) = read_bypass(c3, due);
    (16 * bit(b0) + 8 * bit(b1) + 4 * bit(b2) + 2 * bit(b3) + bit(b4), c4)
}

pub open spec fn bit(b: bool) -> int {
    if b {
        1
    } else {
        0
    }
}

/// Reads what follows the flag of a luma mode: which of the most probable modes it is, or
/// its rank among the others.
pub open spec fn read_luma_mode<'a>(c: Cursor<'a>, probable: bool, mpm: [u8; 3]) -> (
    int,
    Cursor<'a>,
) {
    if probable {
        let (b0, c0) = read_bypass(c, true);
        let (b1, c1) = read_bypass(c0, b0);
        (
            if !b0 {
                mpm[0] as int
            } else if !b1 {
                mpm[1] as int
            } else {
                mpm[2] as int
            },
            c1,
        )
    } else {
        let (rank, c0) = read_five(c, true);
        (decode_rem(mpm, rank), c0)
    }
}

/// Reads the flags of `n` luma modes.
pub open spec fn read_mode_flags<'a>(c: Cursor<'a>, n: nat) -> (Seq<bool>, Cursor<'a>)
    decreases n,
{
    if n == 0 {
        (Seq::empty(), c)
    } else {
        let (done, c0) = read_mode_flags(c, (n - 1) as nat);
        let (flag, c1) = read_bin(c0, true, PREV_INTRA_LUMA_PRED_FLAG as int);
        (done.push(flag), c1)
    }
}

/// Reads what follows the flags of `n` luma modes.
pub open spec fn read_modes<'a>(c: Cursor<'a>, flags: Seq<bool>, mpms: Seq<[u8; 3]>, n: nat) -> (
    Seq<int>,
    Cursor<'a>,
)
    decreases n,
{
    if n == 0 {
        (Seq::empty(), c)
    } else {
        let (done, c0) = read_modes(c, flags, mpms, (n - 1) as nat);
        let (mode, c1) = read_luma_mode(c0, flags[n - 1], mpms[n - 1]);
        (done.push(mode), c1)
    }
}

/// Reads a chroma mode index: the luma mode's, or one of four.
pub open spec fn read_chroma_mode<'a>(c: Cursor<'a>, due: bool) -> (int, Cursor<'a>) {
    let (other, c0) = read_bin(c, due, INTRA_CHROMA_PRED_MODE as int);
    let (high, c1) = read_bypass(c0, other);
    let (low, c2) = read_bypass(c1, other);
    (
        if other {
            2 * bit(high) + bit(low)
        } else {
            4
        },
        c2,
    )
}

/// What a decoder gets of a coding unit: the luma modes of its one or four parts, the chroma
/// mode index, and the transform tree.
pub struct SeenUnit {
    pub modes: Seq<int>,
    pub chroma: int,
    pub tt: SeenTt,
}

/// Reads a coding unit. `mpms` are the most probable modes of its parts.
pub open spec fn read_unit<'a>(c: Cursor<'a>, log2_size: nat, cat: u8, mpms: Seq<[u8; 3]>) -> (
    SeenUnit,
    Cursor<'a>,
) {
    let (one, c0) = read_bin(c, log2_size == 3, PART_MODE as int);
    let parted = log2_size == 3 && !one;
    let n: nat = if parted {
        4
    } else {
        1
    };
    let (flags, c1) = read_mode_flags(c0, n);
    let (modes, c2) = read_modes(c1, flags, mpms, n);
    let (chroma, c3) = read_chroma_mode(c2, cat != 0);
    let (tt, c4) = read_tt(c3, log2_size, 0, cat, parted, true, true);
    (SeenUnit { modes, chroma, tt }, c4)
}

/// A mode that can be coded next to three most probable ones.
pub open spec fn mode_codable(mpm: [u8; 3], mode: u8) -> bool {
    &&& mpm_distinct(mpm)
    &&& mode <= 34
    &&& mpm[0] <= 34
    &&& mpm[1] <= 34
    &&& mpm[2] <= 34
}

/// The most probable modes of a unit's parts.
pub open spec fn unit_mpms(leaf: &CuLeaf) -> Seq<[u8; 3]> {
    match leaf.nxn {
        Some(nxn) => nxn.mpms@,
        None => seq![leaf.mpm],
    }
}

/// A coding unit that the grammar has.
pub open spec fn unit_regular(leaf: &CuLeaf, log2_size: nat, cat: u8) -> bool {
    &&& 3 <= log2_size <= 6
    &&& leaf.chroma_mode_idx <= 4
    &&& cat == 0 ==> leaf.chroma_mode_idx == 4
    &&& match leaf.nxn {
        Some(nxn) => {
            &&& log2_size == 3
            &&& forall|i: int|
                0 <= i < 4 ==> mode_codable(#[trigger] nxn.mpms[i], nxn.luma_modes[i])
        },
        None => mode_codable(leaf.mpm, leaf.luma_mode),
    }
    &&& tt_regular(&leaf.tt, log2_size, 0, cat, leaf.nxn is Some, true, true)
}

/// A coding unit as a decoder is to see it.
pub open spec fn unit_seen(leaf: &CuLeaf) -> SeenUnit {
    SeenUnit {
        modes: match leaf.nxn {
            Some(nxn) => Seq::new(4, |i: int| nxn.luma_modes[i] as int),
            None => seq![leaf.luma_mode as int],
        },
        chroma: leaf.chroma_mode_idx as int,
        tt: tt_seen(&leaf.tt),
    }
}

proof fn lemma_five_bits(v: nat)
    requires
        v < 32,
    ensures
        ({
            let b = be_bits(5, v);
            &&& b.len() == 5
            &&& 16 * bit(b[0]) + 8 * bit(b[1]) + 4 * bit(b[2]) + 2 * bit(b[3]) + bit(b[4]) == v
        }),
{
    reveal_with_fuel(be_bits, 6);
    let b4 = be_bits(4, v / 2);
    let b3 = be_bits(3, v / 2 / 2);
    let b2 = be_bits(2, v / 2 / 2 / 2);
    let b1 = be_bits(1, v / 2 / 2 / 2 / 2);
    let b = be_bits(5, v);
    assert(b1.len() == 1 && b2.len() == 2 && b3.len() == 3 && b4.len() == 4 && b.len() == 5);
    assert(b2[0] == b1[0]);
    assert(b3[0] == b2[0] && b3[1] == b2[1]);
    assert(b4[0] == b3[0] && b4[1] == b3[1] && b4[2] == b3[2]);
    assert(b[0] == b4[0] && b[1] == b4[1] && b[2] == b4[2] && b[3] == b4[3]);
}

proof fn lemma_mode_read<'a>(mpm: [u8; 3], mode: u8, rest: Seq<SyntaxItem<'a>>)
    requires
        mode_codable(mpm, mode),
    ensures
        read_luma_mode(
            at(bypass_items(luma_tail_bits(mpm, mode)) + rest),
            mpm_place(mpm, mode) < 3,
            mpm,
        ) == (mode as int, at(rest)),
{
    let bits = luma_tail_bits(mpm, mode);
    let all = bypass_items(bits) + rest;
    let place = mpm_place(mpm, mode);
    if place == 0 {
        assert(all.skip(1) =~= rest);
    } else if place < 3 {
        assert(all.skip(1).skip(1) =~= rest);
        assert(all.skip(1)[0] == all[1]);
    } else {
        law_luma_rem_decodes(mpm, mode);
        let v = luma_rem(mpm, mode);
        lemma_five_bits(v);
        let s1 = all.skip(1);
        let s2 = s1.skip(1);
        let s3 = s2.skip(1);
        let s4 = s3.skip(1);
        assert(s1[0] == all[1] && s2[0] == all[2] && s3[0] == all[3] && s4[0] == all[4]);
        assert(s4.skip(1) =~= rest);
        assert(all[0] == SyntaxItem::<'a>::Bypass(bits[0]));
        assert(all[1] == SyntaxItem::<'a>::Bypass(bits[1]));
        assert(all[2] == SyntaxItem::<'a>::Bypass(bits[2]));
        assert(all[3] == SyntaxItem::<'a>::Bypass(bits[3]));
        assert(all[4] == SyntaxItem::<'a>::Bypass(bits[4]));
    }
}

proof fn lemma_chroma_read<'a>(mode_idx: u8, cat: u8, rest: Seq<SyntaxItem<'a>>)
    requires
        mode_idx <= 4,
        cat == 0 ==> mode_idx == 4,
    ensures
        read_chroma_mode(
            at(
                (if cat != 0 {
                    chroma_mode_items(mode_idx)
                } else {
                    Seq::empty()
                }) + rest,
            ),
            cat != 0,
        ) == (mode_idx as int, at(rest)),
{
    let all = (if cat != 0 {
        chroma_mode_items::<'a>(mode_idx)
    } else {
        Seq::empty()
    }) + rest;
    if cat == 0 {
        assert(all =~= rest);
    } else if mode_idx == 4 {
        assert(all.skip(1) =~= rest);
    } else {
        let s1 = all.skip(1);
        let s2 = s1.skip(1);
        assert(s1[0] == all[1] && s2[0] == all[2]);
        assert(s2.skip(1) =~= rest);
        assert(mode_idx == 0 || mode_idx == 1 || mode_idx == 2 || mode_idx == 3);
    }
}

proof fn lemma_nxn_flags_read<'a>(nxn: &NxnInfo, n: nat, rest: Seq<SyntaxItem<'a>>)
    requires
        n <= 4,
    ensures
        read_mode_flags(at(nxn_flag_items(nxn, n) + rest), n) == (
            Seq::new(n, |i: int| mpm_place(nxn.mpms[i], nxn.luma_modes[i]) < 3),
            at(rest),
        ),
    decreases n,
{
    let flags = Seq::new(n, |i: int| mpm_place(nxn.mpms[i], nxn.luma_modes[i]) < 3);
    let all = nxn_flag_items(nxn, n) + rest;
    if n == 0 {
        assert(all =~= rest);
        assert(flags =~= Seq::empty());
    } else {
        let m = (n - 1) as nat;
        let last = seq![
            SyntaxItem::<'a>::Bin(
                PREV_INTRA_LUMA_PRED_FLAG,
                mpm_place(nxn.mpms[n - 1], nxn.luma_modes[n - 1]) < 3,
            ),
        ];
        assert(all =~= nxn_flag_items(nxn, m) + (last + rest));
        lemma_nxn_flags_read(nxn, m, last + rest);
        assert((last + rest).skip(1) =~= rest);
        assert(flags =~= Seq::new(
            m,
            |i: int| mpm_place(nxn.mpms[i], nxn.luma_modes[i]) < 3,
        ).push(flags[n - 1]));
    }
}

proof fn lemma_nxn_modes_read<'a>(
    nxn: &NxnInfo,
    flags: Seq<bool>,
    n: nat,
    rest: Seq<SyntaxItem<'a>>,
)
    requires
        n <= 4,
        flags.len() == 4,
        forall|i: int|
            0 <= i < 4 ==> #[trigger] flags[i] == (mpm_place(nxn.mpms[i], nxn.luma_modes[i]) < 3),
        forall|i: int| 0 <= i < 4 ==> mode_codable(#[trigger] nxn.mpms[i], nxn.luma_modes[i]),
    ensures
        read_modes(at(nxn_tail_items(nxn, n) + rest), flags, nxn.mpms@, n) == (
            Seq::new(n, |i: int| nxn.luma_modes[i] as int),
            at(rest),
        ),
    decreases n,
{
    let modes = Seq::new(n, |i: int| nxn.luma_modes[i] as int);
    if n == 0 {
        assert(nxn_tail_items(nxn, 0) + rest =~= rest);
        assert(modes =~= Seq::empty());
    } else {
        let m = (n - 1) as nat;
        let before = nxn_tail_items(nxn, m);
        let last = bypass_items::<'a>(luma_tail_bits(nxn.mpms[n - 1], nxn.luma_modes[n - 1]));
        lemma_concat_assoc(before, last, rest);
        lemma_nxn_modes_read(nxn, flags, m, last + rest);
        assert(mode_codable(nxn.mpms[n - 1], nxn.luma_modes[n - 1]));
        assert(nxn.mpms@[n - 1] == nxn.mpms[n - 1]);
        assert(flags[n - 1] == (mpm_place(nxn.mpms[n - 1], nxn.luma_modes[n - 1]) < 3));
        lemma_mode_read(nxn.mpms[n - 1], nxn.luma_modes[n - 1], rest);
        assert(modes =~= Seq::new(m, |i: int| nxn.luma_modes[i] as int).push(
            nxn.luma_modes[n - 1] as int,
        ));
    }
}

/// The syntax of a coding unit reads back as the unit: its partition, the luma mode of each
/// part, the chroma mode and the transform tree.
pub proof fn law_coding_unit_reads_back<'a>(
    leaf: &'a CuLeaf,
    log2_size: u8,
    cat: u8,
    rest: Seq<SyntaxItem<'a>>,
)
    requires
        unit_regular(leaf, log2_size as nat, cat),
    ensures
        read_unit(
            at(cu_leaf_items(leaf, log2_size, cat) + rest),
            log2_size as nat,
            cat,
            unit_mpms(leaf),
        ) == (unit_seen(leaf), at(rest)),
{
    let modes = leaf_mode_items(leaf, log2_size);
    let chroma = if cat != 0 {
        chroma_mode_items::<'a>(leaf.chroma_mode_idx)
    } else {
        Seq::empty()
    };
    let parted = leaf.nxn is Some;
    let tree = tt_items(&leaf.tt, cat, parted, true, true);
    assert(modes + chroma + tree + rest =~= modes + (chroma + (tree + rest)));
    let tail = chroma + (tree + rest);
    lemma_chroma_read(leaf.chroma_mode_idx, cat, tree + rest);
    law_transform_tree_reads_back(&leaf.tt, log2_size as nat, 0, cat, parted, true, true, rest);
    match leaf.nxn {
        Some(nxn) => {
            let part = seq![SyntaxItem::<'a>::Bin(PART_MODE, false)];
            let flags = nxn_flag_items(&nxn, 4);
            let tails = nxn_tail_items(&nxn, 4);
            assert(modes + tail =~= part + (flags + (tails + tail)));
            assert((part + (flags + (tails + tail))).skip(1) =~= flags + (tails + tail));
            lemma_nxn_flags_read(&nxn, 4, tails + tail);
            let seen = Seq::new(4, |i: int| mpm_place(nxn.mpms[i], nxn.luma_modes[i]) < 3);
            lemma_nxn_modes_read(&nxn, seen, 4, tail);
        },
        None => {
            let part = bin_if::<'a>(log2_size == 3, PART_MODE as int, true);
            let place = mpm_place(leaf.mpm, leaf.luma_mode) < 3;
            let flag = seq![SyntaxItem::<'a>::Bin(PREV_INTRA_LUMA_PRED_FLAG, place)];
            let bits = bypass_items::<'a>(luma_tail_bits(leaf.mpm, leaf.luma_mode));
            assert(modes + tail =~= part + (flag + (bits + tail)));
            lemma_read_bin(log2_size == 3, PART_MODE as int, true, flag + (bits + tail));
            assert((flag + (bits + tail)).skip(1) =~= bits + tail);
            lemma_mode_read(leaf.mpm, leaf.luma_mode, tail);
            reveal_with_fuel(read_mode_flags, 2);
            reveal_with_fuel(read_modes, 2);
            let c1 = at(bits + tail);
            assert(read_mode_flags(at(flag + (bits + tail)), 1) == (
                Seq::<bool>::empty().push(place),
                c1,
            ));
            let flags = Seq::<bool>::empty().push(place);
            let mpms = unit_mpms(leaf);
            assert(flags[0] == place && mpms[0] == leaf.mpm);
            assert(read_modes(c1, flags, mpms, 1) == (
                Seq::<int>::empty().push(leaf.luma_mode as int),
                at(tail),
            ));
            assert(Seq::<int>::empty().push(leaf.luma_mode as int) =~= seq![
                leaf.luma_mode as int,
            ]);
        },
    }
}

} // verus!
