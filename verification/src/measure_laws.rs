//! What holds of the measurements of a pass: every coded level, every bit and every sample
//! counts once, in the group that it lies in.

use vstd::prelude::*;

use crate::frame::Plane;
use crate::geometry::side;
use crate::measure::{
    cu_coded_at, group_sse, group_sum, leaf_coded, level_energy, parent_coded, total_sum,
    trees_coded, tt_coded, tt_kids_coded, cu_kids_coded_at, Coded, QgActivity,
};
use crate::syntax::{CodedBlock, CuNode, LeafTu, ParentChromaTu, Tt};

verus! {

/// The size of a level, whatever its sign.
pub open spec fn size_of(level: i16) -> int {
    if level >= 0 {
        level as int
    } else {
        0 - level
    }
}

/// A level counts by its size, and only once: exchanging one level moves the energy by the
/// difference of the sizes. Levels that are all zero have none.
pub proof fn law_every_level_counts_once(levels: Seq<i16>, n: nat, i: int, v: i16)
    requires
        0 <= i < n <= levels.len(),
    ensures
        level_energy(levels.update(i, v), n) - level_energy(levels, n) == size_of(v) - size_of(
            levels[i],
        ),
        (forall|j: int| 0 <= j < n ==> #[trigger] levels[j] == 0) ==> level_energy(levels, n) == 0,
    decreases n,
{
    if i < n - 1 {
        law_every_level_counts_once(levels, (n - 1) as nat, i, v);
    } else {
        lemma_same_energy(levels, levels.update(i, v), (n - 1) as nat);
        if n > 1 {
            law_every_level_counts_once(levels, (n - 1) as nat, 0, v);
        }
    }
}

proof fn lemma_same_energy(a: Seq<i16>, b: Seq<i16>, n: nat)
    requires
        n <= a.len(),
        n <= b.len(),
        forall|i: int| 0 <= i < n ==> a[i] == b[i],
    ensures
        level_energy(a, n) == level_energy(b, n),
    decreases n,
{
    if n > 0 {
        lemma_same_energy(a, b, (n - 1) as nat);
    }
}

/// What exchanging one block for another adds.
pub open spec fn moved(before: Coded, after: Coded, old_block: &CodedBlock, block: &CodedBlock) -> bool {
    &&& after.x == before.x && after.y == before.y
    &&& after.energy - before.energy == level_energy(block.levels@, block.levels@.len())
        - level_energy(old_block.levels@, old_block.levels@.len())
    &&& after.bits - before.bits == block.frac_bits - old_block.frac_bits
}

/// Each of the five blocks of a leaf counts once, with its levels and its bits: exchanging
/// one of them moves what the leaf codes by the difference. The leaf counts at its corner,
/// and five blocks without levels or bits are nothing.
pub proof fn law_every_block_of_a_leaf_counts(l: LeafTu, b: CodedBlock, x: int, y: int)
    ensures
        leaf_coded(&l, x, y).x == x && leaf_coded(&l, x, y).y == y,
        moved(leaf_coded(&l, x, y), leaf_coded(&LeafTu { luma: b, ..l }, x, y), &l.luma, &b),
        moved(leaf_coded(&l, x, y), leaf_coded(&LeafTu { cb: b, ..l }, x, y), &l.cb, &b),
        moved(leaf_coded(&l, x, y), leaf_coded(&LeafTu { cr: b, ..l }, x, y), &l.cr, &b),
        moved(leaf_coded(&l, x, y), leaf_coded(&LeafTu { cb1: b, ..l }, x, y), &l.cb1, &b),
        moved(leaf_coded(&l, x, y), leaf_coded(&LeafTu { cr1: b, ..l }, x, y), &l.cr1, &b),
        b.levels@.len() == 0 && b.frac_bits == 0 ==> {
            let none = leaf_coded(
                &LeafTu { luma: b, cb: b, cr: b, cb1: b, cr1: b, ..l },
                x,
                y,
            );
            none.energy == 0 && none.bits == 0
        },
{
}

/// Both blocks of chroma that is coded behind four luma blocks count once, at the corner
/// of the four.
pub proof fn law_every_block_behind_luma_counts(c: ParentChromaTu, b: CodedBlock, x: int, y: int)
    ensures
        parent_coded(&None, x, y).len() == 0,
        parent_coded(&Some(c), x, y).len() == 1,
        parent_coded(&Some(c), x, y)[0].x == x && parent_coded(&Some(c), x, y)[0].y == y,
        moved(
            parent_coded(&Some(c), x, y)[0],
            parent_coded(&Some(ParentChromaTu { cb: b, ..c }), x, y)[0],
            &c.cb,
            &b,
        ),
        moved(
            parent_coded(&Some(c), x, y)[0],
            parent_coded(&Some(ParentChromaTu { cr: b, ..c }), x, y)[0],
            &c.cr,
            &b,
        ),
{
}

/// A split transform tree codes what its quadrants code, each at its own corner: top left,
/// top right, bottom left, bottom right, and then its own chroma.
pub proof fn law_split_tree_codes_its_quadrants(tt: &Tt, x: int, y: int)
    requires
        tt is Split,
        tt->kids@.len() == 4,
    ensures
        ({
            let h = side(tt->Split_log2_size) / 2;
            let k = tt->kids@;
            tt_coded(tt, x, y) == tt_coded(&k[0], x, y) + tt_coded(&k[1], x + h, y) + tt_coded(
                &k[2],
                x,
                y + h,
            ) + tt_coded(&k[3], x + h, y + h) + parent_coded(&tt->parent_chroma, x, y)
        }),
{
    let h = side(tt->Split_log2_size) / 2;
    let k = tt->kids@;
    reveal_with_fuel(tt_kids_coded, 5);
    assert(0 * h == 0) by (nonlinear_arith);
    assert(1 * h == h) by (nonlinear_arith);
    assert(tt_kids_coded(k, x, y, h, 4) =~= tt_coded(&k[0], x, y) + tt_coded(&k[1], x + h, y)
        + tt_coded(&k[2], x, y + h) + tt_coded(&k[3], x + h, y + h));
}

/// A split coding unit inside the picture codes what its quadrants code, each at its own
/// corner and one size smaller.
pub proof fn law_split_unit_codes_its_quadrants(
    node: &CuNode,
    width: int,
    height: int,
    x: int,
    y: int,
    log2_size: u8,
)
    requires
        node is Split,
        node->kids@.len() == 4,
        log2_size >= 1,
        x + side(log2_size) / 2 < width,
        y + side(log2_size) / 2 < height,
    ensures
        ({
            let h = side(log2_size) / 2;
            let k = node->kids@;
            let s = (log2_size - 1) as u8;
            cu_coded_at(node, width, height, x, y, log2_size) == cu_coded_at(
                &k[0],
                width,
                height,
                x,
                y,
                s,
            ) + cu_coded_at(&k[1], width, height, x + h, y, s) + cu_coded_at(
                &k[2],
                width,
                height,
                x,
                y + h,
                s,
            ) + cu_coded_at(&k[3], width, height, x + h, y + h, s)
        }),
{
    let h = side(log2_size) / 2;
    let k = node->kids@;
    let s = (log2_size - 1) as u8;
    let places = crate::geometry::kid_positions(x, y, h, width, height);
    assert(places =~= seq![(x, y), (x + h, y), (x, y + h), (x + h, y + h)]);
    reveal_with_fuel(cu_kids_coded_at, 5);
    assert(cu_kids_coded_at(k, width, height, places, 4, s) =~= cu_coded_at(
        &k[0],
        width,
        height,
        x,
        y,
        s,
    ) + cu_coded_at(&k[1], width, height, x + h, y, s) + cu_coded_at(
        &k[2],
        width,
        height,
        x,
        y + h,
        s,
    ) + cu_coded_at(&k[3], width, height, x + h, y + h, s));
}

/// The trees of a picture stand in rows of as many 64x64 blocks as it takes to span its
/// width: one more tree adds what it codes at its own place. A tree that is missing adds
/// nothing.
pub proof fn law_trees_stand_in_rows(
    trees: Seq<Option<CuNode>>,
    width: int,
    height: int,
    column: int,
    row: int,
    across: int,
)
    requires
        width > 0,
        width <= across * 64 < width + 64,
        0 <= column < across,
        0 <= row,
        row * across + column < trees.len(),
    ensures
        ({
            let n = row * across + column;
            trees_coded(trees, width, height, (n + 1) as nat) == trees_coded(
                trees,
                width,
                height,
                n as nat,
            ) + match trees[n] {
                Some(node) => cu_coded_at(&node, width, height, column * 64, row * 64, 6),
                None => Seq::empty(),
            }
        }),
{
    let n = row * across + column;
    assert(row * across >= 0) by (nonlinear_arith)
        requires
            row >= 0,
            across > 0,
    ;
    assert((width + 63) / 64 == across);
    vstd::arithmetic::div_mod::lemma_fundamental_div_mod_converse(n, across, row, column);
}

/// A block adds its energy and its bits to the group of 32x32 samples that it begins in,
/// and nothing to any other.
pub proof fn law_block_goes_to_its_group(
    before: QgActivity,
    after: QgActivity,
    coded: Seq<Coded>,
    c: Coded,
    width: int,
    height: int,
    across: int,
    i: int,
)
    requires
        before.holds(coded, width, height),
        after.holds(coded.push(c), width, height),
        width > 0,
        width <= across * 32 < width + 32,
        0 <= c.x < width,
        0 <= c.y < height,
        0 <= i < before.energy@.len(),
    ensures
        i == (c.y / 32) * across + c.x / 32 ==> after.energy@[i] == before.energy@[i] + c.energy
            && after.frac_bits@[i] == before.frac_bits@[i] + c.bits,
        i != (c.y / 32) * across + c.x / 32 ==> after.energy@[i] == before.energy@[i]
            && after.frac_bits@[i] == before.frac_bits@[i],
        before.cells_x == across,
{
    assert(coded.push(c).drop_last() =~= coded);
    assert((width + 31) / 32 == across);
    assert(before.energy@[i] == group_sum(coded, width, height, i).0);
    assert(before.frac_bits@[i] == group_sum(coded, width, height, i).1);
    assert(after.energy@[i] == group_sum(coded.push(c), width, height, i).0);
    assert(after.frac_bits@[i] == group_sum(coded.push(c), width, height, i).1);
}

/// What the first `n` of some numbers add up to.
pub open spec fn added(v: Seq<u64>, n: nat) -> int
    decreases n,
{
    if n == 0 {
        0
    } else {
        added(v, (n - 1) as nat) + v[n - 1]
    }
}

/// The blocks lie in the picture.
pub open spec fn all_inside(coded: Seq<Coded>, width: int, height: int) -> bool {
    forall|i: int|
        0 <= i < coded.len() ==> 0 <= (#[trigger] coded[i]).x < width && 0 <= coded[i].y < height
}

/// The groups share out everything that is coded in the picture.
pub proof fn law_groups_share_everything(
    a: QgActivity,
    coded: Seq<Coded>,
    width: int,
    height: int,
)
    requires
        a.holds(coded, width, height),
        all_inside(coded, width, height),
        width > 0,
        height > 0,
    ensures
        added(a.energy@, a.energy@.len()) == total_sum(coded).0,
        added(a.frac_bits@, a.frac_bits@.len()) == total_sum(coded).1,
{
    let n = a.energy@.len();
    lemma_added(a.energy@, coded, width, height, n, true);
    lemma_added(a.frac_bits@, coded, width, height, n, false);
    lemma_shared(coded, width, height, n);
}

/// What the first `n` groups get of a list.
spec fn shares(coded: Seq<Coded>, width: int, height: int, n: nat) -> (int, int)
    decreases n,
{
    if n == 0 {
        (0, 0)
    } else {
        let before = shares(coded, width, height, (n - 1) as nat);
        let last = group_sum(coded, width, height, n - 1);
        (before.0 + last.0, before.1 + last.1)
    }
}

proof fn lemma_added(
    v: Seq<u64>,
    coded: Seq<Coded>,
    width: int,
    height: int,
    n: nat,
    first: bool,
)
    requires
        n <= v.len(),
        forall|i: int|
            0 <= i < v.len() ==> #[trigger] v[i] == if first {
                group_sum(coded, width, height, i).0
            } else {
                group_sum(coded, width, height, i).1
            },
    ensures
        added(v, n) == if first {
            shares(coded, width, height, n).0
        } else {
            shares(coded, width, height, n).1
        },
    decreases n,
{
    if n > 0 {
        lemma_added(v, coded, width, height, (n - 1) as nat, first);
        assert(v[n - 1] == v[n - 1]);
    }
}

proof fn lemma_shared(coded: Seq<Coded>, width: int, height: int, n: nat)
    requires
        all_inside(coded, width, height),
        width > 0,
        height > 0,
        n == crate::measure::qg_cells(width) * crate::measure::qg_cells(height),
    ensures
        shares(coded, width, height, n) == total_sum(coded),
    decreases coded.len(),
{
    if coded.len() == 0 {
        lemma_no_shares(coded, width, height, n);
    } else {
        let c = coded.last();
        assert(c == coded[coded.len() - 1]);
        assert(all_inside(coded.drop_last(), width, height)) by {
            assert forall|i: int| 0 <= i < coded.drop_last().len() implies 0 <= (
            #[trigger] coded.drop_last()[i]).x < width && 0 <= coded.drop_last()[i].y
                < height by {
                assert(coded.drop_last()[i] == coded[i]);
            }
        }
        lemma_shared(coded.drop_last(), width, height, n);
        let (a, b) = (crate::measure::qg_cells(width), crate::measure::qg_cells(height));
        let (gx, gy) = (c.x / 32, c.y / 32);
        assert(0 <= gx < a);
        assert(0 <= gy < b);
        assert(0 <= gy * a + gx < a * b) by (nonlinear_arith)
            requires
                0 <= gx < a,
                0 <= gy < b,
        ;
        lemma_one_share(coded, width, height, n, gy * a + gx);
    }
}

proof fn lemma_no_shares(coded: Seq<Coded>, width: int, height: int, n: nat)
    requires
        coded.len() == 0,
    ensures
        shares(coded, width, height, n) == (0int, 0int),
    decreases n,
{
    if n > 0 {
        lemma_no_shares(coded, width, height, (n - 1) as nat);
    }
}

proof fn lemma_one_share(coded: Seq<Coded>, width: int, height: int, n: nat, idx: int)
    requires
        coded.len() > 0,
        0 <= coded.last().x < width,
        0 <= coded.last().y < height,
        idx == crate::measure::qg_index(width, height, coded.last().x, coded.last().y),
        0 <= idx,
    ensures
        shares(coded, width, height, n) == {
            let before = shares(coded.drop_last(), width, height, n);
            if idx < n {
                (before.0 + coded.last().energy, before.1 + coded.last().bits)
            } else {
                before
            }
        },
    decreases n,
{
    if n > 0 {
        lemma_one_share(coded, width, height, (n - 1) as nat, idx);
    }
}

/// A sample's error counts once, in the group of 32x32 samples that it lies in: exchanging
/// one source sample moves that group's error by the difference of the squares, and no
/// other group's. Where source and plane agree there is no error.
pub proof fn law_every_error_counts_once(
    src: Seq<u16>,
    plane: &Plane,
    width: int,
    height: int,
    across: int,
    idx: int,
    n: nat,
    x: int,
    y: int,
    v: u16,
)
    requires
        width > 0,
        width <= across * 32 < width + 32,
        0 <= x < width,
        0 <= y,
        y * width + x < n <= src.len(),
    ensures
        ({
            let k = y * width + x;
            let p = plane.data@[y * plane.stride + x];
            let moved = group_sse(src.update(k, v), plane, width, height, idx, n) - group_sse(
                src,
                plane,
                width,
                height,
                idx,
                n,
            );
            if (y / 32) * across + x / 32 == idx {
                moved == (v - p) * (v - p) - (src[k] - p) * (src[k] - p)
            } else {
                moved == 0
            }
        }),
        (forall|k: int|
            0 <= k < n ==> #[trigger] src[k] == plane.data@[(k / width) * plane.stride + k
                % width]) ==> group_sse(src, plane, width, height, idx, n) == 0,
    decreases n,
{
    let k = y * width + x;
    assert(k >= 0) by (nonlinear_arith)
        requires
            k == y * width + x,
            y >= 0,
            width > 0,
            x >= 0,
    ;
    vstd::arithmetic::div_mod::lemma_fundamental_div_mod_converse(k, width, y, x);
    assert((width + 31) / 32 == across);
    if (forall|k: int|
        0 <= k < n ==> #[trigger] src[k] == plane.data@[(k / width) * plane.stride + k % width]) {
        lemma_no_error(src, plane, width, height, idx, n);
    }
    let p = plane.data@[y * plane.stride + x];
    let (d, e) = (v - p, src[k] - p);
    assert(d * d >= 0) by (nonlinear_arith);
    assert(e * e >= 0) by (nonlinear_arith);
    if k < n - 1 {
        law_every_error_counts_once(
            src,
            plane,
            width,
            height,
            across,
            idx,
            (n - 1) as nat,
            x,
            y,
            v,
        );
    } else {
        lemma_same_sse(src, src.update(k, v), plane, width, height, idx, (n - 1) as nat);
    }
}

proof fn lemma_no_error(
    src: Seq<u16>,
    plane: &Plane,
    width: int,
    height: int,
    idx: int,
    n: nat,
)
    requires
        forall|k: int|
            0 <= k < n ==> #[trigger] src[k] == plane.data@[(k / width) * plane.stride + k
                % width],
    ensures
        group_sse(src, plane, width, height, idx, n) == 0,
    decreases n,
{
    if n > 0 {
        lemma_no_error(src, plane, width, height, idx, (n - 1) as nat);
        assert(src[n - 1] == src[n - 1]);
        assert(0int * 0 == 0);
    }
}

proof fn lemma_same_sse(
    a: Seq<u16>,
    b: Seq<u16>,
    plane: &Plane,
    width: int,
    height: int,
    idx: int,
    n: nat,
)
    requires
        n <= a.len(),
        n <= b.len(),
        forall|i: int| 0 <= i < n ==> a[i] == b[i],
    ensures
        group_sse(a, plane, width, height, idx, n) == group_sse(b, plane, width, height, idx, n),
    decreases n,
{
    if n > 0 {
        lemma_same_sse(a, b, plane, width, height, idx, (n - 1) as nat);
    }
}

} // verus!
