//! Measurements of a finished pass: what was coded, and how far it is from the source, per
//! quantisation group.

use vstd::prelude::*;

use crate::final_code::{quadrant, square_ok};
use crate::frame::Plane;
use crate::geometry::{
    block_side, cu_kid_positions, kid_positions, positions_view, side, CTB_LOG2,
};
use crate::leaf_eval::level_abs;
use crate::math::{ceil_div, ceil_div_u32, max_int};
use crate::source::square;
use crate::syntax::{CodedBlock, CuNode, LeafTu, ParentChromaTu, Tt};
use crate::tu_search::tt_shaped;
use crate::write::lemma_half_side;

verus! {

/// The side of a quantisation group.
pub const QG_SIZE: u32 = 32;

/// The side of a coding tree block.
pub const CTB_SIZE: u32 = 64;

/// What coded blocks at a position add: the sum of their levels' magnitudes, and their
/// bits.
pub struct Coded {
    pub x: int,
    pub y: int,
    pub energy: int,
    pub bits: int,
}

/// The sum of the magnitudes of the first `n` levels.
pub open spec fn level_energy(levels: Seq<i16>, n: nat) -> int
    decreases n,
{
    if n == 0 {
        0
    } else {
        level_energy(levels, (n - 1) as nat) + level_abs(levels[n - 1])
    }
}

pub open spec fn block_energy(b: &CodedBlock) -> int {
    level_energy(b.levels@, b.levels@.len())
}

/// What a leaf codes.
pub open spec fn leaf_coded(l: &LeafTu, x: int, y: int) -> Coded {
    Coded {
        x,
        y,
        energy: block_energy(&l.luma) + block_energy(&l.cb) + block_energy(&l.cr) + block_energy(
            &l.cb1,
        ) + block_energy(&l.cr1),
        bits: l.luma.frac_bits + l.cb.frac_bits + l.cr.frac_bits + l.cb1.frac_bits
            + l.cr1.frac_bits,
    }
}

/// What a split node itself codes.
pub open spec fn parent_coded(pc: &Option<ParentChromaTu>, x: int, y: int) -> Seq<Coded> {
    match pc {
        Some(c) => seq![
            Coded {
                x,
                y,
                energy: block_energy(&c.cb) + block_energy(&c.cr),
                bits: c.cb.frac_bits + c.cr.frac_bits,
            },
        ],
        None => Seq::empty(),
    }
}

/// What a transform tree codes: every transform block, at its unit's corner.
pub open spec fn tt_coded(tt: &Tt, x: int, y: int) -> Seq<Coded>
    decreases tt, 0nat,
{
    match tt {
        Tt::Leaf(l) => seq![leaf_coded(l, x, y)],
        Tt::Split { log2_size, parent_chroma, kids, .. } => tt_kids_coded(
            kids@,
            x,
            y,
            side(*log2_size) / 2,
            kids@.len(),
        ) + parent_coded(parent_chroma, x, y),
    }
}

pub open spec fn tt_kids_coded(kids: Seq<Tt>, x: int, y: int, half: int, n: nat) -> Seq<Coded>
    decreases kids, n,
{
    if n == 0 || n > kids.len() {
        Seq::empty()
    } else {
        let (kx, ky) = quadrant(x, y, half, n - 1);
        tt_kids_coded(kids, x, y, half, (n - 1) as nat) + tt_coded(&kids[n - 1], kx, ky)
    }
}

/// What a quadtree codes: its units in order, at the quadrants that begin in the picture.
pub open spec fn cu_coded_at(
    node: &CuNode,
    width: int,
    height: int,
    x: int,
    y: int,
    log2_size: u8,
) -> Seq<Coded>
    decreases node, 0nat,
{
    match node {
        CuNode::Leaf(leaf) => tt_coded(&leaf.tt, x, y),
        CuNode::Split { kids } => {
            let places = kid_positions(x, y, side(log2_size) / 2, width, height);
            cu_kids_coded_at(
                kids@,
                width,
                height,
                places,
                places.len(),
                (log2_size - 1) as u8,
            )
        },
    }
}

pub open spec fn cu_kids_coded_at(
    kids: Seq<CuNode>,
    width: int,
    height: int,
    places: Seq<(int, int)>,
    n: nat,
    log2_size: u8,
) -> Seq<Coded>
    decreases kids, n,
{
    if n == 0 || n > kids.len() {
        Seq::empty()
    } else {
        cu_kids_coded_at(kids, width, height, places, (n - 1) as nat, log2_size) + cu_coded_at(
            &kids[n - 1],
            width,
            height,
            places[n - 1].0,
            places[n - 1].1,
            log2_size,
        )
    }
}

/// What the first `n` trees of a picture code. A tree that is missing codes nothing.
pub open spec fn trees_coded(
    trees: Seq<Option<CuNode>>,
    width: int,
    height: int,
    n: nat,
) -> Seq<Coded>
    decreases n,
{
    if n == 0 {
        Seq::empty()
    } else {
        let across = ceil_div(width, CTB_SIZE as int);
        trees_coded(trees, width, height, (n - 1) as nat) + match trees[n - 1] {
            Some(node) => cu_coded_at(
                &node,
                width,
                height,
                ((n - 1) % across) * CTB_SIZE,
                ((n - 1) / across) * CTB_SIZE,
                CTB_LOG2,
            ),
            None => Seq::empty(),
        }
    }
}

/// The groups of a picture, across and down: at least one.
pub open spec fn qg_cells(v: int) -> int {
    max_int(ceil_div(v, QG_SIZE as int), 1)
}

/// The group that holds a sample.
pub open spec fn qg_index(width: int, height: int, x: int, y: int) -> int {
    (y / QG_SIZE as int) * qg_cells(width) + x / QG_SIZE as int
}

/// What a group gets of a list of coded blocks: energy and bits of those that begin in it.
pub open spec fn group_sum(
    coded: Seq<Coded>,
    width: int,
    height: int,
    idx: int,
) -> (int, int)
    decreases coded.len(),
{
    if coded.len() == 0 {
        (0, 0)
    } else {
        let c = coded.last();
        let before = group_sum(coded.drop_last(), width, height, idx);
        if c.x < width && c.y < height && qg_index(width, height, c.x, c.y) == idx {
            (before.0 + c.energy, before.1 + c.bits)
        } else {
            before
        }
    }
}

/// The energy and bits of all blocks of a list.
pub open spec fn total_sum(coded: Seq<Coded>) -> (int, int)
    decreases coded.len(),
{
    if coded.len() == 0 {
        (0, 0)
    } else {
        let before = total_sum(coded.drop_last());
        (before.0 + coded.last().energy, before.1 + coded.last().bits)
    }
}

/// Every block of a list adds no less than nothing.
pub open spec fn all_positive(coded: Seq<Coded>) -> bool {
    forall|i: int|
        0 <= i < coded.len() ==> (#[trigger] coded[i]).energy >= 0 && coded[i].bits >= 0
            && coded[i].x >= 0 && coded[i].y >= 0
}

proof fn lemma_group_below(coded: Seq<Coded>, width: int, height: int, idx: int)
    requires
        all_positive(coded),
    ensures
        0 <= group_sum(coded, width, height, idx).0 <= total_sum(coded).0,
        0 <= group_sum(coded, width, height, idx).1 <= total_sum(coded).1,
    decreases coded.len(),
{
    if coded.len() > 0 {
        assert(all_positive(coded.drop_last()));
        assert(coded.last() == coded[coded.len() - 1]);
        lemma_group_below(coded.drop_last(), width, height, idx);
    }
}

proof fn lemma_group_append(a: Seq<Coded>, b: Seq<Coded>, width: int, height: int, idx: int)
    ensures
        group_sum(a + b, width, height, idx) == (
            group_sum(a, width, height, idx).0 + group_sum(b, width, height, idx).0,
            group_sum(a, width, height, idx).1 + group_sum(b, width, height, idx).1,
        ),
        total_sum(a + b) == (
            total_sum(a).0 + total_sum(b).0,
            total_sum(a).1 + total_sum(b).1,
        ),
    decreases b.len(),
{
    if b.len() == 0 {
        assert(a + b =~= a);
    } else {
        assert((a + b).drop_last() =~= a + b.drop_last());
        assert((a + b).last() == b.last());
        lemma_group_append(a, b.drop_last(), width, height, idx);
    }
}

/// Per group: the energy and the bits that a pass coded, in fractional bits.
pub struct QgActivity {
    pub cells_x: u32,
    pub cells_y: u32,
    pub energy: Vec<u64>,
    pub frac_bits: Vec<u64>,
}

impl QgActivity {
    /// The sums are those of a list of coded blocks.
    pub open spec fn holds(&self, coded: Seq<Coded>, width: int, height: int) -> bool {
        &&& self.cells_x == qg_cells(width)
        &&& self.cells_y == qg_cells(height)
        &&& self.energy@.len() == self.cells_x * self.cells_y
        &&& self.frac_bits@.len() == self.cells_x * self.cells_y
        &&& forall|i: int|
            0 <= i < self.energy@.len() ==> #[trigger] self.energy@[i] == group_sum(
                coded,
                width,
                height,
                i,
            ).0
        &&& forall|i: int|
            0 <= i < self.frac_bits@.len() ==> #[trigger] self.frac_bits@[i] == group_sum(
                coded,
                width,
                height,
                i,
            ).1
    }
}

/// A list stays within range when more is added.
spec fn room(coded: Seq<Coded>, more: Seq<Coded>) -> bool {
    &&& all_positive(coded)
    &&& all_positive(more)
    &&& total_sum(coded + more).0 <= u64::MAX
    &&& total_sum(coded + more).1 <= u64::MAX
}

proof fn lemma_qg_index(width: int, height: int, x: int, y: int)
    requires
        0 <= x < width,
        0 <= y < height,
    ensures
        0 <= x / 32 < qg_cells(width),
        0 <= y / 32 < qg_cells(height),
        0 <= qg_index(width, height, x, y) < qg_cells(width) * qg_cells(height),
{
    let (cx, cy, nx, ny) = (x / 32, y / 32, qg_cells(width), qg_cells(height));
    assert(cx < nx && cy < ny);
    assert(0 <= cy * nx + cx < nx * ny) by (nonlinear_arith)
        requires
            0 <= cx < nx,
            0 <= cy < ny,
    ;
}

fn note_coded(
    out: &mut QgActivity,
    Ghost(coded): Ghost<Seq<Coded>>,
    width: u32,
    height: u32,
    x: u32,
    y: u32,
    energy: u64,
    bits: u64,
)
    requires
        old(out).holds(coded, width as int, height as int),
        all_positive(coded),
        total_sum(coded).0 + energy <= u64::MAX,
        total_sum(coded).1 + bits <= u64::MAX,
        old(out).cells_x * old(out).cells_y <= u32::MAX,
    ensures
        final(out).holds(
            coded.push(
                (Coded { x: x as int, y: y as int, energy: energy as int, bits: bits as int }),
            ),
            width as int,
            height as int,
        ),
        final(out).cells_x == old(out).cells_x,
        final(out).cells_y == old(out).cells_y,
{
    let ghost c = Coded { x: x as int, y: y as int, energy: energy as int, bits: bits as int };
    let ghost all = coded.push(c);
    let ghost (w, h) = (width as int, height as int);
    proof {
        assert(all.drop_last() =~= coded);
        assert(all.last() == c);
    }
    if x < width && y < height {
        proof {
            lemma_qg_index(w, h, x as int, y as int);
            let (cy, nx) = (y as int / 32, out.cells_x as int);
            assert(0 <= cy * nx) by (nonlinear_arith)
                requires
                    cy >= 0,
                    nx >= 0,
            ;
        }
        let idx: usize = ((y / QG_SIZE) * out.cells_x + x / QG_SIZE) as usize;
        proof {
            lemma_group_below(coded, w, h, idx as int);
        }
        let e: u64 = out.energy[idx] + energy;
        out.energy.set(idx, e);
        let b: u64 = out.frac_bits[idx] + bits;
        out.frac_bits.set(idx, b);
    }
}

/// The sum of a block's level magnitudes.
pub fn sum_levels(levels: &Vec<i16>) -> (e: u64)
    requires
        levels@.len() <= 0x1_0000_0000,
    ensures
        e == level_energy(levels@, levels@.len()),
        e <= levels@.len() * 32768,
{
    let n: usize = levels.len();
    let mut e: u64 = 0;
    for i in 0..n
        invariant
            n == levels@.len(),
            n <= 0x1_0000_0000,
            e == level_energy(levels@, i as nat),
            e <= i * 32768,
    {
        let l: i16 = levels[i];
        let abs: u64 = if l < 0 {
            (-(l as i64)) as u64
        } else {
            l as u64
        };
        e = e + abs;
    }
    e
}

/// A block's levels and bits stay within range.
pub open spec fn block_counts_ok(b: &CodedBlock) -> bool {
    b.levels@.len() <= 0x1_0000_0000 && b.frac_bits <= 0x1000_0000_0000_0000
}

pub open spec fn leaf_counts_ok(l: &LeafTu) -> bool {
    block_counts_ok(&l.luma) && block_counts_ok(&l.cb) && block_counts_ok(&l.cr)
        && block_counts_ok(&l.cb1) && block_counts_ok(&l.cr1)
}

/// The blocks of a tree stay within range.
pub open spec fn tt_counts_ok(tt: &Tt) -> bool
    decreases tt,
{
    match tt {
        Tt::Leaf(l) => leaf_counts_ok(l),
        Tt::Split { parent_chroma, kids, .. } => {
            &&& parent_chroma matches Some(c) ==> block_counts_ok(&c.cb) && block_counts_ok(&c.cr)
            &&& forall|i: int| 0 <= i < kids@.len() ==> tt_counts_ok(&#[trigger] kids@[i])
        },
    }
}

/// A quadtree whose trees halve their units, with a child for each quadrant in the
/// picture.
pub open spec fn cu_counts_ok(
    node: &CuNode,
    width: int,
    height: int,
    x: int,
    y: int,
    log2_size: u8,
) -> bool
    decreases node,
{
    &&& log2_size <= 6
    &&& square_ok(x, y, log2_size)
    &&& match node {
        CuNode::Leaf(leaf) => tt_shaped(&leaf.tt, log2_size) && tt_counts_ok(&leaf.tt),
        CuNode::Split { kids } => {
            let places = kid_positions(x, y, side(log2_size) / 2, width, height);
            &&& log2_size > 0
            &&& kids@.len() >= places.len()
            &&& forall|i: int|
                0 <= i < kids@.len() && i < places.len() ==> cu_counts_ok(
                    &#[trigger] kids@[i],
                    width,
                    height,
                    places[i].0,
                    places[i].1,
                    (log2_size - 1) as u8,
                )
        },
    }
}

proof fn lemma_energy_pos(levels: Seq<i16>, n: nat)
    ensures
        level_energy(levels, n) >= 0,
    decreases n,
{
    if n > 0 {
        lemma_energy_pos(levels, (n - 1) as nat);
    }
}

proof fn lemma_block_pos(b: &CodedBlock)
    ensures
        block_energy(b) >= 0,
{
    lemma_energy_pos(b.levels@, b.levels@.len());
}

proof fn lemma_leaf_pos(l: &LeafTu)
    ensures
        leaf_coded(l, 0, 0).energy >= 0,
        leaf_coded(l, 0, 0).bits >= 0,
{
    lemma_block_pos(&l.luma);
    lemma_block_pos(&l.cb);
    lemma_block_pos(&l.cr);
    lemma_block_pos(&l.cb1);
    lemma_block_pos(&l.cr1);
}

proof fn lemma_positive_append(a: Seq<Coded>, b: Seq<Coded>)
    requires
        all_positive(a),
        all_positive(b),
    ensures
        all_positive(a + b),
{
    let all = a + b;
    assert forall|i: int| 0 <= i < all.len() implies (#[trigger] all[i]).energy >= 0
        && all[i].bits >= 0 && all[i].x >= 0 && all[i].y >= 0 by {
        if i < a.len() {
            assert(all[i] == a[i]);
        } else {
            assert(all[i] == b[i - a.len()]);
        }
    }
}

proof fn lemma_tt_positive(tt: &Tt, x: int, y: int, log2_size: u8)
    requires
        x >= 0,
        y >= 0,
        tt_shaped(tt, log2_size),
    ensures
        all_positive(tt_coded(tt, x, y)),
    decreases tt, 0nat,
{
    match tt {
        Tt::Leaf(l) => {
            lemma_leaf_pos(l);
        },
        Tt::Split { parent_chroma, kids, .. } => {
            let half = side(log2_size) / 2;
            vstd::arithmetic::power2::lemma_pow2_pos(log2_size as nat);
            lemma_tt_kids_positive(kids@, x, y, half, kids@.len(), (log2_size - 1) as u8);
            match parent_chroma {
                Some(c) => {
                    lemma_block_pos(&c.cb);
                    lemma_block_pos(&c.cr);
                },
                None => {},
            }
            lemma_positive_append(
                tt_kids_coded(kids@, x, y, half, kids@.len()),
                parent_coded(parent_chroma, x, y),
            );
        },
    }
}

proof fn lemma_tt_kids_positive(
    kids: Seq<Tt>,
    x: int,
    y: int,
    half: int,
    n: nat,
    log2_size: u8,
)
    requires
        x >= 0,
        y >= 0,
        half >= 0,
        n <= kids.len() <= 4,
        forall|i: int| 0 <= i < kids.len() ==> tt_shaped(&#[trigger] kids[i], log2_size),
    ensures
        all_positive(tt_kids_coded(kids, x, y, half, n)),
    decreases kids, n,
{
    if n > 0 {
        let (kx, ky) = quadrant(x, y, half, n - 1);
        assert(kx >= 0 && ky >= 0) by (nonlinear_arith)
            requires
                x >= 0,
                y >= 0,
                half >= 0,
                n >= 1,
                kx == x + ((n - 1) % 2) * half,
                ky == y + ((n - 1) / 2) * half,
        ;
        lemma_tt_kids_positive(kids, x, y, half, (n - 1) as nat, log2_size);
        assert(tt_shaped(&kids[n - 1], log2_size));
        lemma_tt_positive(&kids[n - 1], kx, ky, log2_size);
        lemma_positive_append(
            tt_kids_coded(kids, x, y, half, (n - 1) as nat),
            tt_coded(&kids[n - 1], kx, ky),
        );
    }
}

proof fn lemma_cu_positive(
    node: &CuNode,
    width: int,
    height: int,
    x: int,
    y: int,
    log2_size: u8,
)
    requires
        cu_counts_ok(node, width, height, x, y, log2_size),
    ensures
        all_positive(cu_coded_at(node, width, height, x, y, log2_size)),
    decreases node, 0nat,
{
    match node {
        CuNode::Leaf(leaf) => {
            lemma_tt_positive(&leaf.tt, x, y, log2_size);
        },
        CuNode::Split { kids } => {
            let places = kid_positions(x, y, side(log2_size) / 2, width, height);
            lemma_cu_kids_positive(
                kids@,
                width,
                height,
                places,
                places.len(),
                (log2_size - 1) as u8,
            );
        },
    }
}

proof fn lemma_cu_kids_positive(
    kids: Seq<CuNode>,
    width: int,
    height: int,
    places: Seq<(int, int)>,
    n: nat,
    log2_size: u8,
)
    requires
        n <= places.len(),
        forall|i: int|
            0 <= i < kids.len() && i < places.len() ==> cu_counts_ok(
                &#[trigger] kids[i],
                width,
                height,
                places[i].0,
                places[i].1,
                log2_size,
            ),
    ensures
        all_positive(cu_kids_coded_at(kids, width, height, places, n, log2_size)),
    decreases kids, n,
{
    if n > 0 && n <= kids.len() {
        lemma_cu_kids_positive(kids, width, height, places, (n - 1) as nat, log2_size);
        assert(cu_counts_ok(
            &kids[n - 1],
            width,
            height,
            places[n - 1].0,
            places[n - 1].1,
            log2_size,
        ));
        lemma_cu_positive(
            &kids[n - 1],
            width,
            height,
            places[n - 1].0,
            places[n - 1].1,
            log2_size,
        );
        lemma_positive_append(
            cu_kids_coded_at(kids, width, height, places, (n - 1) as nat, log2_size),
            cu_coded_at(
                &kids[n - 1],
                width,
                height,
                places[n - 1].0,
                places[n - 1].1,
                log2_size,
            ),
        );
    }
}

/// A part of what is to be added stays within range.
proof fn lemma_room_part(done: Seq<Coded>, a: Seq<Coded>, b: Seq<Coded>)
    requires
        room(done, a + b),
        all_positive(a),
        all_positive(b),
    ensures
        room(done, a),
        room(done + a, b),
        done + (a + b) == (done + a) + b,
{
    assert(done + (a + b) =~= (done + a) + b);
    lemma_group_append(done, a, 0, 0, 0);
    lemma_group_append(done + a, b, 0, 0, 0);
    lemma_group_below(b, 0, 0, 0);
    lemma_positive_append(done, a);
}

fn walk_leaf(
    out: &mut QgActivity,
    Ghost(done): Ghost<Seq<Coded>>,
    l: &LeafTu,
    width: u32,
    height: u32,
    x: u32,
    y: u32,
)
    requires
        old(out).holds(done, width as int, height as int),
        old(out).cells_x * old(out).cells_y <= u32::MAX,
        leaf_counts_ok(l),
        room(done, seq![leaf_coded(l, x as int, y as int)]),
    ensures
        final(out).holds(
            done + seq![leaf_coded(l, x as int, y as int)],
            width as int,
            height as int,
        ),
        final(out).cells_x == old(out).cells_x,
        final(out).cells_y == old(out).cells_y,
{
    let ghost c = leaf_coded(l, x as int, y as int);
    let e: u64 = sum_levels(&l.luma.levels) + sum_levels(&l.cb.levels) + sum_levels(
        &l.cr.levels,
    ) + sum_levels(&l.cb1.levels) + sum_levels(&l.cr1.levels);
    let b: u64 = l.luma.frac_bits + l.cb.frac_bits + l.cr.frac_bits + l.cb1.frac_bits
        + l.cr1.frac_bits;
    proof {
        assert(done + seq![c] =~= done.push(c));
        assert(done.push(c).drop_last() =~= done);
    }
    note_coded(out, Ghost(done), width, height, x, y, e, b);
}

fn walk_tt(
    out: &mut QgActivity,
    Ghost(done): Ghost<Seq<Coded>>,
    tt: &Tt,
    Ghost(log2): Ghost<u8>,
    width: u32,
    height: u32,
    x: u32,
    y: u32,
)
    requires
        old(out).holds(done, width as int, height as int),
        old(out).cells_x * old(out).cells_y <= u32::MAX,
        log2 <= 6,
        square_ok(x as int, y as int, log2),
        tt_shaped(tt, log2),
        tt_counts_ok(tt),
        room(done, tt_coded(tt, x as int, y as int)),
    ensures
        final(out).holds(
            done + tt_coded(tt, x as int, y as int),
            width as int,
            height as int,
        ),
        final(out).cells_x == old(out).cells_x,
        final(out).cells_y == old(out).cells_y,
    decreases tt,
{
    match tt {
        Tt::Leaf(l) => {
            walk_leaf(out, Ghost(done), l, width, height, x, y);
        },
        Tt::Split { log2_size, parent_chroma, kids, .. } => {
            let half: u32 = block_side(*log2_size) / 2;
            let ghost (xi, yi, hi) = (x as int, y as int, side(log2) / 2);
            let ghost own = parent_coded(parent_chroma, xi, yi);
            let ghost all = tt_kids_coded(kids@, xi, yi, hi, 4);
            let ghost kl = (log2 - 1) as u8;
            proof {
                lemma_half_side(log2);
                lemma_tt_kids_positive(kids@, xi, yi, hi, 4, kl);
                match parent_chroma {
                    Some(c) => {
                        lemma_block_pos(&c.cb);
                        lemma_block_pos(&c.cr);
                    },
                    None => {},
                }
                lemma_room_part(done, all, own);
                assert(done + tt_kids_coded(kids@, xi, yi, hi, 0) =~= done);
            }
            for i in 0..4usize
                invariant
                    kids@.len() == 4,
                    tt matches Tt::Split { kids: k, .. } && k == kids,
                    tt_shaped(tt, log2),
                    tt_counts_ok(tt),
                    0 < log2 <= 6,
                    kl == log2 - 1,
                    hi == side(log2) / 2,
                    half == hi,
                    side(log2) == 2 * side(kl),
                    xi == x,
                    yi == y,
                    square_ok(xi, yi, log2),
                    all == tt_kids_coded(kids@, xi, yi, hi, 4),
                    room(done, all),
                    out.cells_x * out.cells_y <= u32::MAX,
                    out.cells_x == old(out).cells_x,
                    out.cells_y == old(out).cells_y,
                    out.holds(
                        done + tt_kids_coded(kids@, xi, yi, hi, i as nat),
                        width as int,
                        height as int,
                    ),
            {
                let kx: u32 = if i % 2 == 1 {
                    x + half
                } else {
                    x
                };
                let ky: u32 = if i / 2 == 1 {
                    y + half
                } else {
                    y
                };
                let ghost before = tt_kids_coded(kids@, xi, yi, hi, i as nat);
                let ghost next = tt_coded(&kids@[i as int], kx as int, ky as int);
                let ghost upto = tt_kids_coded(kids@, xi, yi, hi, (i + 1) as nat);
                proof {
                    assert(quadrant(xi, yi, hi, i as int) == (kx as int, ky as int)) by {
                        assert(0 * hi == 0 && 1 * hi == hi);
                    }
                    assert(upto == before + next);
                    lemma_tt_kids_positive(kids@, xi, yi, hi, (i + 1) as nat, kl);
                    lemma_tt_kids_positive(kids@, xi, yi, hi, i as nat, kl);
                    lemma_tt_kids_grow(kids@, xi, yi, hi, (i + 1) as nat, 4, kl);
                    lemma_room_less(done, upto, all);
                    assert(tt_shaped(&kids@[i as int], kl));
                    lemma_tt_positive(&kids@[i as int], kx as int, ky as int, kl);
                    lemma_room_part(done, before, next);
                    assert(done + upto =~= (done + before) + next);
                }
                walk_tt(
                    out,
                    Ghost(done + before),
                    &kids[i],
                    Ghost(kl),
                    width,
                    height,
                    kx,
                    ky,
                );
            }
            match parent_chroma {
                Some(c) => {
                    let e: u64 = sum_levels(&c.cb.levels) + sum_levels(&c.cr.levels);
                    let b: u64 = c.cb.frac_bits + c.cr.frac_bits;
                    proof {
                        let one = Coded { x: xi, y: yi, energy: e as int, bits: b as int };
                        assert(own =~= seq![one]);
                        assert((done + all) + own =~= (done + all).push(one));
                        assert((done + all).push(one).drop_last() =~= done + all);
                        assert((done + all).push(one).last() == one);
                    }
                    note_coded(out, Ghost(done + all), width, height, x, y, e, b);
                },
                None => {
                    assert((done + all) + own =~= done + all);
                },
            }
        },
    }
}

/// More children code no less.
proof fn lemma_tt_kids_grow(
    kids: Seq<Tt>,
    x: int,
    y: int,
    half: int,
    n: nat,
    m: nat,
    log2_size: u8,
)
    requires
        x >= 0,
        y >= 0,
        half >= 0,
        n <= m <= kids.len() <= 4,
        forall|i: int| 0 <= i < kids.len() ==> tt_shaped(&#[trigger] kids[i], log2_size),
    ensures
        sums_below(
            total_sum(tt_kids_coded(kids, x, y, half, n)),
            total_sum(tt_kids_coded(kids, x, y, half, m)),
        ),
    decreases m,
{
    if n < m {
        lemma_tt_kids_grow(kids, x, y, half, n, (m - 1) as nat, log2_size);
        lemma_tt_kids_positive(kids, x, y, half, m, log2_size);
        let (kx, ky) = quadrant(x, y, half, m - 1);
        let before = tt_kids_coded(kids, x, y, half, (m - 1) as nat);
        let one = tt_coded(&kids[m - 1], kx, ky);
        assert(all_positive(one)) by {
            assert forall|i: int| 0 <= i < one.len() implies (#[trigger] one[i]).energy >= 0
                && one[i].bits >= 0 && one[i].x >= 0 && one[i].y >= 0 by {
                assert((before + one)[before.len() + i] == one[i]);
            }
        }
        lemma_group_append(before, one, 0, 0, 0);
        lemma_group_below(one, 0, 0, 0);
    }
}

spec fn sums_below(a: (int, int), b: (int, int)) -> bool {
    a.0 <= b.0 && a.1 <= b.1
}

/// What codes no more stays within range.
proof fn lemma_room_less(done: Seq<Coded>, part: Seq<Coded>, all: Seq<Coded>)
    requires
        room(done, all),
        all_positive(part),
        sums_below(total_sum(part), total_sum(all)),
    ensures
        room(done, part),
{
    lemma_group_append(done, part, 0, 0, 0);
    lemma_group_append(done, all, 0, 0, 0);
}

proof fn lemma_cu_kids_grow(
    kids: Seq<CuNode>,
    width: int,
    height: int,
    places: Seq<(int, int)>,
    n: nat,
    m: nat,
    log2_size: u8,
)
    requires
        n <= m <= places.len(),
        places.len() <= kids.len(),
        forall|i: int|
            0 <= i < kids.len() && i < places.len() ==> cu_counts_ok(
                &#[trigger] kids[i],
                width,
                height,
                places[i].0,
                places[i].1,
                log2_size,
            ),
    ensures
        sums_below(
            total_sum(cu_kids_coded_at(kids, width, height, places, n, log2_size)),
            total_sum(cu_kids_coded_at(kids, width, height, places, m, log2_size)),
        ),
    decreases m,
{
    if n < m {
        lemma_cu_kids_grow(kids, width, height, places, n, (m - 1) as nat, log2_size);
        let before = cu_kids_coded_at(kids, width, height, places, (m - 1) as nat, log2_size);
        let (kx, ky) = places[m - 1];
        assert(cu_counts_ok(&kids[m - 1], width, height, kx, ky, log2_size));
        lemma_cu_positive(&kids[m - 1], width, height, kx, ky, log2_size);
        let one = cu_coded_at(&kids[m - 1], width, height, kx, ky, log2_size);
        lemma_group_append(before, one, 0, 0, 0);
        lemma_group_below(one, 0, 0, 0);
    }
}

fn walk_cu(
    out: &mut QgActivity,
    Ghost(done): Ghost<Seq<Coded>>,
    node: &CuNode,
    width: u32,
    height: u32,
    x: u32,
    y: u32,
    log2_size: u8,
)
    requires
        old(out).holds(done, width as int, height as int),
        old(out).cells_x * old(out).cells_y <= u32::MAX,
        cu_counts_ok(node, width as int, height as int, x as int, y as int, log2_size),
        room(
            done,
            cu_coded_at(node, width as int, height as int, x as int, y as int, log2_size),
        ),
    ensures
        final(out).holds(
            done + cu_coded_at(
                node,
                width as int,
                height as int,
                x as int,
                y as int,
                log2_size,
            ),
            width as int,
            height as int,
        ),
        final(out).cells_x == old(out).cells_x,
        final(out).cells_y == old(out).cells_y,
    decreases node,
{
    let ghost (w, h, xi, yi) = (width as int, height as int, x as int, y as int);
    match node {
        CuNode::Leaf(leaf) => {
            walk_tt(out, Ghost(done), &leaf.tt, Ghost(log2_size), width, height, x, y);
        },
        CuNode::Split { kids } => {
            proof {
                lemma_half_side(log2_size);
            }
            let half: u32 = block_side(log2_size) / 2;
            let places = cu_kid_positions(x, y, half, width, height);
            let ghost pv = kid_positions(xi, yi, side(log2_size) / 2, w, h);
            assert(positions_view(places@) == pv);
            let kl: u8 = log2_size - 1;
            let n: usize = places.len();
            assert(pv.len() == n);
            let ghost all = cu_kids_coded_at(kids@, w, h, pv, n as nat, kl);
            proof {
                assert(done + cu_kids_coded_at(kids@, w, h, pv, 0, kl) =~= done);
            }
            for i in 0..n
                invariant
                    n == places@.len(),
                    n == pv.len(),
                    n <= kids@.len(),
                    node matches CuNode::Split { kids: k } && k == kids,
                    pv == positions_view(places@),
                    pv == kid_positions(xi, yi, side(log2_size) / 2, w, h),
                    w == width,
                    h == height,
                    cu_counts_ok(node, w, h, xi, yi, log2_size),
                    kl == log2_size - 1,
                    all == cu_kids_coded_at(kids@, w, h, pv, n as nat, kl),
                    room(done, all),
                    out.cells_x * out.cells_y <= u32::MAX,
                    out.cells_x == old(out).cells_x,
                    out.cells_y == old(out).cells_y,
                    out.holds(done + cu_kids_coded_at(kids@, w, h, pv, i as nat, kl), w, h),
            {
                let (kx, ky) = places[i];
                let ghost before = cu_kids_coded_at(kids@, w, h, pv, i as nat, kl);
                let ghost next = cu_coded_at(&kids@[i as int], w, h, kx as int, ky as int, kl);
                let ghost upto = cu_kids_coded_at(kids@, w, h, pv, (i + 1) as nat, kl);
                proof {
                    assert(pv[i as int] == (kx as int, ky as int));
                    assert(cu_counts_ok(&kids@[i as int], w, h, kx as int, ky as int, kl));
                    lemma_cu_positive(&kids@[i as int], w, h, kx as int, ky as int, kl);
                    assert(upto == before + next);
                    lemma_cu_kids_positive(kids@, w, h, pv, i as nat, kl);
                    lemma_cu_kids_positive(kids@, w, h, pv, (i + 1) as nat, kl);
                    lemma_cu_kids_grow(kids@, w, h, pv, (i + 1) as nat, n as nat, kl);
                    lemma_room_less(done, upto, all);
                    lemma_room_part(done, before, next);
                }
                walk_cu(out, Ghost(done + before), &kids[i], width, height, kx, ky, kl);
            }
        },
    }
}

/// The trees of a picture can be walked, and their sums stay within range.
pub open spec fn trees_counts_ok(trees: Seq<Option<CuNode>>, width: int, height: int) -> bool {
    let across = ceil_div(width, CTB_SIZE as int);
    &&& forall|i: int|
        0 <= i < trees.len() ==> (#[trigger] trees[i] matches Some(node) ==> cu_counts_ok(
            &node,
            width,
            height,
            (i % across) * CTB_SIZE,
            (i / across) * CTB_SIZE,
            CTB_LOG2,
        ))
    &&& total_sum(trees_coded(trees, width, height, trees.len())).0 <= u64::MAX
    &&& total_sum(trees_coded(trees, width, height, trees.len())).1 <= u64::MAX
}

proof fn lemma_trees_grow(trees: Seq<Option<CuNode>>, width: int, height: int, n: nat, m: nat)
    requires
        n <= m <= trees.len(),
        trees_counts_ok(trees, width, height),
    ensures
        all_positive(trees_coded(trees, width, height, n)),
        sums_below(
            total_sum(trees_coded(trees, width, height, n)),
            total_sum(trees_coded(trees, width, height, m)),
        ),
    decreases m,
{
    if m > 0 {
        let across = ceil_div(width, CTB_SIZE as int);
        let (x, y) = (((m - 1) % across) * CTB_SIZE, ((m - 1) / across) * CTB_SIZE);
        let before = trees_coded(trees, width, height, (m - 1) as nat);
        let one = match trees[m - 1] {
            Some(node) => cu_coded_at(&node, width, height, x, y, CTB_LOG2),
            None => Seq::empty(),
        };
        match trees[m - 1] {
            Some(node) => {
                lemma_cu_positive(&node, width, height, x, y, CTB_LOG2);
            },
            None => {},
        }
        lemma_group_append(before, one, 0, 0, 0);
        lemma_group_below(one, 0, 0, 0);
        if n < m {
            lemma_trees_grow(trees, width, height, n, (m - 1) as nat);
        } else {
            lemma_trees_grow(trees, width, height, (m - 1) as nat, (m - 1) as nat);
            lemma_positive_append(before, one);
        }
    }
}

/// Measures what a pass coded in each quantisation group: every transform block counts for
/// the group that its unit begins in.
pub fn collect_qg_activity(trees: &Vec<Option<CuNode>>, width: u32, height: u32) -> (out: QgActivity)
    requires
        qg_cells(width as int) * qg_cells(height as int) <= u32::MAX,
        trees@.len() > 0 ==> width > 0,
        trees@.len() <= u32::MAX,
        trees_counts_ok(trees@, width as int, height as int),
    ensures
        out.holds(
            trees_coded(trees@, width as int, height as int, trees@.len()),
            width as int,
            height as int,
        ),
{
    let ghost (w, h) = (width as int, height as int);
    let cells_x: u32 = qg_count(width);
    let cells_y: u32 = qg_count(height);
    assert(cells_x * cells_y >= 0) by (nonlinear_arith);
    let cells: usize = (cells_x * cells_y) as usize;
    let mut out = QgActivity { cells_x, cells_y, energy: vec![0u64; cells], frac_bits: vec![0u64; cells] };
    let across: u32 = ceil_div_u32(width, CTB_SIZE);
    let n: usize = trees.len();
    for i in 0..n
        invariant
            n == trees@.len(),
            n <= u32::MAX,
            w == width,
            h == height,
            n > 0 ==> width > 0,
            across == ceil_div(w, 64),
            trees_counts_ok(trees@, w, h),
            out.cells_x * out.cells_y <= u32::MAX,
            out.holds(trees_coded(trees@, w, h, i as nat), w, h),
    {
        let ghost done = trees_coded(trees@, w, h, i as nat);
        let ghost upto = trees_coded(trees@, w, h, (i + 1) as nat);
        let idx: u32 = i as u32;
        proof {
            lemma_trees_grow(trees@, w, h, i as nat, n as nat);
            lemma_trees_grow(trees@, w, h, (i + 1) as nat, n as nat);
        }
        match &trees[i] {
            Some(node) => {
                let ghost (x, y) = ((i as int % across as int) * 64, (i as int / across as int)
                    * 64);
                let ghost one = cu_coded_at(node, w, h, x, y, CTB_LOG2);
                proof {
                    assert(across > 0);
                    assert(trees@[i as int] == Some(*node));
                    assert(cu_counts_ok(node, w, h, x, y, CTB_LOG2));
                    vstd::arithmetic::power2::lemma_pow2_pos(6);
                    lemma_cu_positive(node, w, h, x, y, CTB_LOG2);
                    assert(upto == done + one);
                    assert(room(done, one));
                }
                walk_cu(
                    &mut out,
                    Ghost(done),
                    node,
                    width,
                    height,
                    (idx % across) * CTB_SIZE,
                    (idx / across) * CTB_SIZE,
                    CTB_LOG2,
                );
            },
            None => {
                assert(upto =~= done);
            },
        }
    }
    out
}

fn qg_count(v: u32) -> (n: u32)
    ensures
        n == qg_cells(v as int),
        1 <= n <= max_int(v as int, 1),
{
    let n: u32 = ceil_div_u32(v, QG_SIZE);
    if n > 1 {
        n
    } else {
        1
    }
}

/// The squared error that the first `n` samples of a picture add to a group, row by row.
pub open spec fn group_sse(
    src: Seq<u16>,
    plane: &Plane,
    width: int,
    height: int,
    idx: int,
    n: nat,
) -> int
    decreases n,
{
    if n == 0 {
        0
    } else {
        let (x, y) = ((n - 1) % width, (n - 1) / width);
        group_sse(src, plane, width, height, idx, (n - 1) as nat) + if qg_index(
            width,
            height,
            x,
            y,
        ) == idx {
            square(src[n - 1] - plane.sample(x, y)) as int
        } else {
            0
        }
    }
}

/// Groups are no more than samples.
proof fn lemma_cells_fit(w: int, h: int, cells_x: int, cells_y: int)
    requires
        0 <= w <= u32::MAX,
        0 <= h <= u32::MAX,
        w * h <= u32::MAX,
        1 <= cells_x <= max_int(w, 1),
        1 <= cells_y <= max_int(h, 1),
    ensures
        cells_x * cells_y <= u32::MAX,
{
    let (a, b) = (max_int(w, 1), max_int(h, 1));
    assert(cells_x * cells_y <= a * b) by (nonlinear_arith)
        requires
            1 <= cells_x <= a,
            1 <= cells_y <= b,
    ;
    if w > 0 && h > 0 {
    } else if w > 0 {
        assert(a * 1 == a);
    } else {
        assert(1 * b == b);
    }
}

/// The luma error of each quantisation group.
pub fn collect_qg_sse(src: &[u16], plane: &Plane, width: u32, height: u32) -> (sse: Vec<u64>)
    requires
        width * height <= u32::MAX,
        src@.len() == width * height,
        plane.well_formed(),
        width <= plane.width,
        height <= plane.height,
    ensures
        sse@.len() == qg_cells(width as int) * qg_cells(height as int),
        forall|i: int|
            0 <= i < sse@.len() ==> #[trigger] sse@[i] == group_sse(
                src@,
                plane,
                width as int,
                height as int,
                i,
                (width * height) as nat,
            ),
{
    let ghost (w, h) = (width as int, height as int);
    let cells_x: u32 = qg_count(width);
    let cells_y: u32 = qg_count(height);
    proof {
        lemma_cells_fit(w, h, cells_x as int, cells_y as int);
    }
    let cells: usize = (cells_x * cells_y) as usize;
    let mut sse: Vec<u64> = vec![0u64; cells];
    assert(width * height >= 0) by (nonlinear_arith);
    let total: u32 = width * height;
    let len: usize = plane.data.len();
    for k in 0..total
        invariant
            len == plane.data@.len(),
            w == width,
            h == height,
            total == width * height,
            src@.len() == total,
            plane.well_formed(),
            width <= plane.width,
            height <= plane.height,
            cells_x == qg_cells(w),
            cells_y == qg_cells(h),
            cells_x * cells_y <= u32::MAX,
            sse@.len() == cells_x * cells_y,
            forall|i: int|
                0 <= i < sse@.len() ==> #[trigger] sse@[i] == group_sse(
                    src@,
                    plane,
                    w,
                    h,
                    i,
                    k as nat,
                ),
            forall|i: int| 0 <= i < sse@.len() ==> #[trigger] sse@[i] <= k * 0x1_0000_0000,
    {
        assert(width > 0) by (nonlinear_arith)
            requires
                0 <= k < width * height,
                width >= 0,
        ;
        let x: u32 = k % width;
        let y: u32 = k / width;
        proof {
            let (ki, yi, xi) = (k as int, y as int, x as int);
            vstd::arithmetic::div_mod::lemma_fundamental_div_mod(ki, w);
            assert(0 <= yi < h) by (nonlinear_arith)
                requires
                    ki == w * yi + xi,
                    0 <= xi < w,
                    0 <= ki < w * h,
            ;
            plane.lemma_index(xi, yi);
            lemma_qg_index(w, h, xi, yi);
            let (cy, nx) = (yi / 32, cells_x as int);
            assert(0 <= cy * nx) by (nonlinear_arith)
                requires
                    cy >= 0,
                    nx >= 0,
            ;
        }
        let r: i64 = plane.data[y as usize * plane.stride + x as usize] as i64;
        let d: i64 = src[k as usize] as i64 - r;
        assert(0 <= d * d <= 65535 * 65535) by (nonlinear_arith)
            requires
                -65535 <= d <= 65535,
        ;
        let idx: usize = ((y / QG_SIZE) * cells_x + x / QG_SIZE) as usize;
        assert(sse@[idx as int] <= k * 0x1_0000_0000);
        let e: u64 = sse[idx] + (d * d) as u64;
        sse.set(idx, e);
    }
    sse
}

} // verus!
