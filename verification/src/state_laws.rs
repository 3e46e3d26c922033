//! What holds of a search's state: a snapshot holds everything that a block can change,
//! the blocks of a picture stand in rows, and bins and wins add up.

use vstd::prelude::*;

use crate::budget::RegionClass;
use crate::cabac::bin_cost;
use crate::code_laws::chroma_of;
use crate::cost::{cu_kids_cost, cu_node_cost, items_cost, items_run, lemma_run_append, Run};
use crate::geometry::side;
use crate::items::{cu_leaf_items, SyntaxItem};
use crate::maps::BlockMaps;
use crate::search_state::{
    copies_map, restore_work, save_work, RegionSnapshot, SearchState,
};
use crate::slice_build::{ctu_count, ctu_place};
use crate::snapshot::{
    block_planes, block_region, clamped_rect, snapshot_bytes, MapSnapshot, PlaneSnapshot,
};
use crate::syntax::CuNode;
use crate::wins::{class_place, wins, NodeAt};

verus! {

/// A position lies in a rectangle.
pub open spec fn within(r: (int, int, int, int), x: int, y: int) -> bool {
    r.0 <= x < r.0 + r.2 && r.1 <= y < r.1 + r.3
}

/// Cutting a rectangle at an area's edges loses nothing of it that lies in the area, and
/// leaves nothing outside.
pub proof fn law_cutting_keeps_the_inside(
    r: (int, int, int, int),
    area_w: int,
    area_h: int,
    x: int,
    y: int,
)
    requires
        r.0 >= 0,
        r.1 >= 0,
        r.2 >= 0,
        r.3 >= 0,
        area_w >= 0,
        area_h >= 0,
    ensures
        within(clamped_rect(r.0, r.1, r.2, r.3, area_w, area_h), x, y) <==> within(r, x, y) && x
            < area_w && y < area_h,
{
}

/// What is kept of a block is its square of luma, and the samples of both chroma planes
/// that belong to it.
pub proof fn law_region_of_a_block(
    cat: u8,
    x0: u32,
    y0: u32,
    log2_size: u8,
    x: int,
    y: int,
)
    requires
        3 <= log2_size <= 6,
        cat <= 3,
        x0 % 8 == 0,
        y0 % 8 == 0,
    ensures
        within(block_region(cat, x0, y0, log2_size, 0), x, y) <==> x0 <= x < x0 + side(log2_size)
            && y0 <= y < y0 + side(log2_size),
        cat > 0 ==> block_planes(cat, x0, y0, log2_size) == 3,
        cat == 0 ==> block_planes(cat, x0, y0, log2_size) == 1,
        cat > 0 ==> (within(block_region(cat, x0, y0, log2_size, 1), x, y) <==> chroma_of(
            cat,
            x0 as int,
            y0 as int,
            side(log2_size),
            x,
            y,
        )),
        block_region(cat, x0, y0, log2_size, 1) == block_region(cat, x0, y0, log2_size, 2),
{
    vstd::arithmetic::power2::lemma2_to64();
    assert(side(2) == 4 && side(3) == 8 && side(4) == 16 && side(5) == 32 && side(6) == 64);
    assert(log2_size == 3 || log2_size == 4 || log2_size == 5 || log2_size == 6);
}

/// A place of a map lies in a snapshot of it.
pub open spec fn kept_cell(s: &MapSnapshot, cx: int, cy: int) -> bool {
    within(
        (s.rect.x as int, s.rect.y as int, s.rect.width as int, s.rect.height as int),
        cx,
        cy,
    )
}

/// A snapshot of a block holds the cells of all its samples, in each of the three maps:
/// modes and transform depths by four samples, unit depths by eight.
pub proof fn law_snapshot_holds_every_cell(
    s: &RegionSnapshot,
    st: &SearchState,
    x0: u32,
    y0: u32,
    log2_size: u8,
    x: int,
    y: int,
)
    requires
        s.copies(st, x0, y0, log2_size),
        3 <= log2_size <= 6,
        x0 % 8 == 0,
        y0 % 8 == 0,
        x0 <= x < x0 + side(log2_size),
        y0 <= y < y0 + side(log2_size),
        st.maps.mode_stride > 0,
        st.maps.ct_depth_stride > 0,
        st.tu_depth_stride > 0,
    ensures
        x / 4 < st.maps.mode_stride && y / 4 < st.maps.mode_map@.len() as int
            / st.maps.mode_stride as int ==> kept_cell(&s.modes, x / 4, y / 4),
        x / 8 < st.maps.ct_depth_stride && y / 8 < st.maps.ct_depth_map@.len() as int
            / st.maps.ct_depth_stride as int ==> kept_cell(&s.ct_depths, x / 8, y / 8),
        x / 4 < st.tu_depth_stride && y / 4 < st.tu_depth_map@.len() as int
            / st.tu_depth_stride as int ==> kept_cell(&s.tu_depths, x / 4, y / 4),
{
    vstd::arithmetic::power2::lemma2_to64();
    assert(side(3) == 8 && side(4) == 16 && side(5) == 32 && side(6) == 64);
    assert(log2_size == 3 || log2_size == 4 || log2_size == 5 || log2_size == 6);
    lemma_cell(
        &s.modes,
        st.maps.mode_map@,
        st.maps.mode_stride,
        x0 as int / 4,
        y0 as int / 4,
        side(log2_size) / 4,
        x / 4,
        y / 4,
    );
    lemma_cell(
        &s.ct_depths,
        st.maps.ct_depth_map@,
        st.maps.ct_depth_stride,
        x0 as int / 8,
        y0 as int / 8,
        side(log2_size) / 8,
        x / 8,
        y / 8,
    );
    lemma_cell(
        &s.tu_depths,
        st.tu_depth_map@,
        st.tu_depth_stride,
        x0 as int / 4,
        y0 as int / 4,
        side(log2_size) / 4,
        x / 4,
        y / 4,
    );
}

proof fn lemma_cell(
    s: &MapSnapshot,
    map: Seq<u8>,
    stride: usize,
    x: int,
    y: int,
    n: int,
    cx: int,
    cy: int,
)
    requires
        copies_map(s, map, stride, x, y, n),
        stride > 0,
        0 <= x <= cx < x + n,
        0 <= y <= cy < y + n,
    ensures
        cx < stride && cy < map.len() as int / stride as int ==> kept_cell(s, cx, cy),
{
    vstd::arithmetic::div_mod::lemma_div_pos_is_pos(map.len() as int, stride as int);
    law_cutting_keeps_the_inside(
        (x, y, n, n),
        stride as int,
        map.len() as int / stride as int,
        cx,
        cy,
    );
}

/// A snapshot takes two bytes for each sample.
pub proof fn law_samples_take_two_bytes(planes: Seq<PlaneSnapshot>, p: PlaneSnapshot)
    ensures
        snapshot_bytes(planes.push(p)) == snapshot_bytes(planes) + 2 * p.data@.len(),
        snapshot_bytes(Seq::empty()) == 0,
{
    assert(planes.push(p).drop_last() =~= planes);
}

/// What is put back was taken: as many planes and maps.
pub proof fn law_restores_match_saves(s: &RegionSnapshot)
    ensures
        restore_work(s).frame_restores == save_work(s).frame_snapshots,
        restore_work(s).map_restores == save_work(s).map_snapshots,
        save_work(s).map_snapshots == 3,
        s.frame.planes@.len() <= 3 ==> save_work(s).frame_snapshots == s.frame.planes@.len(),
        restore_work(s).bytes_snapshotted == 0,
{
}

/// The coding tree blocks of a picture stand in rows, each as long as it takes to span the
/// width.
pub proof fn law_tree_blocks_stand_in_rows(width: u32, across: int, column: int, row: int)
    requires
        width > 0,
        width <= across * 64 < width + 64,
        0 <= column < across,
        0 <= row,
        row * 64 <= u32::MAX,
    ensures
        ctu_place(width, row * across + column).x == column * 64,
        ctu_place(width, row * across + column).y == row * 64,
        ctu_place(width, row * across + column).log2_size == 6,
{
    let n = row * across + column;
    assert((width + 63) / 64 == across);
    vstd::arithmetic::div_mod::lemma_fundamental_div_mod_converse(n, across, row, column);
}

/// There are as many of them as fill the rows and columns.
pub proof fn law_count_of_tree_blocks(width: int, height: int, across: int, down: int)
    requires
        width <= across * 64 < width + 64,
        height <= down * 64 < height + 64,
    ensures
        ctu_count(width, height) == across * down,
{
    assert((width + 63) / 64 == across);
    assert((height + 63) / 64 == down);
}

/// A bypass bin costs one bit, a residual block what is noted on it, and a bin what its
/// context says. Only a bin moves a context, and only its own.
pub proof fn law_price_of_one_more_item<'a>(
    r: Run,
    items: Seq<SyntaxItem<'a>>,
    item: SyntaxItem<'a>,
    k: int,
)
    requires
        0 <= k < items_run(r, items).states.len(),
        item matches SyntaxItem::Bin(ci, _) ==> {
            &&& ci < items_run(r, items).states.len()
            &&& bin_cost(items_run(r, items).states[ci as int], 0) >= 0
            &&& bin_cost(items_run(r, items).states[ci as int], 1) >= 0
        },
    ensures
        ({
            let before = items_run(r, items);
            let after = items_run(r, items.push(item));
            &&& item is Bypass ==> after.cost == before.cost + 32768 && after.states
                == before.states
            &&& item matches SyntaxItem::Residual { block, .. } ==> after.cost == before.cost
                + block.frac_bits && after.states == before.states
            &&& item is Terminate ==> after.states == before.states
            &&& item matches SyntaxItem::Bin(ci, b) ==> {
                &&& after.cost == before.cost + bin_cost(
                    before.states[ci as int],
                    if b {
                        1
                    } else {
                        0
                    },
                )
                &&& k != ci ==> after.states[k] == before.states[k]
            }
        }),
{
    assert(items.push(item).drop_last() =~= items);
}

/// Items cost what their parts cost, the second part from where the first left off.
pub proof fn law_items_run_on<'a>(r: Run, a: Seq<SyntaxItem<'a>>, b: Seq<SyntaxItem<'a>>)
    ensures
        items_run(r, a + b) == items_run(items_run(r, a), b),
        items_run(r, Seq::empty()) == r,
{
    lemma_run_append(r, a, b);
}

/// A unit of a quadtree costs what its syntax costs, and where a split flag is coded, that
/// flag in the context of its neighbours' depths. No flag is coded for units of 8x8 or
/// across the picture's edge.
pub proof fn law_price_of_a_unit(
    states: Seq<int>,
    maps: &BlockMaps,
    cat: u8,
    node: &CuNode,
    x0: u32,
    y0: u32,
    log2_size: u8,
    depth: u8,
)
    requires
        node is Leaf,
        bin_cost(states[2 + maps.split_inc(x0, y0, depth)], 0) >= 0,
    ensures
        ({
            let own = items_cost(states, cu_leaf_items(&node->Leaf_0, log2_size, cat)) as int;
            let all = cu_node_cost(states, maps, cat, node, x0, y0, log2_size, depth) as int;
            let inside = x0 + side(log2_size) <= maps.width && y0 + side(log2_size)
                <= maps.height;
            &&& log2_size <= 3 || !inside ==> all == own
            &&& log2_size > 3 && inside ==> all == own + bin_cost(
                states[2 + maps.split_inc(x0, y0, depth)],
                0,
            )
        }),
{
}

/// A split node of a quadtree that lies in the picture costs what its quadrants cost, one
/// depth down, and a split flag that is set.
pub proof fn law_price_of_a_split(
    states: Seq<int>,
    maps: &BlockMaps,
    cat: u8,
    node: &CuNode,
    x0: u32,
    y0: u32,
    log2_size: u8,
    depth: u8,
)
    requires
        node is Split,
        node->kids@.len() == 4,
        4 <= log2_size <= 6,
        x0 + side(log2_size) <= maps.width,
        y0 + side(log2_size) <= maps.height,
        depth < 255,
        bin_cost(states[2 + maps.split_inc(x0, y0, depth)], 1) >= 0,
    ensures
        ({
            let h = side(log2_size) / 2;
            let k = node->kids@;
            let (s, d) = ((log2_size - 1) as u8, (depth + 1) as u8);
            let (x1, y1) = ((x0 + h) as u32, (y0 + h) as u32);
            cu_node_cost(states, maps, cat, node, x0, y0, log2_size, depth) == bin_cost(
                states[2 + maps.split_inc(x0, y0, depth)],
                1,
            ) + cu_node_cost(states, maps, cat, &k[0], x0, y0, s, d) + cu_node_cost(
                states,
                maps,
                cat,
                &k[1],
                x1,
                y0,
                s,
                d,
            ) + cu_node_cost(states, maps, cat, &k[2], x0, y1, s, d) + cu_node_cost(
                states,
                maps,
                cat,
                &k[3],
                x1,
                y1,
                s,
                d,
            )
        }),
{
    vstd::arithmetic::power2::lemma2_to64();
    assert(side(4) == 16 && side(5) == 32 && side(6) == 64);
    let h = side(log2_size) / 2;
    let places = crate::write::kids_at(maps, x0, y0, log2_size);
    assert(places =~= seq![
        (x0 as int, y0 as int),
        (x0 + h, y0 as int),
        (x0 as int, y0 + h),
        (x0 + h, y0 + h),
    ]);
    let k = node->kids@;
    let (s, d) = ((log2_size - 1) as u8, (depth + 1) as u8);
    let (x1, y1) = ((x0 + h) as u32, (y0 + h) as u32);
    let cost = |n: nat| cu_kids_cost(states, maps, cat, k, places, n, s, d);
    assert(cost(0) == 0);
    assert(cost(1) == cost(0) + cu_node_cost(states, maps, cat, &k[0], x0, y0, s, d));
    assert(cost(2) == cost(1) + cu_node_cost(states, maps, cat, &k[1], x1, y0, s, d));
    assert(cost(3) == cost(2) + cu_node_cost(states, maps, cat, &k[2], x0, y1, s, d));
    assert(cost(4) == cost(3) + cu_node_cost(states, maps, cat, &k[3], x1, y1, s, d));
    assert(*node == CuNode::Split { kids: node->kids });
}

/// The classes of regions have places of their own.
pub proof fn law_classes_have_places(a: RegionClass, b: RegionClass)
    ensures
        0 <= class_place(a) < 7,
        class_place(a) == class_place(b) <==> a == b,
{
}

/// A node wins once, for its class and for what it became: one more node adds one there,
/// and nothing anywhere else.
pub proof fn law_a_node_wins_once(
    nodes: Seq<NodeAt>,
    classes: Seq<RegionClass>,
    node: NodeAt,
    class: RegionClass,
    other: RegionClass,
    split: bool,
)
    requires
        classes.len() == nodes.len(),
    ensures
        ({
            let n = nodes.len();
            let more = wins(
                nodes.push(node),
                classes.push(class),
                class_place(other),
                split,
                n + 1,
            ) - wins(nodes, classes, class_place(other), split, n);
            &&& class == other && node.split == split ==> more == 1
            &&& !(class == other && node.split == split) ==> more == 0
        }),
{
    lemma_wins_push(nodes, classes, node, class, class_place(other), split, nodes.len());
    law_classes_have_places(class, other);
}

proof fn lemma_wins_push(
    nodes: Seq<NodeAt>,
    classes: Seq<RegionClass>,
    node: NodeAt,
    class: RegionClass,
    place: int,
    split: bool,
    n: nat,
)
    requires
        classes.len() == nodes.len(),
        n <= nodes.len(),
    ensures
        wins(nodes.push(node), classes.push(class), place, split, n) == wins(
            nodes,
            classes,
            place,
            split,
            n,
        ),
    decreases n,
{
    if n > 0 {
        lemma_wins_push(nodes, classes, node, class, place, split, (n - 1) as nat);
    }
}

} // verus!
