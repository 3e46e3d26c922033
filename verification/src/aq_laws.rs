//! What a decoder makes of the signalled QPs.

use vstd::prelude::*;

use crate::aq::{
    decode_qp_delta, law_qp_delta_decodes, op_values, qp_delta_ops, resolved_qpy, AqState,
    QgOffsets, QpMap,
};

verus! {

/// Two maps have the same layout, and the second holds so much more at a cell.
pub open spec fn raised(a: &QpMap, b: &QpMap, cx: int, cy: int, by: int) -> bool {
    let i = cy * a.stride + cx;
    &&& b.stride == a.stride
    &&& 0 <= i < a.qps@.len()
    &&& b.qps@.len() == a.qps@.len()
    &&& b.qps@[i] == a.qps@[i] + by
    &&& forall|k: int| 0 <= k < a.qps@.len() && k != i ==> #[trigger] b.qps@[k] == a.qps@[k]
}

/// Where the group above lies in the same coding tree block, the prediction goes by the QP
/// noted right above the group: two more there are one more in the prediction. The same holds
/// of the group to the left and the QP noted right beside the group.
pub proof fn law_neighbours_lead_the_prediction(
    s: AqState,
    a: &QpMap,
    b: &QpMap,
    x: int,
    y: int,
)
    requires
        x >= 0,
        y >= 0,
        x / 4 < a.stride,
    ensures
        ({
            let (cx, cy) = (8 * (x / 32), 8 * (y / 32));
            &&& (y / 32) % 2 == 1 && raised(a, b, cx, cy - 1, 2) ==> s.qpy_prediction(b, x, y)
                == s.qpy_prediction(a, x, y) + 1
            &&& (x / 32) % 2 == 1 && raised(a, b, cx - 1, cy, 2) ==> s.qpy_prediction(b, x, y)
                == s.qpy_prediction(a, x, y) + 1
        }),
{
    let (cx, cy, st) = (8 * (x / 32), 8 * (y / 32), a.stride as int);
    let (gx, gy) = ((x / 32) * 32, (y / 32) * 32);
    assert(gx / 4 == cx && gy / 4 == cy);
    if (y / 32) % 2 == 1 {
        assert(gy % 64 == 32);
        assert((gy - 1) / 4 == cy - 1);
    }
    if (x / 32) % 2 == 1 {
        assert(gx % 64 == 32);
        assert((gx - 1) / 4 == cx - 1);
    }
    let (up, beside) = ((cy - 1) * st + cx, cy * st + (cx - 1));
    if cx > 0 {
        assert(up - beside == 1 - st) by (nonlinear_arith)
            requires
                up == (cy - 1) * st + cx,
                beside == cy * st + (cx - 1),
        ;
    }
}

/// The prediction depends on no other noted QP.
pub proof fn law_no_other_neighbour_counts(s: AqState, a: &QpMap, b: &QpMap, x: int, y: int)
    requires
        x >= 0,
        y >= 0,
        a.stride == b.stride,
        a.qps@.len() == b.qps@.len(),
        ({
            let (cx, cy, st) = (8 * (x / 32), 8 * (y / 32), a.stride as int);
            let (up, beside) = ((cy - 1) * st + cx, cy * st + (cx - 1));
            &&& (y / 32) % 2 == 1 && up < a.qps@.len() ==> a.qps@[up] == b.qps@[up]
            &&& (x / 32) % 2 == 1 && beside < a.qps@.len() ==> a.qps@[beside] == b.qps@[beside]
        }),
    ensures
        s.qpy_prediction(a, x, y) == s.qpy_prediction(b, x, y),
        // At the corner of a coding tree block the QP before the group is the prediction,
        // the slice's for the first group.
        (x / 32) % 2 == 0 && (y / 32) % 2 == 0 ==> s.qpy_prediction(a, x, y) == if x < 32 && y < 32 {
            s.slice_qp_y as int
        } else if s.qg_x == x - x % 32 && s.qg_y == y - y % 32 {
            s.last_qpy_prev_qg as int
        } else {
            s.current_qpy as int
        },
{
    let (gx, gy) = ((x / 32) * 32, (y / 32) * 32);
    assert(gx == x - x % 32 && gy == y - y % 32);
    if (y / 32) % 2 == 1 {
        assert((gy - 1) / 4 == 8 * (y / 32) - 1);
    }
    if (x / 32) % 2 == 1 {
        assert((gx - 1) / 4 == 8 * (x / 32) - 1);
    }
}

/// A coding unit of a slice: where it is, how many samples its side has, and whether it has
/// a coded block.
pub struct QpUnit {
    pub x: u32,
    pub y: u32,
    pub size: u32,
    pub coded: bool,
}

/// A unit lies on the grid of its size, and in one quantisation group where it is not larger.
pub open spec fn unit_ok(u: QpUnit) -> bool {
    &&& u.size == 8 || u.size == 16 || u.size == 32 || u.size == 64
    &&& u.x as int % u.size as int == 0
    &&& u.y as int % u.size as int == 0
    &&& u.x <= i32::MAX
    &&& u.y <= i32::MAX
}

/// What a decoder keeps of the QPs: the last one, the last one of the group before, the
/// group, whether the group has had its difference and which, and the QP of every cell of
/// 4x4 samples.
pub struct QpDecoder {
    pub last: int,
    pub before: int,
    pub group: (int, int),
    pub known: bool,
    pub delta: int,
    pub cells: spec_fn(int, int) -> int,
}

/// A decoder at the start of a slice.
pub open spec fn decoder_fresh(slice_qp: int, cells: spec_fn(int, int) -> int) -> QpDecoder {
    QpDecoder { last: slice_qp, before: slice_qp, group: (-1, -1), known: false, delta: 0, cells }
}

/// A decoder that has come to a unit: a new group has had no difference, and the last QP is
/// that of the group before.
pub open spec fn arrived(d: QpDecoder, u: QpUnit) -> QpDecoder {
    let group = (u.x - u.x as int % 32, u.y - u.y as int % 32);
    if group == d.group {
        d
    } else {
        QpDecoder { before: d.last, group, known: false, delta: 0, ..d }
    }
}

/// The QP that a decoder predicts for a group: the rounded mean of the cells left of it and
/// above it, where those lie in the unit's coding tree block, and else of the QP before it.
pub open spec fn predicted(d: QpDecoder, slice_qp: int, u: QpUnit) -> int {
    let (gx, gy) = d.group;
    let start = if gx == 0 && gy == 0 {
        slice_qp
    } else {
        d.before
    };
    let a = if gx > 0 && (gx - 1) / 64 == u.x as int / 64 {
        (d.cells)((gx - 1) / 4, gy / 4)
    } else {
        start
    };
    let b = if gy > 0 && (gy - 1) / 64 == u.y as int / 64 {
        (d.cells)(gx / 4, (gy - 1) / 4)
    } else {
        start
    };
    (a + b + 1) / 2
}

/// The cell lies in the unit.
pub open spec fn in_unit(u: QpUnit, cx: int, cy: int) -> bool {
    u.x <= 4 * cx < u.x + u.size && u.y <= 4 * cy < u.y + u.size
}

/// A decoder behind a unit: a difference that was read is the group's, the QP is prediction
/// and difference, wrapped into the range, and every cell of the unit takes it.
pub open spec fn unit_decoded(
    d: QpDecoder,
    slice_qp: int,
    off: int,
    u: QpUnit,
    read: Option<int>,
) -> QpDecoder {
    let here = arrived(d, u);
    let delta = match read {
        Some(v) => v,
        None => here.delta,
    };
    let qp = (predicted(here, slice_qp, u) + delta + 52 + 2 * off) % (52 + off) - off;
    QpDecoder {
        last: qp,
        known: here.known || read is Some,
        delta,
        cells: |cx: int, cy: int|
            if in_unit(u, cx, cy) {
                qp
            } else {
                (d.cells)(cx, cy)
            },
        ..here
    }
}

/// The state of the encoder at a unit: a new group starts without a difference, then the
/// unit begins.
pub open spec fn unit_begun(s: AqState, offsets: &QgOffsets, map: &QpMap, u: QpUnit) -> AqState {
    let fresh = s.qg_x != u.x - u.x as int % 32 || s.qg_y != u.y - u.y as int % 32;
    (if fresh {
        s.group_started()
    } else {
        s
    }).begun(offsets, map, u.x as int, u.y as int)
}

/// The unit carries a difference: it has a coded block, and its group has had none.
pub open spec fn carries(s: AqState, u: QpUnit) -> bool {
    u.coded && !s.coded
}

/// The encoder behind a unit.
pub open spec fn unit_written(s: AqState, offsets: &QgOffsets, map: &QpMap, u: QpUnit) -> AqState {
    let b = unit_begun(s, offsets, map, u);
    if carries(b, u) {
        b.taken()
    } else {
        b
    }
}

/// What a decoder reads of a unit: the bins of the difference, where there is one.
pub open spec fn unit_read(s: AqState, offsets: &QgOffsets, map: &QpMap, u: QpUnit) -> Option<int> {
    let b = unit_begun(s, offsets, map, u);
    if carries(b, u) {
        Some(decode_qp_delta(op_values(qp_delta_ops(b.taken().cu_qp_delta as int))))
    } else {
        None
    }
}

/// The encoder's map holds what the decoder keeps, in the cells of the picture.
pub open spec fn same_cells(map: &QpMap, d: QpDecoder, across: int, down: int) -> bool {
    &&& 0 < across <= map.stride
    &&& forall|cx: int, cy: int|
        0 <= cx < across && 0 <= cy < down ==> {
            &&& 0 <= cy * map.stride + cx < map.qps@.len()
            &&& map.qps@[cy * map.stride + cx] == #[trigger] (d.cells)(cx, cy)
        }
}

/// Encoder and decoder know the same.
pub open spec fn in_step(s: AqState, d: QpDecoder) -> bool {
    &&& s.current_qpy == d.last
    &&& s.last_qpy_prev_qg == d.before
    &&& (s.qg_x as int, s.qg_y as int) == d.group
    &&& s.coded == d.known
    &&& s.cu_qp_delta == d.delta
    &&& !d.known ==> d.delta == 0
}

/// The QPs are such as occur.
pub open spec fn qps_ok(s: AqState, d: QpDecoder, across: int, down: int) -> bool {
    &&& 0 <= s.qp_bd_offset <= 48
    &&& 0 <= s.slice_qp_y <= 51
    &&& 0 <= d.last <= 51
    &&& 0 <= d.before <= 51
    &&& forall|cx: int, cy: int|
        0 <= cx < across && 0 <= cy < down ==> 0 <= #[trigger] (d.cells)(cx, cy) <= 51
}

/// The unit's origin lies in the picture.
pub open spec fn starts_inside(u: QpUnit, across: int, down: int) -> bool {
    u.x as int / 4 < across && u.y as int / 4 < down
}

/// The QP that a group is to have: the slice's and the group's offset, within the range.
pub open spec fn wanted(slice_qp: int, offsets: &QgOffsets, x: int, y: int) -> int {
    let i = (y / 32) * offsets.cells_x + x / 32;
    let q = slice_qp + if i < offsets.offsets@.len() {
        offsets.offsets@[i] as int
    } else {
        0
    };
    if q < 0 {
        0
    } else if q > 51 {
        51
    } else {
        q
    }
}

/// A group that has had its difference decodes to what it is to have, at the next unit too.
pub open spec fn settled(s: AqState, offsets: &QgOffsets, d: QpDecoder) -> bool {
    d.known ==> {
        let (gx, gy) = d.group;
        let u = QpUnit { x: gx as u32, y: gy as u32, size: 32, coded: false };
        &&& 0 <= gx <= i32::MAX && 0 <= gy <= i32::MAX
        &&& gx % 32 == 0 && gy % 32 == 0
        &&& predicted(d, s.slice_qp_y as int, u) + d.delta == wanted(
            s.slice_qp_y as int,
            offsets,
            gx,
            gy,
        )
    }
}

/// The origin of a group.
proof fn lemma_group(x: int)
    requires
        x >= 0,
    ensures
        ({
            let g = x - x % 32;
            &&& g == (x / 32) * 32
            &&& 0 <= g <= x < g + 32
            &&& g / 32 == x / 32
            &&& g / 64 == x / 64
            &&& g % 32 == 0
            &&& g % 64 != 0 <==> g > 0 && (g - 1) / 64 == x / 64
            &&& g > 0 ==> 0 <= (g - 1) / 4 < x / 4 + 1 && 4 * ((g - 1) / 4) < g
            &&& 0 <= g / 4 <= x / 4
        }),
{
}

/// The encoder at a unit knows what the decoder does, and predicts the same.
proof fn lemma_begun(
    s: AqState,
    offsets: &QgOffsets,
    map: &QpMap,
    d: QpDecoder,
    u: QpUnit,
    across: int,
    down: int,
)
    requires
        unit_ok(u),
        starts_inside(u, across, down),
        same_cells(map, d, across, down),
        in_step(s, d),
        qps_ok(s, d, across, down),
    ensures
        ({
            let here = arrived(d, u);
            let b = unit_begun(s, offsets, map, u);
            let pred = predicted(here, s.slice_qp_y as int, u);
            &&& 0 <= pred <= 51
            &&& b.pred == pred
            &&& b.cu_target == wanted(s.slice_qp_y as int, offsets, u.x as int, u.y as int)
            &&& b.coded == here.known
            &&& b.cu_qp_delta == here.delta
            &&& b.last_qpy_prev_qg == here.before
            &&& 0 <= here.before <= 51
            &&& (b.qg_x as int, b.qg_y as int) == here.group
            &&& b.slice_qp_y == s.slice_qp_y
            &&& b.qp_bd_offset == s.qp_bd_offset
            &&& b.current_qpy == resolved_qpy(pred, here.delta, s.qp_bd_offset as int) as i32
        }),
{
    let (x, y) = (u.x as int, u.y as int);
    let (gx, gy) = (x - x % 32, y - y % 32);
    lemma_group(x);
    lemma_group(y);
    let here = arrived(d, u);
    let st = map.stride as int;
    if gx % 64 != 0 {
        assert(map.qps@[(gy / 4) * st + (gx - 1) / 4] == (d.cells)((gx - 1) / 4, gy / 4));
        assert(0 <= (d.cells)((gx - 1) / 4, gy / 4) <= 51);
    }
    if gy % 64 != 0 {
        assert(map.qps@[((gy - 1) / 4) * st + gx / 4] == (d.cells)(gx / 4, (gy - 1) / 4));
        assert(0 <= (d.cells)(gx / 4, (gy - 1) / 4) <= 51);
    }
}

/// A QP in range comes out of the wrap as it went in.
proof fn lemma_no_wrap(pred: int, delta: int, off: int)
    requires
        0 <= pred + delta <= 51,
        off >= 0,
    ensures
        (pred + delta + 52 + 2 * off) % (52 + off) - off == pred + delta,
        resolved_qpy(pred, delta, off) == pred + delta,
{
    let sum = pred + delta;
    assert((sum + 52 + 2 * off) % (52 + off) == sum + off) by (nonlinear_arith)
        requires
            0 <= sum <= 51,
            off >= 0,
    ;
}

/// The cells that a group predicts from are not those of its units.
proof fn lemma_cells_outside(u: QpUnit)
    requires
        unit_ok(u),
    ensures
        ({
            let (gx, gy) = (u.x - u.x as int % 32, u.y - u.y as int % 32);
            &&& gx > 0 ==> !in_unit(u, (gx - 1) / 4, gy / 4)
            &&& gy > 0 ==> !in_unit(u, gx / 4, (gy - 1) / 4)
        }),
{
    lemma_group(u.x as int);
    lemma_group(u.y as int);
}

/// Units of one group have one prediction.
proof fn lemma_same_group(d: QpDecoder, slice_qp: int, u: QpUnit, v: QpUnit)
    requires
        u.x as int / 64 == v.x as int / 64,
        u.y as int / 64 == v.y as int / 64,
    ensures
        predicted(d, slice_qp, u) == predicted(d, slice_qp, v),
{
}

/// One unit: a decoder that was in step stays in step, whatever the units before; it predicts
/// what the encoder predicts, and a group whose difference it knows has the QP that the group
/// is to have.
pub proof fn law_unit_stays_in_step(
    s: AqState,
    offsets: &QgOffsets,
    map: &QpMap,
    d: QpDecoder,
    u: QpUnit,
    across: int,
    down: int,
)
    requires
        unit_ok(u),
        starts_inside(u, across, down),
        same_cells(map, d, across, down),
        in_step(s, d),
        qps_ok(s, d, across, down),
        settled(s, offsets, d),
    ensures
        ({
            let t = unit_written(s, offsets, map, u);
            let e = unit_decoded(
                d,
                s.slice_qp_y as int,
                s.qp_bd_offset as int,
                u,
                unit_read(s, offsets, map, u),
            );
            &&& predicted(arrived(d, u), s.slice_qp_y as int, u) == unit_begun(s, offsets, map, u).pred
            &&& in_step(t, e)
            &&& qps_ok(t, e, across, down)
            &&& settled(t, offsets, e)
            &&& t.slice_qp_y == s.slice_qp_y
            &&& t.qp_bd_offset == s.qp_bd_offset
            &&& u.coded ==> e.known
            &&& e.known ==> e.last == wanted(
                s.slice_qp_y as int,
                offsets,
                u.x as int,
                u.y as int,
            )
        }),
{
    let slice = s.slice_qp_y as int;
    let off = s.qp_bd_offset as int;
    let (x, y) = (u.x as int, u.y as int);
    let (gx, gy) = (x - x % 32, y - y % 32);
    lemma_group(x);
    lemma_group(y);
    lemma_begun(s, offsets, map, d, u, across, down);
    let here = arrived(d, u);
    let b = unit_begun(s, offsets, map, u);
    let pred = predicted(here, slice, u);
    let want = wanted(slice, offsets, x, y);
    assert(wanted(slice, offsets, gx, gy) == want);
    let read = unit_read(s, offsets, map, u);
    let t = unit_written(s, offsets, map, u);
    let e = unit_decoded(d, slice, off, u, read);
    let corner = QpUnit { x: gx as u32, y: gy as u32, size: 32, coded: false };
    lemma_same_group(here, slice, u, corner);
    if carries(b, u) {
        let delta = want - pred;
        law_qp_delta_decodes(delta, Seq::empty());
        assert(op_values(qp_delta_ops(delta)) + Seq::<bool>::empty() =~= op_values(
            qp_delta_ops(delta),
        ));
        assert(read == Some(delta));
        lemma_no_wrap(pred, delta, off);
        assert(e.delta == delta);
    } else if here.known {
        assert(here == d);
        assert(pred + here.delta == want);
        lemma_no_wrap(pred, here.delta, off);
    } else {
        assert(here.delta == 0) by {
            if here == d {
                assert(!d.known);
            }
        }
        lemma_no_wrap(pred, 0, off);
    }
    assert(e.last == pred + e.delta);
    assert(t.current_qpy == e.last);
    assert(e.known ==> e.last == want);
    lemma_cells_outside(u);
    if gx > 0 {
        assert((e.cells)((gx - 1) / 4, gy / 4) == (d.cells)((gx - 1) / 4, gy / 4));
    }
    if gy > 0 {
        assert((e.cells)(gx / 4, (gy - 1) / 4) == (d.cells)(gx / 4, (gy - 1) / 4));
    }
    assert(predicted(e, slice, corner) == predicted(here, slice, corner));
    assert forall|cx: int, cy: int| 0 <= cx < across && 0 <= cy < down implies 0
        <= #[trigger] (e.cells)(cx, cy) <= 51 by {
        assert(0 <= (d.cells)(cx, cy) <= 51);
    }
}

/// The encoder's states at the units of a slice, each on the map as it stands then.
pub open spec fn slice_written(
    s: AqState,
    offsets: &QgOffsets,
    maps: Seq<QpMap>,
    units: Seq<QpUnit>,
    n: nat,
) -> AqState
    decreases n,
{
    if n == 0 {
        s.slice_started()
    } else {
        unit_written(
            slice_written(s, offsets, maps, units, (n - 1) as nat),
            offsets,
            &maps[n - 1],
            units[n - 1],
        )
    }
}

/// A decoder of the slice, behind its first `n` units.
pub open spec fn slice_decoded(
    s: AqState,
    offsets: &QgOffsets,
    maps: Seq<QpMap>,
    units: Seq<QpUnit>,
    cells: spec_fn(int, int) -> int,
    n: nat,
) -> QpDecoder
    decreases n,
{
    if n == 0 {
        decoder_fresh(s.slice_qp_y as int, cells)
    } else {
        let k = (n - 1) as nat;
        unit_decoded(
            slice_decoded(s, offsets, maps, units, cells, k),
            s.slice_qp_y as int,
            s.qp_bd_offset as int,
            units[n - 1],
            unit_read(slice_written(s, offsets, maps, units, k), offsets, &maps[n - 1], units[n - 1]),
        )
    }
}

/// A whole slice: a decoder that reads the coded differences and keeps its own QPs has, at
/// every unit, the QP of the encoder; and at every unit with a coded block, and those behind
/// it in the group, the QP that the group is to have. The encoder's map is to hold at each
/// unit what was noted for the units before.
pub proof fn law_slice_decodes_to_its_targets(
    s: AqState,
    offsets: &QgOffsets,
    maps: Seq<QpMap>,
    units: Seq<QpUnit>,
    cells: spec_fn(int, int) -> int,
    across: int,
    down: int,
    n: nat,
)
    requires
        n <= units.len() <= maps.len(),
        0 <= s.qp_bd_offset <= 48,
        0 <= s.slice_qp_y <= 51,
        forall|cx: int, cy: int|
            0 <= cx < across && 0 <= cy < down ==> 0 <= #[trigger] cells(cx, cy) <= 51,
        forall|i: int|
            0 <= i < n ==> unit_ok(#[trigger] units[i]) && starts_inside(units[i], across, down),
        forall|i: int|
            0 <= i < n ==> same_cells(
                &#[trigger] maps[i],
                slice_decoded(s, offsets, maps, units, cells, i as nat),
                across,
                down,
            ),
    ensures
        ({
            let t = slice_written(s, offsets, maps, units, n);
            let d = slice_decoded(s, offsets, maps, units, cells, n);
            &&& in_step(t, d)
            &&& d.last == t.current_qpy
            &&& n > 0 && units[n - 1].coded ==> d.known
            &&& n > 0 && d.known ==> d.last == wanted(
                s.slice_qp_y as int,
                offsets,
                units[n - 1].x as int,
                units[n - 1].y as int,
            )
        }),
{
    lemma_slice(s, offsets, maps, units, cells, across, down, n);
}

proof fn lemma_slice(
    s: AqState,
    offsets: &QgOffsets,
    maps: Seq<QpMap>,
    units: Seq<QpUnit>,
    cells: spec_fn(int, int) -> int,
    across: int,
    down: int,
    n: nat,
)
    requires
        n <= units.len() <= maps.len(),
        0 <= s.qp_bd_offset <= 48,
        0 <= s.slice_qp_y <= 51,
        forall|cx: int, cy: int|
            0 <= cx < across && 0 <= cy < down ==> 0 <= #[trigger] cells(cx, cy) <= 51,
        forall|i: int|
            0 <= i < n ==> unit_ok(#[trigger] units[i]) && starts_inside(units[i], across, down),
        forall|i: int|
            0 <= i < n ==> same_cells(
                &#[trigger] maps[i],
                slice_decoded(s, offsets, maps, units, cells, i as nat),
                across,
                down,
            ),
    ensures
        ({
            let t = slice_written(s, offsets, maps, units, n);
            let d = slice_decoded(s, offsets, maps, units, cells, n);
            &&& in_step(t, d)
            &&& qps_ok(t, d, across, down)
            &&& settled(t, offsets, d)
            &&& t.slice_qp_y == s.slice_qp_y
            &&& t.qp_bd_offset == s.qp_bd_offset
            &&& n > 0 && units[n - 1].coded ==> d.known
            &&& n > 0 && d.known ==> d.last == wanted(
                s.slice_qp_y as int,
                offsets,
                units[n - 1].x as int,
                units[n - 1].y as int,
            )
        }),
    decreases n,
{
    if n > 0 {
        let k = (n - 1) as nat;
        lemma_slice(s, offsets, maps, units, cells, across, down, k);
        assert(same_cells(
            &maps[n - 1],
            slice_decoded(s, offsets, maps, units, cells, k),
            across,
            down,
        ));
        assert(unit_ok(units[n - 1]));
        law_unit_stays_in_step(
            slice_written(s, offsets, maps, units, k),
            offsets,
            &maps[n - 1],
            slice_decoded(s, offsets, maps, units, cells, k),
            units[n - 1],
            across,
            down,
        );
    }
}

} // verus!
