//! Choosing sample adaptive offset parameters for coding tree blocks.

use vstd::prelude::*;

use crate::frame::{Frame, Plane};
use crate::math::{ceil_div, min_int};
use crate::sao::{
    bo_tally, eo_tally, sao_bo_stats, sao_eo_stats, tally_bounded, BoStats, EoStats, Region,
};
use crate::source::SourcePicture;

verus! {

/// Offsets and by how much they reduce the error. The band is that of the first offset,
/// for band offsets alone.
#[derive(Clone, Copy)]
pub struct Offsets {
    pub values: [i8; 4],
    pub band: u8,
    pub reduction: i64,
}

/// The offset parameters of a coding tree block, per component.
#[derive(Clone, Copy)]
pub struct SaoInfo {
    /// 0: none, 1: band, 2: edge.
    pub type_idx: [u8; 3],
    pub eo_class: [u8; 3],
    pub offsets: [[i8; 4]; 3],
    pub band_position: [u8; 3],
}

/// Names the statistics that an offer was made for.
pub open spec fn stats_seen(bands: BoStats) -> bool {
    true
}

pub open spec fn edges_seen(edges: EoStats) -> bool {
    true
}

/// The band offsets offered for a region.
pub open spec fn band_offered<B>(
    pic: &SourcePicture,
    plane: &Plane,
    c_idx: u8,
    r: Region,
    bo: B,
    o: Offsets,
) -> bool where B: Fn(&BoStats) -> Offsets {
    exists|s: BoStats|
        {
            &&& #[trigger] stats_seen(s)
            &&& s.tally() == bo_tally(pic, plane, c_idx, r, r.height() as nat, 0)
            &&& call_ensures(bo, (&s,), o)
        }
}

/// The edge offsets of a class offered for a region.
pub open spec fn edge_offered<E>(
    pic: &SourcePicture,
    plane: &Plane,
    c_idx: u8,
    class: u8,
    r: Region,
    eo: E,
    o: Offsets,
) -> bool where E: Fn(&EoStats) -> Offsets {
    exists|s: EoStats|
        {
            &&& #[trigger] edges_seen(s)
            &&& s.tally() == eo_tally(pic, plane, c_idx, class as int, r, r.height() as nat, 0)
            &&& call_ensures(eo, (&s,), o)
        }
}

/// The offers for a region: band offsets, then edge offsets of the four classes.
pub open spec fn offers_made<B, E>(
    pic: &SourcePicture,
    plane: &Plane,
    c_idx: u8,
    r: Region,
    bo: B,
    eo: E,
    offers: Seq<Offsets>,
) -> bool where B: Fn(&BoStats) -> Offsets, E: Fn(&EoStats) -> Offsets {
    &&& offers.len() == 5
    &&& band_offered(pic, plane, c_idx, r, bo, offers[0])
    &&& forall|class: int|
        0 <= class < 4 ==> edge_offered(
            pic,
            plane,
            c_idx,
            class as u8,
            r,
            eo,
            #[trigger] offers[class + 1],
        )
}

/// The caller finds offsets for the statistics of every region of an area.
pub open spec fn offers_ok<B, E>(bo: B, eo: E, area: int) -> bool where
    B: Fn(&BoStats) -> Offsets,
    E: Fn(&EoStats) -> Offsets,
 {
    &&& forall|s: &BoStats|
        tally_bounded(s.tally(), 32, area) ==> #[trigger] call_requires(bo, (s,))
    &&& forall|s: &BoStats, o: Offsets| #[trigger]
        call_ensures(bo, (s,), o) && tally_bounded(s.tally(), 32, area)
            ==> -0x4000_0000_0000_0000 <= o.reduction <= 0x3fff_ffff_ffff_ffff
    &&& forall|s: &EoStats|
        tally_bounded(s.tally(), 5, area) ==> #[trigger] call_requires(eo, (s,))
    &&& forall|s: &EoStats, o: Offsets| #[trigger]
        call_ensures(eo, (s,), o) && tally_bounded(s.tally(), 5, area)
            ==> -0x4000_0000_0000_0000 <= o.reduction <= 0x3fff_ffff_ffff_ffff
}

fn list_offers<B, E>(
    pic: &SourcePicture,
    plane: &Plane,
    c_idx: u8,
    r: Region,
    bo: &B,
    eo: &E,
    Ghost(area): Ghost<int>,
) -> (offers: Vec<Offsets>) where B: Fn(&BoStats) -> Offsets, E: Fn(&EoStats) -> Offsets
    requires
        pic.bit_depth <= 16,
        plane.well_formed(),
        r.fits(plane),
        c_idx <= 2,
        offers_ok(*bo, *eo, area),
        0 <= r.width() * r.height() <= area,
    ensures
        offers_made(pic, plane, c_idx, r, *bo, *eo, offers@),
        forall|i: int|
            0 <= i < 5 ==> -0x4000_0000_0000_0000 <= (#[trigger] offers@[i]).reduction
                <= 0x3fff_ffff_ffff_ffff,
{
    let mut offers: Vec<Offsets> = Vec::new();
    let bands = sao_bo_stats(pic, plane, c_idx, r);
    let band = (*bo)(&bands);
    assert(stats_seen(bands));
    offers.push(band);
    for class in 0..4u8
        invariant
            pic.bit_depth <= 16,
            plane.well_formed(),
            r.fits(plane),
            c_idx <= 2,
            offers_ok(*bo, *eo, area),
            0 <= r.width() * r.height() <= area,
            offers@.len() == class + 1,
            offers@[0] == band,
            -0x4000_0000_0000_0000 <= band.reduction <= 0x3fff_ffff_ffff_ffff,
            forall|k: int|
                0 <= k < class ==> edge_offered(
                    pic,
                    plane,
                    c_idx,
                    k as u8,
                    r,
                    *eo,
                    #[trigger] offers@[k + 1],
                ),
            forall|i: int|
                0 <= i < class + 1 ==> -0x4000_0000_0000_0000 <= (
                #[trigger] offers@[i]).reduction <= 0x3fff_ffff_ffff_ffff,
    {
        let ghost before = offers@;
        let edges = sao_eo_stats(pic, plane, c_idx, class, r);
        let o = (*eo)(&edges);
        assert(edges_seen(edges));
        offers.push(o);
        proof {
            assert(edge_offered(pic, plane, c_idx, class, r, *eo, o));
            assert forall|k: int| 0 <= k < class + 1 implies edge_offered(
                pic,
                plane,
                c_idx,
                k as u8,
                r,
                *eo,
                #[trigger] offers@[k + 1],
            ) by {
                if k < class {
                    assert(offers@[k + 1] == before[k + 1]);
                }
            }
        }
    }
    offers
}

/// The best of the first `n` offers: 0 for none, else one more than the place of the first
/// that reduces the error most.
pub open spec fn best_offer(reductions: Seq<int>, n: nat) -> (int, int)
    decreases n,
{
    if n == 0 {
        (0, 0)
    } else {
        let before = best_offer(reductions, (n - 1) as nat);
        if reductions[n - 1] > before.1 {
            (n as int, reductions[n - 1])
        } else {
            before
        }
    }
}

/// The reductions of the offers of one component.
pub open spec fn single(offers: Seq<Offsets>) -> Seq<int> {
    Seq::new(offers.len(), |i: int| offers[i].reduction as int)
}

/// The joint reductions of the offers of two components.
pub open spec fn joint(a: Seq<Offsets>, b: Seq<Offsets>) -> Seq<int> {
    Seq::new(a.len(), |i: int| a[i].reduction + b[i].reduction)
}

/// A component's parameters are those of a choice among its offers.
pub open spec fn component_set(info: &SaoInfo, c: int, choice: int, offers: Seq<Offsets>) -> bool {
    if choice == 0 {
        &&& info.type_idx[c] == 0
        &&& info.eo_class[c] == 0
        &&& info.offsets[c]@ == seq![0i8, 0, 0, 0]
        &&& info.band_position[c] == 0
    } else if choice == 1 {
        &&& info.type_idx[c] == 1
        &&& info.eo_class[c] == 0
        &&& info.offsets[c]@ == offers[0].values@
        &&& info.band_position[c] == offers[0].band
    } else {
        &&& info.type_idx[c] == 2
        &&& info.eo_class[c] == choice - 2
        &&& info.offsets[c]@ == offers[choice - 1].values@
        &&& info.band_position[c] == 0
    }
}

/// How chroma is subsampled, across and down.
pub open spec fn subsampling(cat: u8) -> (int, int) {
    if cat == 1 {
        (2, 2)
    } else if cat == 2 {
        (2, 1)
    } else {
        (1, 1)
    }
}

/// What a coding tree block covers of a plane.
pub open spec fn ctb_region(
    plane: &Plane,
    x0: int,
    y0: int,
    width: int,
    height: int,
) -> Region {
    Region {
        x_start: x0 as u32,
        y_start: y0 as u32,
        x_end: min_int(x0 + width, plane.width as int) as u32,
        y_end: min_int(y0 + height, plane.height as int) as u32,
    }
}

/// Names the offers of a coding tree block.
pub open spec fn block_offers(y: Seq<Offsets>, cb: Seq<Offsets>, cr: Seq<Offsets>) -> bool {
    true
}

/// A coding tree block's parameters: those of luma by themselves, and those of both chroma
/// components of the same kind, chosen together.
pub open spec fn sao_decided<B, E>(
    pic: &SourcePicture,
    frame: &Frame,
    ctb_size: int,
    ctb_x: int,
    ctb_y: int,
    bo: B,
    eo: E,
    info: SaoInfo,
) -> bool where B: Fn(&BoStats) -> Offsets, E: Fn(&EoStats) -> Offsets {
    exists|y: Seq<Offsets>, cb: Seq<Offsets>, cr: Seq<Offsets>|
        {
            let (x0, y0) = (ctb_x * ctb_size, ctb_y * ctb_size);
            let (sx, sy) = subsampling(pic.cat);
            let luma = ctb_region(&frame.planes@[0], x0, y0, ctb_size, ctb_size);
            let chroma = ctb_region(
                &frame.planes@[1],
                x0 / sx,
                y0 / sy,
                ctb_size / sx,
                ctb_size / sy,
            );
            let luma_choice = best_offer(single(y), 5).0;
            let chroma_choice = if pic.cat == 0 {
                0
            } else {
                best_offer(joint(cb, cr), 5).0
            };
            &&& #[trigger] block_offers(y, cb, cr)
            &&& offers_made(pic, &frame.planes@[0], 0, luma, bo, eo, y)
            &&& pic.cat != 0 ==> offers_made(pic, &frame.planes@[1], 1, chroma, bo, eo, cb)
            &&& pic.cat != 0 ==> offers_made(pic, &frame.planes@[2], 2, chroma, bo, eo, cr)
            &&& component_set(&info, 0, luma_choice, y)
            &&& component_set(&info, 1, chroma_choice, cb)
            &&& component_set(&info, 2, chroma_choice, cr)
        }
}

fn pick_single(offers: &Vec<Offsets>) -> (choice: usize)
    requires
        offers@.len() == 5,
    ensures
        choice == best_offer(single(offers@), 5).0,
        choice <= 5,
{
    let mut choice: usize = 0;
    let mut best: i64 = 0;
    for i in 0..5usize
        invariant
            offers@.len() == 5,
            choice <= i,
            (choice as int, best as int) == best_offer(single(offers@), i as nat),
    {
        if offers[i].reduction > best {
            choice = i + 1;
            best = offers[i].reduction;
        }
    }
    choice
}

fn pick_joint(a: &Vec<Offsets>, b: &Vec<Offsets>) -> (choice: usize)
    requires
        a@.len() == 5,
        b@.len() == 5,
        forall|i: int|
            0 <= i < 5 ==> -0x4000_0000_0000_0000 <= (#[trigger] a@[i]).reduction
                <= 0x3fff_ffff_ffff_ffff,
        forall|i: int|
            0 <= i < 5 ==> -0x4000_0000_0000_0000 <= (#[trigger] b@[i]).reduction
                <= 0x3fff_ffff_ffff_ffff,
    ensures
        choice == best_offer(joint(a@, b@), 5).0,
        choice <= 5,
{
    let mut choice: usize = 0;
    let mut best: i64 = 0;
    for i in 0..5usize
        invariant
            a@.len() == 5,
            b@.len() == 5,
            forall|k: int|
                0 <= k < 5 ==> -0x4000_0000_0000_0000 <= (#[trigger] a@[k]).reduction
                    <= 0x3fff_ffff_ffff_ffff,
            forall|k: int|
                0 <= k < 5 ==> -0x4000_0000_0000_0000 <= (#[trigger] b@[k]).reduction
                    <= 0x3fff_ffff_ffff_ffff,
            choice <= i,
            (choice as int, best as int) == best_offer(joint(a@, b@), i as nat),
    {
        let total: i64 = a[i].reduction + b[i].reduction;
        if total > best {
            choice = i + 1;
            best = total;
        }
    }
    choice
}

fn set_component(info: &mut SaoInfo, c: usize, choice: usize, offers: &Vec<Offsets>)
    requires
        c < 3,
        choice <= 5,
        choice > 0 ==> offers@.len() == 5,
        component_set(old(info), c as int, 0, offers@),
    ensures
        component_set(final(info), c as int, choice as int, offers@),
        forall|k: int|
            0 <= k < 3 && k != c ==> {
                &&& #[trigger] final(info).type_idx[k] == old(info).type_idx[k]
                &&& final(info).eo_class[k] == old(info).eo_class[k]
                &&& final(info).offsets[k] == old(info).offsets[k]
                &&& final(info).band_position[k] == old(info).band_position[k]
            },
{
    if choice == 1 {
        info.type_idx[c] = 1;
        info.offsets[c] = offers[0].values;
        info.band_position[c] = offers[0].band;
    } else if choice > 1 {
        info.type_idx[c] = 2;
        info.eo_class[c] = (choice - 2) as u8;
        info.offsets[c] = offers[choice - 1].values;
    }
}

/// The planes have sizes that statistics are bounded for.
pub open spec fn sao_frame_ok(frame: &Frame) -> bool {
    &&& frame.well_formed()
    &&& frame.planes@[2].width == frame.planes@[1].width
    &&& frame.planes@[2].height == frame.planes@[1].height
}

fn covered(plane: &Plane, x0: u32, y0: u32, width: u32, height: u32) -> (r: Region)
    requires
        x0 + width <= u32::MAX,
        y0 + height <= u32::MAX,
        width * height * 65535 <= i64::MAX,
    ensures
        r == ctb_region(plane, x0 as int, y0 as int, width as int, height as int),
        r.fits(plane),
        0 <= r.width() * r.height() <= width * height,
{
    let (x1, y1): (u32, u32) = (x0 + width, y0 + height);
    let r = Region {
        x_start: x0,
        y_start: y0,
        x_end: if (x1 as usize) < plane.width {
            x1
        } else {
            plane.width as u32
        },
        y_end: if (y1 as usize) < plane.height {
            y1
        } else {
            plane.height as u32
        },
    };
    assert(0 <= r.width() * r.height() <= width * height) by (nonlinear_arith)
        requires
            0 <= r.width() <= width,
            0 <= r.height() <= height,
    ;
    r
}

/// Chooses the parameters of a coding tree block.
pub fn decide_sao_ctb<B, E>(
    pic: &SourcePicture,
    frame: &Frame,
    ctb_size: u32,
    ctb_x: u32,
    ctb_y: u32,
    bo: &B,
    eo: &E,
) -> (info: SaoInfo) where B: Fn(&BoStats) -> Offsets, E: Fn(&EoStats) -> Offsets
    requires
        pic.bit_depth <= 16,
        sao_frame_ok(frame),
        offers_ok(*bo, *eo, ctb_size * ctb_size),
        ctb_size * ctb_size * 65535 <= i64::MAX,
        ctb_x * ctb_size + ctb_size <= u32::MAX,
        ctb_y * ctb_size + ctb_size <= u32::MAX,
    ensures
        sao_decided(
            pic,
            frame,
            ctb_size as int,
            ctb_x as int,
            ctb_y as int,
            *bo,
            *eo,
            info,
        ),
{
    proof {
        assert(ctb_x * ctb_size >= 0) by (nonlinear_arith);
        assert(ctb_y * ctb_size >= 0) by (nonlinear_arith);
    }
    let x0: u32 = ctb_x * ctb_size;
    let y0: u32 = ctb_y * ctb_size;
    let mut info = SaoInfo {
        type_idx: [0, 0, 0],
        eo_class: [0, 0, 0],
        offsets: [[0, 0, 0, 0], [0, 0, 0, 0], [0, 0, 0, 0]],
        band_position: [0, 0, 0],
    };
    let luma = covered(&frame.planes[0], x0, y0, ctb_size, ctb_size);
    let y = list_offers(pic, &frame.planes[0], 0, luma, bo, eo, Ghost(ctb_size * ctb_size));
    let choice: usize = pick_single(&y);
    let ghost empty = info;
    set_component(&mut info, 0, choice, &y);
    let ghost first = info;
    proof {
        assert(first.type_idx[1] == empty.type_idx[1]);
        assert(first.type_idx[2] == empty.type_idx[2]);
    }
    if pic.cat == 0 {
        proof {
            assert(block_offers(y@, Seq::empty(), Seq::empty()));
        }
        return info;
    }
    let (sx, sy): (u32, u32) = if pic.cat == 1 {
        (2, 2)
    } else if pic.cat == 2 {
        (2, 1)
    } else {
        (1, 1)
    };
    assert((ctb_size / sx) * (ctb_size / sy) <= ctb_size * ctb_size) by (nonlinear_arith)
        requires
            0 <= ctb_size / sx <= ctb_size,
            0 <= ctb_size / sy <= ctb_size,
    ;
    let chroma = covered(&frame.planes[1], x0 / sx, y0 / sy, ctb_size / sx, ctb_size / sy);
    let cb = list_offers(pic, &frame.planes[1], 1, chroma, bo, eo, Ghost(ctb_size * ctb_size));
    let cr = list_offers(pic, &frame.planes[2], 2, chroma, bo, eo, Ghost(ctb_size * ctb_size));
    let choice: usize = pick_joint(&cb, &cr);
    set_component(&mut info, 1, choice, &cb);
    let ghost second = info;
    proof {
        assert(second.type_idx[0] == first.type_idx[0]);
        assert(second.type_idx[2] == first.type_idx[2]);
    }
    set_component(&mut info, 2, choice, &cr);
    proof {
        assert(info.type_idx[0] == second.type_idx[0]);
        assert(info.type_idx[1] == second.type_idx[1]);
        assert(block_offers(y@, cb@, cr@));
    }
    info
}

/// Chooses the parameters of a row of coding tree blocks.
pub fn decide_sao_row<B, E>(
    pic: &SourcePicture,
    frame: &Frame,
    ctb_size: u32,
    ctbs_x: u32,
    ctb_y: u32,
    bo: &B,
    eo: &E,
) -> (row: Vec<SaoInfo>) where B: Fn(&BoStats) -> Offsets, E: Fn(&EoStats) -> Offsets
    requires
        pic.bit_depth <= 16,
        sao_frame_ok(frame),
        offers_ok(*bo, *eo, ctb_size * ctb_size),
        ctb_size * ctb_size * 65535 <= i64::MAX,
        ctbs_x * ctb_size <= u32::MAX,
        ctb_y * ctb_size + ctb_size <= u32::MAX,
    ensures
        row@.len() == ctbs_x,
        forall|i: int|
            0 <= i < ctbs_x ==> sao_decided(
                pic,
                frame,
                ctb_size as int,
                i,
                ctb_y as int,
                *bo,
                *eo,
                #[trigger] row@[i],
            ),
{
    let mut row: Vec<SaoInfo> = Vec::new();
    for i in 0..ctbs_x
        invariant
            pic.bit_depth <= 16,
            sao_frame_ok(frame),
            offers_ok(*bo, *eo, ctb_size * ctb_size),
            ctb_size * ctb_size * 65535 <= i64::MAX,
            ctbs_x * ctb_size <= u32::MAX,
            ctb_y * ctb_size + ctb_size <= u32::MAX,
            row@.len() == i,
            forall|k: int|
                0 <= k < i ==> sao_decided(
                    pic,
                    frame,
                    ctb_size as int,
                    k,
                    ctb_y as int,
                    *bo,
                    *eo,
                    #[trigger] row@[k],
                ),
    {
        assert(i * ctb_size + ctb_size <= ctbs_x * ctb_size) by (nonlinear_arith)
            requires
                i + 1 <= ctbs_x,
                ctb_size >= 0,
        ;
        row.push(decide_sao_ctb(pic, frame, ctb_size, i, ctb_y, bo, eo));
    }
    row
}

/// The rows of a picture that a worker takes: every so many, from its own number on.
pub open spec fn worker_rows(rows: int, workers: int, worker: int) -> Seq<int>
    decreases rows,
{
    if rows <= 0 {
        Seq::empty()
    } else if (rows - 1) % workers == worker {
        worker_rows(rows - 1, workers, worker).push(rows - 1)
    } else {
        worker_rows(rows - 1, workers, worker)
    }
}

/// Lists the rows that a worker takes.
pub fn rows_of_worker(rows: u32, workers: u32, worker: u32) -> (v: Vec<u32>)
    requires
        workers > 0,
    ensures
        v@.map_values(|y: u32| y as int) == worker_rows(rows as int, workers as int, worker as int),
{
    let mut v: Vec<u32> = Vec::new();
    assert(v@.map_values(|y: u32| y as int) =~= Seq::empty());
    for y in 0..rows
        invariant
            workers > 0,
            v@.map_values(|y: u32| y as int) == worker_rows(
                y as int,
                workers as int,
                worker as int,
            ),
    {
        let ghost before = v@;
        if y % workers == worker {
            v.push(y);
            assert(v@.map_values(|y: u32| y as int) =~= before.map_values(
                |y: u32| y as int,
            ).push(y as int));
        }
    }
    v
}

/// Each row is some worker's, and no other's: the parameters are the same however many
/// workers there are.
pub proof fn law_each_row_decided_once(rows: int, workers: int, worker: int, y: int)
    requires
        workers > 0,
        0 <= worker < workers,
        0 <= y < rows,
    ensures
        worker_rows(rows, workers, worker).contains(y) <==> y % workers == worker,
        worker_rows(rows, workers, worker).no_duplicates(),
    decreases rows,
{
    lemma_rows_below(rows, workers, worker);
    let all = worker_rows(rows, workers, worker);
    let before = worker_rows(rows - 1, workers, worker);
    lemma_rows_below(rows - 1, workers, worker);
    if y == rows - 1 {
        if y % workers == worker {
            assert(all[all.len() - 1] == y);
        } else {
            assert(all == before);
        }
    } else {
        law_each_row_decided_once(rows - 1, workers, worker, y);
        if (rows - 1) % workers == worker {
            if before.contains(y) {
                let i = choose|i: int| 0 <= i < before.len() && before[i] == y;
                assert(all[i] == y);
            }
            if all.contains(y) {
                let i = choose|i: int| 0 <= i < all.len() && all[i] == y;
                assert(before[i] == y);
            }
        }
    }
}

proof fn lemma_rows_below(rows: int, workers: int, worker: int)
    requires
        workers > 0,
    ensures
        forall|i: int|
            0 <= i < worker_rows(rows, workers, worker).len() ==> 0 <= #[trigger] worker_rows(
                rows,
                workers,
                worker,
            )[i] < rows,
        worker_rows(rows, workers, worker).no_duplicates(),
    decreases rows,
{
    if rows > 0 {
        lemma_rows_below(rows - 1, workers, worker);
    }
}

/// Chooses the parameters of every coding tree block of a picture, row by row.
pub fn decide_sao_map<B, E>(
    pic: &SourcePicture,
    frame: &Frame,
    ctb_size: u32,
    bo: &B,
    eo: &E,
) -> (map: Vec<Vec<SaoInfo>>) where B: Fn(&BoStats) -> Offsets, E: Fn(&EoStats) -> Offsets
    requires
        pic.bit_depth <= 16,
        sao_frame_ok(frame),
        offers_ok(*bo, *eo, ctb_size * ctb_size),
        ctb_size > 0,
        ctb_size * ctb_size * 65535 <= i64::MAX,
        ceil_div(pic.width as int, ctb_size as int) * ctb_size <= u32::MAX,
        ceil_div(pic.height as int, ctb_size as int) * ctb_size <= u32::MAX,
    ensures
        map@.len() == ceil_div(pic.height as int, ctb_size as int),
        forall|y: int|
            0 <= y < map@.len() ==> (#[trigger] map@[y])@.len() == ceil_div(
                pic.width as int,
                ctb_size as int,
            ),
        forall|x: int, y: int|
            0 <= y < map@.len() && 0 <= x < map@[y]@.len() ==> sao_decided(
                pic,
                frame,
                ctb_size as int,
                x,
                y,
                *bo,
                *eo,
                #[trigger] map@[y]@[x],
            ),
{
    let ctbs_x: u32 = crate::math::ceil_div_u32(pic.width, ctb_size);
    let ctbs_y: u32 = crate::math::ceil_div_u32(pic.height, ctb_size);
    let mut map: Vec<Vec<SaoInfo>> = Vec::new();
    for y in 0..ctbs_y
        invariant
            pic.bit_depth <= 16,
            sao_frame_ok(frame),
            offers_ok(*bo, *eo, ctb_size * ctb_size),
            ctb_size * ctb_size * 65535 <= i64::MAX,
            ctbs_x * ctb_size <= u32::MAX,
            ctbs_y * ctb_size <= u32::MAX,
            map@.len() == y,
            forall|k: int| 0 <= k < y ==> (#[trigger] map@[k])@.len() == ctbs_x,
            forall|x: int, k: int|
                0 <= k < y && 0 <= x < ctbs_x ==> sao_decided(
                    pic,
                    frame,
                    ctb_size as int,
                    x,
                    k,
                    *bo,
                    *eo,
                    #[trigger] map@[k]@[x],
                ),
    {
        assert(y * ctb_size + ctb_size <= ctbs_y * ctb_size) by (nonlinear_arith)
            requires
                y + 1 <= ctbs_y,
                ctb_size >= 0,
        ;
        let ghost before = map@;
        let row = decide_sao_row(pic, frame, ctb_size, ctbs_x, y, bo, eo);
        let ghost made = row@;
        map.push(row);
        proof {
            assert forall|x: int, k: int| 0 <= k < y + 1 && 0 <= x < ctbs_x implies sao_decided(
                pic,
                frame,
                ctb_size as int,
                x,
                k,
                *bo,
                *eo,
                #[trigger] map@[k]@[x],
            ) by {
                if k < y {
                    assert(map@[k] == before[k]);
                } else {
                    assert(map@[k]@ == made);
                }
            }
        }
    }
    map
}

/// Offsets are taken only where they reduce the error, and then no other offer reduces it
/// more.
pub proof fn law_offsets_reduce_most(reductions: Seq<int>, n: nat)
    requires
        n <= reductions.len(),
    ensures
        ({
            let (choice, best) = best_offer(reductions, n);
            &&& 0 <= choice <= n
            &&& choice == 0 ==> {
                &&& best == 0
                &&& forall|i: int| 0 <= i < n ==> #[trigger] reductions[i] <= 0
            }
            &&& choice > 0 ==> {
                &&& reductions[choice - 1] == best
                &&& best > 0
                &&& forall|i: int| 0 <= i < n ==> #[trigger] reductions[i] <= best
            }
        }),
    decreases n,
{
    if n > 0 {
        law_offsets_reduce_most(reductions, (n - 1) as nat);
    }
}

} // verus!
