//! What trials change, and how it is saved and put back.

use vstd::prelude::*;

use crate::frame::Frame;
use crate::geometry::{block_side, side};
use crate::maps::BlockMaps;
use crate::math::{ceil_div, ceil_div_u32};
use crate::region::{rect_copy, rect_pasted};
use crate::snapshot::{
    frame_restored, is_clamped, law_map_restored, law_trial_undone, paste_frame, restore_map,
    snapshot_bytes, snapshot_map, FrameSnapshot, MapSnapshot, PlaneSnapshot,
};
use crate::stats::EncodeStats;
use crate::trial_region::TrialReconRegion;

verus! {

/// The reconstruction and the maps that a search works on.
pub struct SearchState {
    pub frame: Frame,
    pub maps: BlockMaps,
    /// Transform depth per 4x4 cell.
    pub tu_depth_map: Vec<u8>,
    pub tu_depth_stride: usize,
    /// The work so far, that of trials that were undone included.
    pub stats: EncodeStats,
}

/// A state with work counted.
pub open spec fn worked(st: SearchState, work: EncodeStats) -> SearchState {
    SearchState { stats: st.stats.plus(work), ..st }
}

/// A map has whole rows.
pub open spec fn rows_ok(map: Seq<u8>, stride: usize) -> bool {
    stride > 0 && map.len() % stride as nat == 0
}

impl SearchState {
    pub open spec fn well_formed(&self) -> bool {
        &&& self.frame.well_formed()
        &&& rows_ok(self.maps.mode_map@, self.maps.mode_stride)
        &&& rows_ok(self.maps.ct_depth_map@, self.maps.ct_depth_stride)
        &&& rows_ok(self.tu_depth_map@, self.tu_depth_stride)
    }

    /// The states belong to the same picture.
    pub open spec fn same_picture(&self, other: &Self) -> bool {
        &&& self.frame.same_shape(&other.frame)
        &&& self.maps.width == other.maps.width
        &&& self.maps.height == other.maps.height
        &&& self.maps.tile_grid == other.maps.tile_grid
        &&& self.maps.mode_stride == other.maps.mode_stride
        &&& self.maps.mode_map@.len() == other.maps.mode_map@.len()
        &&& self.maps.ct_depth_stride == other.maps.ct_depth_stride
        &&& self.maps.ct_depth_map@.len() == other.maps.ct_depth_map@.len()
        &&& self.tu_depth_stride == other.tu_depth_stride
        &&& self.tu_depth_map@.len() == other.tu_depth_map@.len()
    }

    /// The states hold the same samples and map entries.
    pub open spec fn same_content(&self, other: &Self) -> bool {
        &&& forall|c: int|
            #![trigger self.frame.planes@[c]]
            0 <= c < 3 ==> self.frame.planes@[c].data@ == other.frame.planes@[c].data@
        &&& self.maps.mode_map@ == other.maps.mode_map@
        &&& self.maps.ct_depth_map@ == other.maps.ct_depth_map@
        &&& self.tu_depth_map@ == other.tu_depth_map@
    }

    /// Counts work.
    pub fn count(&mut self, work: EncodeStats)
        ensures
            *final(self) == worked(*old(self), work),
            final(self).same_picture(old(self)),
            old(self).well_formed() ==> final(self).well_formed(),
    {
        self.stats = self.stats.joined(work);
        assert(self.frame.same_shape(&old(self).frame));
    }
}

/// What a state holds of a region.
pub struct RegionSnapshot {
    pub frame: FrameSnapshot,
    pub modes: MapSnapshot,
    pub ct_depths: MapSnapshot,
    pub tu_depths: MapSnapshot,
}

/// A snapshot copies the cells of a map that a block covers.
pub open spec fn copies_map(
    s: &MapSnapshot,
    map: Seq<u8>,
    stride: usize,
    x: int,
    y: int,
    n: int,
) -> bool {
    &&& s.stride == stride
    &&& s.of_map(map.len() as int)
    &&& is_clamped(s.rect, x, y, n, n, stride as int, map.len() as int / stride as int)
    &&& s.data@ == rect_copy(map, stride as int, s.rect)
}

impl RegionSnapshot {
    /// The snapshot has a place in the state.
    pub open spec fn fits(&self, st: &SearchState) -> bool {
        &&& self.frame.of_frame(&st.frame)
        &&& self.modes.stride == st.maps.mode_stride
        &&& self.modes.of_map(st.maps.mode_map@.len() as int)
        &&& self.ct_depths.stride == st.maps.ct_depth_stride
        &&& self.ct_depths.of_map(st.maps.ct_depth_map@.len() as int)
        &&& self.tu_depths.stride == st.tu_depth_stride
        &&& self.tu_depths.of_map(st.tu_depth_map@.len() as int)
    }

    /// The snapshot is what a state holds of a block.
    pub open spec fn copies(&self, st: &SearchState, x0: u32, y0: u32, log2_size: u8) -> bool {
        &&& self.frame.copies_block(&st.frame, x0, y0, log2_size)
        &&& copies_map(
            &self.modes,
            st.maps.mode_map@,
            st.maps.mode_stride,
            x0 as int / 4,
            y0 as int / 4,
            side(log2_size) / 4,
        )
        &&& copies_map(
            &self.ct_depths,
            st.maps.ct_depth_map@,
            st.maps.ct_depth_stride,
            x0 as int / 8,
            y0 as int / 8,
            ceil_div(side(log2_size), 8),
        )
        &&& copies_map(
            &self.tu_depths,
            st.tu_depth_map@,
            st.tu_depth_stride,
            x0 as int / 4,
            y0 as int / 4,
            side(log2_size) / 4,
        )
    }
}

/// The work of taking a snapshot.
pub open spec fn save_work(s: &RegionSnapshot) -> EncodeStats {
    EncodeStats {
        frame_snapshots: s.frame.planes@.len() as u64,
        map_snapshots: 3,
        bytes_snapshotted: (s.frame.bytes() + s.modes.data@.len() + s.ct_depths.data@.len()
            + s.tu_depths.data@.len()) as u64,
        ..EncodeStats::none()
    }
}

/// The work of putting a snapshot back.
pub open spec fn restore_work(s: &RegionSnapshot) -> EncodeStats {
    EncodeStats {
        frame_restores: s.frame.planes@.len() as u64,
        map_restores: 3,
        ..EncodeStats::none()
    }
}

/// A state with a snapshot put back.
pub open spec fn restored(before: &SearchState, after: &SearchState, s: &RegionSnapshot) -> bool {
    &&& after.stats == before.stats.plus(restore_work(s))
    &&& frame_restored(&before.frame, &after.frame, &s.frame)
    &&& after.same_picture(before)
    &&& after.maps.mode_map@ == rect_pasted(
        before.maps.mode_map@,
        s.modes.stride as int,
        s.modes.rect,
        s.modes.data@,
    )
    &&& after.maps.ct_depth_map@ == rect_pasted(
        before.maps.ct_depth_map@,
        s.ct_depths.stride as int,
        s.ct_depths.rect,
        s.ct_depths.data@,
    )
    &&& after.tu_depth_map@ == rect_pasted(
        before.tu_depth_map@,
        s.tu_depths.stride as int,
        s.tu_depths.rect,
        s.tu_depths.data@,
    )
}

/// The bytes of a frame snapshot.
fn frame_bytes(s: &FrameSnapshot) -> (n: u64)
    requires
        s.planes@.len() <= 3,
        s.bytes() <= 0x6000_0000,
    ensures
        n == s.bytes(),
{
    let count: usize = s.planes.len();
    let mut n: u64 = 0;
    assert(s.planes@.take(0) =~= Seq::empty());
    for i in 0..count
        invariant
            count == s.planes@.len(),
            s.bytes() <= 0x6000_0000,
            n == snapshot_bytes(s.planes@.take(i as int)),
            n <= 0x6000_0000,
    {
        let len: usize = s.planes[i].data.len();
        proof {
            assert(s.planes@.take(i + 1).drop_last() =~= s.planes@.take(i as int));
            lemma_bytes_prefix(s.planes@, i + 1);
        }
        n = n + 2 * len as u64;
    }
    assert(s.planes@.take(count as int) =~= s.planes@);
    n
}

proof fn lemma_bytes_prefix(planes: Seq<PlaneSnapshot>, n: int)
    requires
        0 <= n <= planes.len(),
    ensures
        snapshot_bytes(planes.take(n)) <= snapshot_bytes(planes),
    decreases planes.len(),
{
    if n < planes.len() {
        lemma_bytes_prefix(planes.drop_last(), n);
        assert(planes.drop_last().take(n) =~= planes.take(n));
    } else {
        assert(planes.take(n) =~= planes);
    }
}

proof fn lemma_map_bytes(s: &MapSnapshot, map: Seq<u8>, stride: usize, x: int, y: int, n: int)
    requires
        copies_map(s, map, stride, x, y, n),
        0 <= n <= 4096,
    ensures
        s.data@.len() <= 0x100_0000,
{
    let (w, h) = (s.rect.width as int, s.rect.height as int);
    assert(w * h <= 4096 * 4096) by (nonlinear_arith)
        requires
            0 <= w <= n,
            0 <= h <= n,
            n <= 4096,
    ;
}

/// Saves what a state holds of a block.
pub fn save_region(st: &mut SearchState, x0: u32, y0: u32, log2_size: u8) -> (s: RegionSnapshot)
    requires
        old(st).well_formed(),
        log2_size <= 12,
    ensures
        s.fits(old(st)),
        s.copies(old(st), x0, y0, log2_size),
        *final(st) == worked(*old(st), save_work(&s)),
        final(st).same_picture(old(st)),
        final(st).well_formed(),
        s.fits(final(st)),
{
    let size: u32 = block_side(log2_size);
    let quarter: usize = (size / 4) as usize;
    let eighth: usize = ceil_div_u32(size, 8) as usize;
    let region = TrialReconRegion::new(&st.frame, x0, y0, log2_size);
    let modes = snapshot_map(
        &st.maps.mode_map,
        st.maps.mode_stride,
        (x0 / 4) as usize,
        (y0 / 4) as usize,
        quarter,
        quarter,
    );
    let ct_depths = snapshot_map(
        &st.maps.ct_depth_map,
        st.maps.ct_depth_stride,
        (x0 / 8) as usize,
        (y0 / 8) as usize,
        eighth,
        eighth,
    );
    let tu_depths = snapshot_map(
        &st.tu_depth_map,
        st.tu_depth_stride,
        (x0 / 4) as usize,
        (y0 / 4) as usize,
        quarter,
        quarter,
    );
    let s = RegionSnapshot { frame: region.area, modes, ct_depths, tu_depths };
    proof {
        vstd::arithmetic::power2::lemma2_to64();
        if log2_size < 12 {
            vstd::arithmetic::power2::lemma_pow2_strictly_increases(log2_size as nat, 12);
        }
        assert(size * size <= 0x100_0000) by (nonlinear_arith)
            requires
                0 <= size <= 4096,
        ;
        assert(side(log2_size) * side(log2_size) <= 0x100_0000);
        lemma_frame_bytes(&s.frame, &st.frame, x0, y0, log2_size);
        lemma_map_bytes(
            &s.modes,
            st.maps.mode_map@,
            st.maps.mode_stride,
            x0 as int / 4,
            y0 as int / 4,
            side(log2_size) / 4,
        );
        lemma_map_bytes(
            &s.ct_depths,
            st.maps.ct_depth_map@,
            st.maps.ct_depth_stride,
            x0 as int / 8,
            y0 as int / 8,
            ceil_div(side(log2_size), 8),
        );
        lemma_map_bytes(
            &s.tu_depths,
            st.tu_depth_map@,
            st.tu_depth_stride,
            x0 as int / 4,
            y0 as int / 4,
            side(log2_size) / 4,
        );
    }
    let planes: usize = s.frame.planes.len();
    let maps: usize = s.modes.data.len() + s.ct_depths.data.len() + s.tu_depths.data.len();
    let mut work = EncodeStats::default();
    work.frame_snapshots = planes as u64;
    work.map_snapshots = 3;
    work.bytes_snapshotted = frame_bytes(&s.frame) + maps as u64;
    st.count(work);
    s
}

/// Puts back what a snapshot holds.
pub fn restore_region(st: &mut SearchState, s: &RegionSnapshot)
    requires
        old(st).well_formed(),
        s.fits(old(st)),
    ensures
        final(st).well_formed(),
        restored(old(st), final(st), s),
{
    paste_frame(&mut st.frame, &s.frame);
    restore_map(&mut st.maps.mode_map, &s.modes);
    restore_map(&mut st.maps.ct_depth_map, &s.ct_depths);
    restore_map(&mut st.tu_depth_map, &s.tu_depths);
    let planes: usize = s.frame.planes.len();
    let mut work = EncodeStats::default();
    work.frame_restores = planes as u64;
    work.map_restores = 3;
    st.stats = st.stats.joined(work);
}

/// A frame snapshot of a block is not larger than the block in three planes.
proof fn lemma_frame_bytes(s: &FrameSnapshot, frame: &Frame, x0: u32, y0: u32, log2_size: u8)
    requires
        s.of_frame(frame),
        s.copies_block(frame, x0, y0, log2_size),
        log2_size <= 12,
        frame.well_formed(),
    ensures
        s.planes@.len() <= 3,
        s.bytes() <= 6 * (side(log2_size) * side(log2_size)),
{
    let sd = side(log2_size);
    assert forall|k: int| 0 <= k < s.planes@.len() implies (#[trigger] s.planes@[k]).data@.len()
        <= sd * sd by {
        let p = s.planes@[k];
        assert(p.of_frame(frame));
        let (bx, by, bw, bh) = crate::snapshot::block_region(frame.cat, x0, y0, log2_size, k);
        assert(p.copies(frame, k as u8, bx, by, bw, bh));
        if k > 0 {
            crate::snapshot::lemma_chroma_side(frame.cat, x0, y0, log2_size);
            vstd::arithmetic::power2::lemma_pow2_pos(log2_size as nat);
        }
        let (w, h) = (p.rect.width as int, p.rect.height as int);
        vstd::arithmetic::power2::lemma_pow2_pos(log2_size as nat);
        assert(bw <= sd && bh <= sd) by {
            if k > 0 {
                lemma_chroma_not_larger(frame.cat, x0, y0, log2_size);
            }
        }
        assert(w * h <= sd * sd) by (nonlinear_arith)
            requires
                0 <= w <= sd,
                0 <= h <= sd,
        ;
    }
    reveal_with_fuel(crate::snapshot::snapshot_bytes, 4);
    let planes = s.planes@;
    if planes.len() == 1 {
        assert(planes.drop_last() =~= Seq::empty());
        assert(planes[0].data@.len() <= sd * sd);
    } else if planes.len() == 3 {
        assert(planes.drop_last().drop_last().drop_last() =~= Seq::empty());
        assert(planes[0].data@.len() <= sd * sd);
        assert(planes[1].data@.len() <= sd * sd);
        assert(planes[2].data@.len() <= sd * sd);
    }
}

proof fn lemma_chroma_not_larger(cat: u8, x0: u32, y0: u32, log2_size: u8)
    requires
        log2_size <= 30,
        crate::geometry::spec_chroma_tb_geom(cat, x0, y0, log2_size) is Some,
    ensures
        ({
            let (_, _, w, h) = crate::snapshot::block_region(cat, x0, y0, log2_size, 1);
            w <= side(log2_size) && h <= side(log2_size)
        }),
{
    crate::snapshot::lemma_chroma_side(cat, x0, y0, log2_size);
    if log2_size > 0 {
        vstd::arithmetic::power2::lemma_pow2_unfold(log2_size as nat);
    }
}

/// A snapshot of a state fits every state of the same picture.
pub proof fn lemma_fits_same(s: &RegionSnapshot, a: &SearchState, b: &SearchState)
    requires
        s.fits(a),
        b.same_picture(a),
        a.frame.well_formed(),
    ensures
        s.fits(b),
{
    assert forall|k: int| 0 <= k < s.frame.planes@.len() implies (
    #[trigger] s.frame.planes@[k]).of_frame(&b.frame) && s.frame.planes@[k].c_idx == k by {
        assert(s.frame.planes@[k].of_frame(&a.frame));
        assert(b.frame.planes@[k].width == a.frame.planes@[k].width);
    }
}

/// Two states differ within the snapshot's region alone.
pub open spec fn differ_within(a: &SearchState, b: &SearchState, s: &RegionSnapshot) -> bool {
    &&& forall|c: int, i: int|
        0 <= c < 3 && 0 <= i < a.frame.planes@[c].data@.len() && !(c < s.frame.planes@.len()
            && s.frame.planes@[c].rect.holds(a.frame.planes@[c].stride as int, i))
            ==> #[trigger] b.frame.planes@[c].data@[i] == a.frame.planes@[c].data@[i]
    &&& differ_in_map(a.maps.mode_map@, b.maps.mode_map@, &s.modes)
    &&& differ_in_map(a.maps.ct_depth_map@, b.maps.ct_depth_map@, &s.ct_depths)
    &&& differ_in_map(a.tu_depth_map@, b.tu_depth_map@, &s.tu_depths)
}

pub open spec fn differ_in_map(a: Seq<u8>, b: Seq<u8>, s: &MapSnapshot) -> bool {
    forall|i: int|
        0 <= i < a.len() && !s.rect.holds(s.stride as int, i) ==> #[trigger] b[i] == a[i]
}

/// Putting a snapshot back gives the state that it was taken from, whatever trials did to
/// the region since.
pub proof fn law_trials_undone(
    saved: &SearchState,
    now: &SearchState,
    after: &SearchState,
    s: &RegionSnapshot,
    x0: u32,
    y0: u32,
    log2_size: u8,
)
    requires
        saved.well_formed(),
        s.fits(saved),
        s.copies(saved, x0, y0, log2_size),
        now.same_picture(saved),
        differ_within(saved, now, s),
        restored(now, after, s),
    ensures
        after.same_content(saved),
{
    law_map_restored(saved.maps.mode_map@, now.maps.mode_map@, s.modes);
    law_map_restored(saved.maps.ct_depth_map@, now.maps.ct_depth_map@, s.ct_depths);
    law_map_restored(saved.tu_depth_map@, now.tu_depth_map@, s.tu_depths);
    assert forall|c: int| 0 <= c < 3 implies (#[trigger] after.frame.planes@[c]).data@
        == saved.frame.planes@[c].data@ by {
        let p = saved.frame.planes@[c];
        let q = now.frame.planes@[c];
        assert(p.well_formed());
        assert(q.stride == p.stride && q.data@.len() == p.data@.len());
        if c < s.frame.planes@.len() {
            let sp = s.frame.planes@[c];
            assert(sp.of_frame(&saved.frame));
            let (bx, by, bw, bh) = crate::snapshot::block_region(
                saved.frame.cat,
                x0,
                y0,
                log2_size,
                c,
            );
            assert(sp.copies(&saved.frame, c as u8, bx, by, bw, bh));
            assert forall|i: int|
                0 <= i < p.data@.len() && !sp.rect.holds(p.stride as int, i) implies #[trigger] q.data@[i]
                == p.data@[i] by {
                assert(now.frame.planes@[c].data@[i] == saved.frame.planes@[c].data@[i]);
            }
            if p.stride > 0 {
                law_trial_undone(p, q, sp);
            } else {
                assert(after.frame.planes@[c].data@ =~= p.data@) by {
                    assert(sp.rect.width == 0);
                    assert forall|i: int| 0 <= i < p.data@.len() implies #[trigger] after.frame.planes@[c].data@[i]
                        == p.data@[i] by {
                        assert(!sp.rect.holds(p.stride as int, i));
                    }
                }
            }
        } else {
            assert(after.frame.planes@[c].data@ =~= p.data@) by {
                assert forall|i: int| 0 <= i < p.data@.len() implies #[trigger] after.frame.planes@[c].data@[i]
                    == p.data@[i] by {
                    assert(now.frame.planes@[c].data@[i] == saved.frame.planes@[c].data@[i]);
                }
            }
        }
    }
}

} // verus!
