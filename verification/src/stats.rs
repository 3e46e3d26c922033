//! Counters of the work that an encode does.

use vstd::prelude::*;

verus! {

/// Counters of one encode.
#[derive(Clone, Copy, Debug, PartialEq, Eq, Structural)]
pub struct EncodeStats {
    pub ctu_count: u64,
    pub cu_trials: u64,
    pub luma_rough_predictions: u64,
    pub chroma_rough_predictions: u64,
    pub code_block_calls: u64,
    pub forward_transforms: u64,
    pub inverse_transforms: u64,
    pub residual_bit_estimates: u64,
    pub cache_builds: u64,
    pub cache_fast_hits: u64,
    pub cache_fallbacks: u64,
    pub frame_snapshots: u64,
    pub frame_restores: u64,
    pub map_snapshots: u64,
    pub map_restores: u64,
    pub bytes_snapshotted: u64,
}

/// The sum of two counts. Counters start again at zero behind their last value.
pub open spec fn count_sum(a: u64, b: u64) -> u64 {
    ((a + b) % 0x1_0000_0000_0000_0000) as u64
}

fn add_counts(a: u64, b: u64) -> (sum: u64)
    ensures
        sum == count_sum(a, b),
{
    a.wrapping_add(b)
}

/// The cost of a trial, and the work that it took.
#[derive(Clone, Copy, Debug, PartialEq, Eq, Structural)]
pub struct Tried {
    pub cost: u64,
    pub work: EncodeStats,
}

/// Counters of the most recent encode and the size of its stream.
#[derive(Clone, Copy, Debug, PartialEq, Eq, Structural)]
pub struct LastEncodeStats {
    pub annexb_bytes: usize,
    pub stats: EncodeStats,
}

impl Default for EncodeStats {
    fn default() -> (s: Self)
        ensures
            s == EncodeStats::none(),
    {
        EncodeStats {
            ctu_count: 0,
            cu_trials: 0,
            luma_rough_predictions: 0,
            chroma_rough_predictions: 0,
            code_block_calls: 0,
            forward_transforms: 0,
            inverse_transforms: 0,
            residual_bit_estimates: 0,
            cache_builds: 0,
            cache_fast_hits: 0,
            cache_fallbacks: 0,
            frame_snapshots: 0,
            frame_restores: 0,
            map_snapshots: 0,
            map_restores: 0,
            bytes_snapshotted: 0,
        }
    }
}

impl EncodeStats {
    /// Nothing has been counted.
    pub open spec fn none() -> Self {
        EncodeStats {
            ctu_count: 0,
            cu_trials: 0,
            luma_rough_predictions: 0,
            chroma_rough_predictions: 0,
            code_block_calls: 0,
            forward_transforms: 0,
            inverse_transforms: 0,
            residual_bit_estimates: 0,
            cache_builds: 0,
            cache_fast_hits: 0,
            cache_fallbacks: 0,
            frame_snapshots: 0,
            frame_restores: 0,
            map_snapshots: 0,
            map_restores: 0,
            bytes_snapshotted: 0,
        }
    }

    /// The counters with those of more work added.
    #[verifier::opaque]
    pub open spec fn plus(self, more: Self) -> Self {
        EncodeStats {
            ctu_count: count_sum(self.ctu_count, more.ctu_count),
            cu_trials: count_sum(self.cu_trials, more.cu_trials),
            luma_rough_predictions: count_sum(self.luma_rough_predictions, more.luma_rough_predictions),
            chroma_rough_predictions: count_sum(self.chroma_rough_predictions, more.chroma_rough_predictions),
            code_block_calls: count_sum(self.code_block_calls, more.code_block_calls),
            forward_transforms: count_sum(self.forward_transforms, more.forward_transforms),
            inverse_transforms: count_sum(self.inverse_transforms, more.inverse_transforms),
            residual_bit_estimates: count_sum(self.residual_bit_estimates, more.residual_bit_estimates),
            cache_builds: count_sum(self.cache_builds, more.cache_builds),
            cache_fast_hits: count_sum(self.cache_fast_hits, more.cache_fast_hits),
            cache_fallbacks: count_sum(self.cache_fallbacks, more.cache_fallbacks),
            frame_snapshots: count_sum(self.frame_snapshots, more.frame_snapshots),
            frame_restores: count_sum(self.frame_restores, more.frame_restores),
            map_snapshots: count_sum(self.map_snapshots, more.map_snapshots),
            map_restores: count_sum(self.map_restores, more.map_restores),
            bytes_snapshotted: count_sum(self.bytes_snapshotted, more.bytes_snapshotted),
        }
    }

    /// Adds the counters of more work.
    pub fn joined(self, more: EncodeStats) -> (sum: EncodeStats)
        ensures
            sum == self.plus(more),
    {
        reveal(EncodeStats::plus);
        EncodeStats {
            ctu_count: add_counts(self.ctu_count, more.ctu_count),
            cu_trials: add_counts(self.cu_trials, more.cu_trials),
            luma_rough_predictions: add_counts(self.luma_rough_predictions, more.luma_rough_predictions),
            chroma_rough_predictions: add_counts(self.chroma_rough_predictions, more.chroma_rough_predictions),
            code_block_calls: add_counts(self.code_block_calls, more.code_block_calls),
            forward_transforms: add_counts(self.forward_transforms, more.forward_transforms),
            inverse_transforms: add_counts(self.inverse_transforms, more.inverse_transforms),
            residual_bit_estimates: add_counts(self.residual_bit_estimates, more.residual_bit_estimates),
            cache_builds: add_counts(self.cache_builds, more.cache_builds),
            cache_fast_hits: add_counts(self.cache_fast_hits, more.cache_fast_hits),
            cache_fallbacks: add_counts(self.cache_fallbacks, more.cache_fallbacks),
            frame_snapshots: add_counts(self.frame_snapshots, more.frame_snapshots),
            frame_restores: add_counts(self.frame_restores, more.frame_restores),
            map_snapshots: add_counts(self.map_snapshots, more.map_snapshots),
            map_restores: add_counts(self.map_restores, more.map_restores),
            bytes_snapshotted: add_counts(self.bytes_snapshotted, more.bytes_snapshotted),
        }
    }

    /// The counters in the order of a report.
    pub open spec fn listed(&self) -> Seq<u64> {
        seq![
            self.ctu_count,
            self.cu_trials,
            self.luma_rough_predictions,
            self.chroma_rough_predictions,
            self.code_block_calls,
            self.forward_transforms,
            self.inverse_transforms,
            self.residual_bit_estimates,
            self.cache_builds,
            self.cache_fast_hits,
            self.cache_fallbacks,
            self.frame_snapshots,
            self.frame_restores,
            self.map_snapshots,
            self.map_restores,
            self.bytes_snapshotted,
        ]
    }

    /// The names of the counters in the order of a report.
    pub open spec fn names() -> Seq<Seq<char>> {
        seq![
            "ctu_count"@,
            "cu_trials"@,
            "luma_rough_predictions"@,
            "chroma_rough_predictions"@,
            "code_block_calls"@,
            "forward_transforms"@,
            "inverse_transforms"@,
            "residual_bit_estimates"@,
            "cache_builds"@,
            "cache_fast_hits"@,
            "cache_fallbacks"@,
            "frame_snapshots"@,
            "frame_restores"@,
            "map_snapshots"@,
            "map_restores"@,
            "bytes_snapshotted"@,
        ]
    }

    /// The counters with their names, in the order of a report.
    pub fn report(&self) -> (lines: Vec<(&'static str, u64)>)
        ensures
            lines@.len() == 16,
            forall|i: int|
                0 <= i < 16 ==> (#[trigger] lines@[i]).0@ == Self::names()[i] && lines@[i].1
                    == self.listed()[i],
    {
        let mut lines: Vec<(&'static str, u64)> = Vec::new();
        lines.push(("ctu_count", self.ctu_count));
        lines.push(("cu_trials", self.cu_trials));
        lines.push(("luma_rough_predictions", self.luma_rough_predictions));
        lines.push(("chroma_rough_predictions", self.chroma_rough_predictions));
        lines.push(("code_block_calls", self.code_block_calls));
        lines.push(("forward_transforms", self.forward_transforms));
        lines.push(("inverse_transforms", self.inverse_transforms));
        lines.push(("residual_bit_estimates", self.residual_bit_estimates));
        lines.push(("cache_builds", self.cache_builds));
        lines.push(("cache_fast_hits", self.cache_fast_hits));
        lines.push(("cache_fallbacks", self.cache_fallbacks));
        lines.push(("frame_snapshots", self.frame_snapshots));
        lines.push(("frame_restores", self.frame_restores));
        lines.push(("map_snapshots", self.map_snapshots));
        lines.push(("map_restores", self.map_restores));
        lines.push(("bytes_snapshotted", self.bytes_snapshotted));
        lines
    }

    /// The counters of frames can take `events` more snapshots of `bytes` bytes in all.
    pub open spec fn snapshot_room(&self, events: int, bytes: int) -> bool {
        &&& self.frame_snapshots + events <= u64::MAX
        &&& self.frame_restores + events <= u64::MAX
        &&& self.bytes_snapshotted + bytes <= u64::MAX
    }

    /// Counts a snapshot of a plane.
    pub fn note_frame_snapshot(&mut self, bytes: u64)
        requires
            old(self).snapshot_room(1, bytes as int),
        ensures
            *final(self) == (EncodeStats {
                frame_snapshots: (old(self).frame_snapshots + 1) as u64,
                bytes_snapshotted: (old(self).bytes_snapshotted + bytes) as u64,
                ..*old(self)
            }),
    {
        self.frame_snapshots = self.frame_snapshots + 1;
        self.bytes_snapshotted = self.bytes_snapshotted + bytes;
    }

    /// Counts a plane restored.
    pub fn note_frame_restore(&mut self)
        requires
            old(self).snapshot_room(1, 0),
        ensures
            *final(self) == (EncodeStats {
                frame_restores: (old(self).frame_restores + 1) as u64,
                ..*old(self)
            }),
    {
        self.frame_restores = self.frame_restores + 1;
    }
}

/// Work adds up in any order and grouping, and no work adds nothing.
pub proof fn law_work_adds_up(a: EncodeStats, b: EncodeStats, c: EncodeStats)
    ensures
        a.plus(b) == b.plus(a),
        a.plus(b).plus(c) == a.plus(b.plus(c)),
        a.plus(EncodeStats::none()) == a,
{
    reveal(EncodeStats::plus);
    lemma_counts_add(a.ctu_count, b.ctu_count, c.ctu_count);
    lemma_counts_add(a.cu_trials, b.cu_trials, c.cu_trials);
    lemma_counts_add(a.luma_rough_predictions, b.luma_rough_predictions, c.luma_rough_predictions);
    lemma_counts_add(a.chroma_rough_predictions, b.chroma_rough_predictions, c.chroma_rough_predictions);
    lemma_counts_add(a.code_block_calls, b.code_block_calls, c.code_block_calls);
    lemma_counts_add(a.forward_transforms, b.forward_transforms, c.forward_transforms);
    lemma_counts_add(a.inverse_transforms, b.inverse_transforms, c.inverse_transforms);
    lemma_counts_add(a.residual_bit_estimates, b.residual_bit_estimates, c.residual_bit_estimates);
    lemma_counts_add(a.cache_builds, b.cache_builds, c.cache_builds);
    lemma_counts_add(a.cache_fast_hits, b.cache_fast_hits, c.cache_fast_hits);
    lemma_counts_add(a.cache_fallbacks, b.cache_fallbacks, c.cache_fallbacks);
    lemma_counts_add(a.frame_snapshots, b.frame_snapshots, c.frame_snapshots);
    lemma_counts_add(a.frame_restores, b.frame_restores, c.frame_restores);
    lemma_counts_add(a.map_snapshots, b.map_snapshots, c.map_snapshots);
    lemma_counts_add(a.map_restores, b.map_restores, c.map_restores);
    lemma_counts_add(a.bytes_snapshotted, b.bytes_snapshotted, c.bytes_snapshotted);
}

proof fn lemma_counts_add(a: u64, b: u64, c: u64)
    ensures
        count_sum(a, b) == count_sum(b, a),
        count_sum(count_sum(a, b), c) == count_sum(a, count_sum(b, c)),
        count_sum(a, 0) == a,
{
}

} // verus!
