//! The context models of a slice and where each syntax element's lie.

use vstd::prelude::*;

use crate::cabac::{next_state_mps, pre_ctx_state, CabacEstimator, ContextModel};

verus! {

pub const SAO_MERGE_FLAG: usize = 0;

pub const SAO_TYPE_IDX: usize = 1;

/// Three models, by how many neighbours are split deeper.
pub const SPLIT_CU_FLAG: usize = 2;

pub const PART_MODE: usize = 5;

pub const PREV_INTRA_LUMA_PRED_FLAG: usize = 6;

pub const INTRA_CHROMA_PRED_MODE: usize = 7;

/// Two models: the first bin and the others.
pub const CU_QP_DELTA_ABS: usize = 8;

/// Three models, by transform size.
pub const SPLIT_TRANSFORM_FLAG: usize = 10;

/// Two models: below the root of a transform tree, and at it.
pub const CBF_LUMA: usize = 13;

/// Five models, by transform depth.
pub const CBF_CBCR: usize = 15;

pub const LAST_SIG_COEFF_X_PREFIX: usize = 20;

pub const LAST_SIG_COEFF_Y_PREFIX: usize = 38;

pub const CODED_SUB_BLOCK_FLAG: usize = 56;

pub const SIG_COEFF_FLAG: usize = 60;

pub const COEFF_ABS_LEVEL_GREATER1_FLAG: usize = 104;

pub const COEFF_ABS_LEVEL_GREATER2_FLAG: usize = 128;

pub const NUM_CONTEXTS: usize = 134;

/// All context models of a slice.
pub struct Contexts {
    pub models: Vec<ContextModel>,
}

impl View for Contexts {
    type V = Seq<int>;

    /// The packed states.
    open spec fn view(&self) -> Seq<int> {
        Seq::new(self.models@.len(), |i: int| self.models@[i].packed())
    }
}

/// Every packed state is an adaptive one.
pub open spec fn states_ok(states: Seq<int>) -> bool {
    &&& states.len() == NUM_CONTEXTS
    &&& forall|i: int| 0 <= i < states.len() ==> 0 <= #[trigger] states[i] < 126
}

impl Contexts {
    pub open spec fn well_formed(&self) -> bool {
        states_ok(self@)
    }

    /// The contexts that a table of initialisation values and the slice QP select.
    pub fn new(init_values: &[u8], slice_qp: i32) -> (c: Self)
        requires
            init_values@.len() == NUM_CONTEXTS,
        ensures
            c.well_formed(),
            forall|i: int|
                0 <= i < NUM_CONTEXTS ==> #[trigger] c@[i] == ({
                    let s = pre_ctx_state(init_values@[i] as int, slice_qp as int);
                    if s >= 64 {
                        2 * (s - 64) + 1
                    } else {
                        2 * (63 - s)
                    }
                }),
    {
        let mut models: Vec<ContextModel> = Vec::new();
        for i in 0..NUM_CONTEXTS
            invariant
                init_values@.len() == NUM_CONTEXTS,
                models@.len() == i,
                forall|k: int|
                    0 <= k < i ==> 0 <= #[trigger] models@[k].packed() < 126 && models@[k].packed()
                        == ({
                        let s = pre_ctx_state(init_values@[k] as int, slice_qp as int);
                        if s >= 64 {
                            2 * (s - 64) + 1
                        } else {
                            2 * (63 - s)
                        }
                    }),
        {
            models.push(ContextModel::new(init_values[i], slice_qp));
        }
        Contexts { models }
    }

    /// Prices a bin in one of the contexts.
    pub fn estimate_bin(&mut self, est: &mut CabacEstimator, ci: usize, bin: bool)
        requires
            old(self).well_formed(),
            ci < NUM_CONTEXTS,
            old(est).total() + crate::cabac::bin_cost(
                old(self)@[ci as int],
                crate::arith_decode::bin_of(bin),
            ) <= u64::MAX,
        ensures
            final(self).well_formed(),
            final(self)@ == old(self)@.update(
                ci as int,
                next_state_mps(old(self)@[ci as int], crate::arith_decode::bin_of(bin)),
            ),
            final(est).total() == old(est).total() + crate::cabac::bin_cost(
                old(self)@[ci as int],
                crate::arith_decode::bin_of(bin),
            ),
    {
        let ghost before = self@;
        let mut m: ContextModel = self.models[ci];
        assert(before[ci as int] == m.packed());
        let ghost packed = m.packed();
        est.encode_bin(bin as u8, &mut m);
        self.models.set(ci, m);
        proof {
            assert(self@ =~= before.update(
                ci as int,
                next_state_mps(packed, crate::arith_decode::bin_of(bin)),
            ));
        }
    }
}

impl Clone for Contexts {
    fn clone(&self) -> (c: Self)
        ensures
            c@ == self@,
    {
        let mut models: Vec<ContextModel> = Vec::new();
        for i in 0..self.models.len()
            invariant
                models@ == self.models@.take(i as int),
        {
            models.push(self.models[i]);
            assert(models@ =~= self.models@.take(i + 1));
        }
        let c = Contexts { models };
        assert(c.models@ =~= self.models@);
        c
    }
}

} // verus!
