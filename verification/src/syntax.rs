//! Coded trees: transform trees and coding quadtrees, and their plans.

use vstd::prelude::*;

use crate::geometry::{chroma_mode_from_idx, spec_chroma_mode, CHROMA_DM_IDX};

verus! {

/// A quantised transform block.
pub struct CodedBlock {
    pub levels: Vec<i16>,
    /// Whether any level is coded.
    pub cbf: bool,
    /// What the levels cost, in fractional bits.
    pub frac_bits: u64,
}

impl CodedBlock {
    /// A block without coefficients.
    pub fn empty() -> (b: Self)
        ensures
            b.levels@.len() == 0,
            !b.cbf,
            b.frac_bits == 0,
    {
        CodedBlock { levels: Vec::new(), cbf: false, frac_bits: 0 }
    }
}

/// A leaf of a transform tree. The second chroma blocks exist for 4:2:2 alone.
pub struct LeafTu {
    pub log2_size: u8,
    /// Size of the chroma blocks, 0 where there are none.
    pub chroma_log2: u8,
    pub trafo_depth: u8,
    pub luma_mode: u8,
    pub chroma_mode: u8,
    pub luma: CodedBlock,
    pub cb: CodedBlock,
    pub cr: CodedBlock,
    pub cb1: CodedBlock,
    pub cr1: CodedBlock,
}

/// Subsampled chroma that is coded behind four 4x4 luma blocks.
pub struct ParentChromaTu {
    pub log2_size: u8,
    pub chroma_mode: u8,
    pub cb: CodedBlock,
    pub cr: CodedBlock,
}

/// A transform tree.
pub enum Tt {
    Split {
        log2_size: u8,
        trafo_depth: u8,
        cbf_cb: bool,
        cbf_cr: bool,
        cbf_cb1: bool,
        cbf_cr1: bool,
        parent_chroma: Option<ParentChromaTu>,
        kids: Vec<Tt>,
    },
    Leaf(LeafTu),
}

impl Tt {
    pub open spec fn size(&self) -> u8 {
        match self {
            Tt::Split { log2_size, .. } => *log2_size,
            Tt::Leaf(l) => l.log2_size,
        }
    }

    pub open spec fn depth(&self) -> u8 {
        match self {
            Tt::Split { trafo_depth, .. } => *trafo_depth,
            Tt::Leaf(l) => l.trafo_depth,
        }
    }

    pub open spec fn spec_cbf_cb(&self) -> bool {
        match self {
            Tt::Split { cbf_cb, .. } => *cbf_cb,
            Tt::Leaf(l) => l.cb.cbf,
        }
    }

    pub open spec fn spec_cbf_cr(&self) -> bool {
        match self {
            Tt::Split { cbf_cr, .. } => *cbf_cr,
            Tt::Leaf(l) => l.cr.cbf,
        }
    }

    pub open spec fn spec_cbf_cb1(&self) -> bool {
        match self {
            Tt::Split { cbf_cb1, .. } => *cbf_cb1,
            Tt::Leaf(l) => l.cb1.cbf,
        }
    }

    pub open spec fn spec_cbf_cr1(&self) -> bool {
        match self {
            Tt::Split { cbf_cr1, .. } => *cbf_cr1,
            Tt::Leaf(l) => l.cr1.cbf,
        }
    }

    pub fn cbf_cb(&self) -> (r: bool)
        ensures
            r == self.spec_cbf_cb(),
    {
        match self {
            Tt::Split { cbf_cb, .. } => *cbf_cb,
            Tt::Leaf(l) => l.cb.cbf,
        }
    }

    pub fn cbf_cr(&self) -> (r: bool)
        ensures
            r == self.spec_cbf_cr(),
    {
        match self {
            Tt::Split { cbf_cr, .. } => *cbf_cr,
            Tt::Leaf(l) => l.cr.cbf,
        }
    }

    pub fn cbf_cb1(&self) -> (r: bool)
        ensures
            r == self.spec_cbf_cb1(),
    {
        match self {
            Tt::Split { cbf_cb1, .. } => *cbf_cb1,
            Tt::Leaf(l) => l.cb1.cbf,
        }
    }

    pub fn cbf_cr1(&self) -> (r: bool)
        ensures
            r == self.spec_cbf_cr1(),
    {
        match self {
            Tt::Split { cbf_cr1, .. } => *cbf_cr1,
            Tt::Leaf(l) => l.cr1.cbf,
        }
    }
}

/// Some child's first or second Cb block is coded.
pub open spec fn any_cb(kids: Seq<Tt>) -> bool {
    exists|i: int|
        0 <= i < kids.len() && ((#[trigger] kids[i]).spec_cbf_cb() || kids[i].spec_cbf_cb1())
}

pub open spec fn any_cr(kids: Seq<Tt>) -> bool {
    exists|i: int|
        0 <= i < kids.len() && ((#[trigger] kids[i]).spec_cbf_cr() || kids[i].spec_cbf_cr1())
}

pub open spec fn any_cb1(kids: Seq<Tt>) -> bool {
    exists|i: int| 0 <= i < kids.len() && (#[trigger] kids[i]).spec_cbf_cb1()
}

pub open spec fn any_cr1(kids: Seq<Tt>) -> bool {
    exists|i: int| 0 <= i < kids.len() && (#[trigger] kids[i]).spec_cbf_cr1()
}

/// The chroma flags of a split node: those of its own chroma blocks where it has them,
/// else whether any child has one.
pub open spec fn split_flags_ok(node: &Tt) -> bool {
    node matches Tt::Split { cbf_cb, cbf_cr, cbf_cb1, cbf_cr1, parent_chroma, kids, .. } ==> {
        &&& cbf_cb == match parent_chroma {
            Some(c) => c.cb.cbf,
            None => any_cb(kids@),
        }
        &&& cbf_cr == match parent_chroma {
            Some(c) => c.cr.cbf,
            None => any_cr(kids@),
        }
        &&& cbf_cb1 == any_cb1(kids@)
        &&& cbf_cr1 == any_cr1(kids@)
    }
}

/// Puts a split node over its coded children.
pub fn split_node(
    log2_size: u8,
    trafo_depth: u8,
    parent_chroma: Option<ParentChromaTu>,
    kids: Vec<Tt>,
) -> (node: Tt)
    ensures
        node is Split,
        node.size() == log2_size,
        node.depth() == trafo_depth,
        node->parent_chroma == parent_chroma,
        node->kids == kids,
        split_flags_ok(&node),
{
    let n: usize = kids.len();
    let mut cb: bool = false;
    let mut cr: bool = false;
    let mut cb1: bool = false;
    let mut cr1: bool = false;
    for i in 0..n
        invariant
            n == kids@.len(),
            cb == any_cb(kids@.take(i as int)),
            cr == any_cr(kids@.take(i as int)),
            cb1 == any_cb1(kids@.take(i as int)),
            cr1 == any_cr1(kids@.take(i as int)),
    {
        let kid = &kids[i];
        let ghost before = kids@.take(i as int);
        let ghost after = kids@.take(i + 1);
        proof {
            assert(after =~= before.push(*kid));
            assert(after[i as int] == kid);
            assert forall|k: int| 0 <= k < i implies after[k] == before[k] by {}
            if any_cb(before) {
                let k = choose|k: int|
                    0 <= k < before.len() && ((#[trigger] before[k]).spec_cbf_cb()
                        || before[k].spec_cbf_cb1());
                assert(after[k] == before[k]);
            }
            if any_cr(before) {
                let k = choose|k: int|
                    0 <= k < before.len() && ((#[trigger] before[k]).spec_cbf_cr()
                        || before[k].spec_cbf_cr1());
                assert(after[k] == before[k]);
            }
            if any_cb1(before) {
                let k = choose|k: int|
                    0 <= k < before.len() && (#[trigger] before[k]).spec_cbf_cb1();
                assert(after[k] == before[k]);
            }
            if any_cr1(before) {
                let k = choose|k: int|
                    0 <= k < before.len() && (#[trigger] before[k]).spec_cbf_cr1();
                assert(after[k] == before[k]);
            }
        }
        cb = cb || kid.cbf_cb() || kid.cbf_cb1();
        cr = cr || kid.cbf_cr() || kid.cbf_cr1();
        cb1 = cb1 || kid.cbf_cb1();
        cr1 = cr1 || kid.cbf_cr1();
    }
    assert(kids@.take(n as int) =~= kids@);
    let (cbf_cb, cbf_cr) = match &parent_chroma {
        Some(c) => (c.cb.cbf, c.cr.cbf),
        None => (cb, cr),
    };
    Tt::Split {
        log2_size,
        trafo_depth,
        cbf_cb,
        cbf_cr,
        cbf_cb1: cb1,
        cbf_cr1: cr1,
        parent_chroma,
        kids,
    }
}

/// How sure a decision was.
#[derive(Clone, Copy, Debug, PartialEq, Eq, Structural)]
pub enum DecisionConfidence {
    Clear,
    Close,
}

/// The four prediction units of an 8x8 coding unit: their luma modes and most probable
/// modes.
#[derive(Clone, Copy, Debug)]
pub struct NxnInfo {
    pub luma_modes: [u8; 4],
    pub mpms: [[u8; 3]; 4],
}

/// A coding unit.
pub struct CuLeaf {
    /// The three most probable luma modes.
    pub mpm: [u8; 3],
    pub luma_mode: u8,
    pub chroma_mode_idx: u8,
    pub nxn: Option<NxnInfo>,
    pub confidence: DecisionConfidence,
    pub tt: Tt,
}

/// A coding quadtree. A split node has one child per quadrant that begins inside the
/// picture.
pub enum CuNode {
    Split { kids: Vec<CuNode> },
    Leaf(CuLeaf),
}

/// The shape of a transform tree.
pub enum TtPlan {
    Leaf { log2_size: u8, trafo_depth: u8 },
    Split {
        log2_size: u8,
        trafo_depth: u8,
        /// Size of the chroma blocks that the node itself codes.
        parent_chroma: Option<u8>,
        kids: Vec<TtPlan>,
    },
}

/// The shape of a coding unit: its modes and its transform tree.
pub struct CuLeafPlan {
    pub mpm: [u8; 3],
    pub luma_mode: u8,
    pub chroma_mode_idx: u8,
    pub chroma_mode: u8,
    pub tt: TtPlan,
    /// The luma modes of the four prediction units, where there are four.
    pub nxn: Option<[u8; 4]>,
}

pub enum CuPlan {
    Leaf(CuLeafPlan),
    Split { kids: Vec<CuPlan> },
}

/// A plan has the shape of a transform tree.
pub open spec fn tt_plan_of(plan: &TtPlan, tt: &Tt) -> bool
    decreases tt,
{
    match tt {
        Tt::Leaf(l) => {
            plan matches TtPlan::Leaf { log2_size, trafo_depth } && *log2_size == l.log2_size
                && *trafo_depth == l.trafo_depth
        },
        Tt::Split { log2_size, trafo_depth, parent_chroma, kids, .. } => {
            &&& plan matches TtPlan::Split {
                log2_size: pl,
                trafo_depth: pd,
                parent_chroma: pc,
                kids: pk,
            }
            &&& *pl == *log2_size && *pd == *trafo_depth
            &&& *pc == match parent_chroma {
                Some(c) => Some(c.log2_size),
                None => None,
            }
            &&& pk@.len() == kids@.len()
            &&& forall|i: int|
                0 <= i < kids@.len() ==> tt_plan_of(&pk@[i], &#[trigger] kids@[i])
        },
    }
}

/// The shape of a transform tree.
pub fn tt_to_plan(tt: &Tt) -> (plan: TtPlan)
    ensures
        tt_plan_of(&plan, tt),
    decreases tt,
{
    match tt {
        Tt::Leaf(l) => TtPlan::Leaf { log2_size: l.log2_size, trafo_depth: l.trafo_depth },
        Tt::Split { log2_size, trafo_depth, parent_chroma, kids, .. } => {
            let mut plans: Vec<TtPlan> = Vec::new();
            let n: usize = kids.len();
            for i in 0..n
                invariant
                    n == kids@.len(),
                    tt matches Tt::Split { kids: k, .. } && k == kids,
                    plans@.len() == i,
                    forall|j: int| 0 <= j < i ==> tt_plan_of(&plans@[j], &#[trigger] kids@[j]),
            {
                plans.push(tt_to_plan(&kids[i]));
            }
            let pc: Option<u8> = match parent_chroma {
                Some(c) => Some(c.log2_size),
                None => None,
            };
            TtPlan::Split {
                log2_size: *log2_size,
                trafo_depth: *trafo_depth,
                parent_chroma: pc,
                kids: plans,
            }
        },
    }
}

/// A plan has the shape of a coding quadtree.
pub open spec fn cu_plan_of(plan: &CuPlan, cu: &CuNode) -> bool
    decreases cu,
{
    match cu {
        CuNode::Leaf(leaf) => {
            &&& plan matches CuPlan::Leaf(p)
            &&& p.mpm == leaf.mpm
            &&& p.luma_mode == leaf.luma_mode
            &&& p.chroma_mode_idx == leaf.chroma_mode_idx
            &&& p.chroma_mode == spec_chroma_mode(leaf.luma_mode, leaf.chroma_mode_idx)
            &&& tt_plan_of(&p.tt, &leaf.tt)
            &&& p.nxn == match leaf.nxn {
                Some(n) => Some(n.luma_modes),
                None => None,
            }
        },
        CuNode::Split { kids } => {
            &&& plan matches CuPlan::Split { kids: pk }
            &&& pk@.len() == kids@.len()
            &&& forall|i: int|
                0 <= i < kids@.len() ==> cu_plan_of(&pk@[i], &#[trigger] kids@[i])
        },
    }
}

/// The coding units' chroma mode indices are among the five that exist.
pub open spec fn chroma_modes_ok(cu: &CuNode) -> bool
    decreases cu,
{
    match cu {
        CuNode::Leaf(leaf) => leaf.chroma_mode_idx <= CHROMA_DM_IDX,
        CuNode::Split { kids } => forall|i: int|
            0 <= i < kids@.len() ==> chroma_modes_ok(&#[trigger] kids@[i]),
    }
}

/// The shape of a coding quadtree.
pub fn cu_to_plan(cu: &CuNode) -> (plan: CuPlan)
    requires
        chroma_modes_ok(cu),
    ensures
        cu_plan_of(&plan, cu),
    decreases cu,
{
    match cu {
        CuNode::Leaf(leaf) => CuPlan::Leaf(
            CuLeafPlan {
                mpm: leaf.mpm,
                luma_mode: leaf.luma_mode,
                chroma_mode_idx: leaf.chroma_mode_idx,
                chroma_mode: chroma_mode_from_idx(leaf.luma_mode, leaf.chroma_mode_idx),
                tt: tt_to_plan(&leaf.tt),
                nxn: match &leaf.nxn {
                    Some(n) => Some(n.luma_modes),
                    None => None,
                },
            },
        ),
        CuNode::Split { kids } => {
            let mut plans: Vec<CuPlan> = Vec::new();
            let n: usize = kids.len();
            for i in 0..n
                invariant
                    n == kids@.len(),
                    chroma_modes_ok(cu),
                    cu matches CuNode::Split { kids: k } && k == kids,
                    plans@.len() == i,
                    forall|j: int| 0 <= j < i ==> cu_plan_of(&plans@[j], &#[trigger] kids@[j]),
            {
                assert(chroma_modes_ok(&kids@[i as int]));
                plans.push(cu_to_plan(&kids[i]));
            }
            CuPlan::Split { kids: plans }
        },
    }
}

} // verus!
