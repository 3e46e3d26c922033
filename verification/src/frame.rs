//! Planes of samples.

use vstd::prelude::*;

verus! {

/// A plane of samples, row by row.
pub struct Plane {
    pub data: Vec<u16>,
    pub stride: usize,
    pub width: usize,
    pub height: usize,
}

impl Plane {
    /// The plane holds all of its rows.
    pub open spec fn well_formed(&self) -> bool {
        &&& self.width <= self.stride
        &&& self.stride * self.height <= self.data@.len()
    }

    /// The sample at column `x` of row `y`.
    pub open spec fn sample(&self, x: int, y: int) -> u16 {
        self.data@[y * self.stride + x]
    }

    pub proof fn lemma_rows(&self)
        requires
            self.well_formed(),
        ensures
            self.height * self.stride <= self.data@.len(),
    {
        assert(self.height * self.stride == self.stride * self.height) by (nonlinear_arith);
    }

    /// Where a sample of the plane lies in its data.
    pub proof fn lemma_index(&self, x: int, y: int)
        requires
            self.well_formed(),
            0 <= x < self.width,
            0 <= y < self.height,
        ensures
            0 <= y * self.stride <= y * self.stride + x < self.data@.len(),
    {
        let (st, h) = (self.stride as int, self.height as int);
        assert(y * st + st <= st * h) by (nonlinear_arith)
            requires
                y + 1 <= h,
                st >= 0,
        ;
        assert(0 <= y * st) by (nonlinear_arith)
            requires
                y >= 0,
                st >= 0,
        ;
    }
}

/// The reconstruction: a luma plane and two chroma planes, empty for gray pictures.
pub struct Frame {
    pub bit_depth: u8,
    pub cat: u8,
    pub planes: Vec<Plane>,
}

impl Frame {
    pub open spec fn well_formed(&self) -> bool {
        &&& self.planes@.len() == 3
        &&& forall|c: int| 0 <= c < 3 ==> (#[trigger] self.planes@[c]).well_formed()
    }

    /// The planes have the same sizes.
    pub open spec fn same_shape(&self, other: &Self) -> bool {
        &&& self.bit_depth == other.bit_depth
        &&& self.cat == other.cat
        &&& self.planes@.len() == other.planes@.len()
        &&& forall|c: int|
            #![trigger self.planes@[c]]
            #![trigger other.planes@[c]]
            0 <= c < self.planes@.len() ==> {
                &&& self.planes@[c].width == other.planes@[c].width
                &&& self.planes@[c].height == other.planes@[c].height
                &&& self.planes@[c].stride == other.planes@[c].stride
                &&& self.planes@[c].data@.len() == other.planes@[c].data@.len()
            }
    }
}

} // verus!
