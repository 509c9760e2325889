//! A depth buffer: one single-precision depth per pixel, and the test that
//! decides whether a fragment is visible.
//!
//! A greater depth is nearer. A fragment is visible where its depth is
//! greater than the one stored; the stored depth is then replaced.

use crate::single::{greater_than, less, MIN};
use vstd::prelude::*;

verus! {

/// Whether a fragment of depth `z` at `(x, y)` is visible against the
/// depths `cells` of a buffer of the given size.
pub open spec fn visible(cells: Seq<u32>, width: int, height: int, x: int, y: int, z: u32) -> bool {
    0 <= x < width && 0 <= y < height && less(cells[y * width + x], z)
}

/// The depths after a fragment of depth `z` at `(x, y)` was tested: `z` is
/// stored where the fragment is visible, and nothing changes where not.
pub open spec fn tested(cells: Seq<u32>, width: int, height: int, x: int, y: int, z: u32) -> Seq<
    u32,
> {
    if visible(cells, width, height, x, y, z) {
        cells.update(y * width + x, z)
    } else {
        cells
    }
}

/// A grid of `width * height` depths, row by row.
#[derive(Debug)]
pub struct ZBuffer {
    data: Vec<u32>,
    width: u32,
    height: u32,
}

impl ZBuffer {
    #[verifier::type_invariant]
    pub closed spec fn wf(&self) -> bool {
        self.data@.len() == self.width * self.height
    }

    /// The stored depths, row by row.
    pub closed spec fn cells(&self) -> Seq<u32> {
        self.data@
    }

    pub closed spec fn spec_width(&self) -> nat {
        self.width as nat
    }

    pub closed spec fn spec_height(&self) -> nat {
        self.height as nat
    }

    /// Whether `(x, y)` names a cell of this buffer.
    pub open spec fn contains(&self, x: int, y: int) -> bool {
        0 <= x < self.spec_width() && 0 <= y < self.spec_height()
    }

    /// The depth stored at `(x, y)`; meaningful where `contains(x, y)`.
    pub open spec fn depth(&self, x: int, y: int) -> u32 {
        self.cells()[y * self.spec_width() + x]
    }

    /// A well-formed buffer holds `width * height` depths, and every cell
    /// inside it has its index inside the grid.
    pub proof fn lemma_layout(&self, x: int, y: int)
        requires
            self.wf(),
        ensures
            self.cells().len() == self.spec_width() * self.spec_height(),
            self.contains(x, y) ==> 0 <= y * self.spec_width() + x < self.cells().len(),
    {
        let w = self.spec_width() as int;
        let h = self.spec_height() as int;
        if self.contains(x, y) {
            assert(0 <= y * w + x && y * w + x + 1 <= w * h) by (nonlinear_arith)
                requires
                    0 <= x < w,
                    0 <= y < h,
            ;
        }
    }

    /// A buffer in which nothing is drawn yet: every depth is the least
    /// finite value.
    pub fn new(width: u32, height: u32) -> (buf: Self)
        requires
            width * height <= u32::MAX,
        ensures
            buf.wf(),
            buf.spec_width() == width,
            buf.spec_height() == height,
            buf.cells().len() == width * height,
            forall|i: int| 0 <= i < buf.cells().len() ==> #[trigger] buf.cells()[i] == MIN,
    {
        let len: u32 = width * height;
        let data: Vec<u32> = vec![MIN; len as usize];
        ZBuffer { data, width, height }
    }

    /// Tests the depth `z` at `(x, y)`: where the cell is inside the buffer
    /// and `z` is greater than the depth stored there, stores `z` and
    /// returns true; otherwise changes nothing and returns false.
    pub fn test_and_set(&mut self, x: u32, y: u32, z: u32) -> (won: bool)
        ensures
            final(self).wf(),
            final(self).spec_width() == old(self).spec_width(),
            final(self).spec_height() == old(self).spec_height(),
            won == visible(
                old(self).cells(),
                old(self).spec_width() as int,
                old(self).spec_height() as int,
                x as int,
                y as int,
                z,
            ),
            final(self).cells() == tested(
                old(self).cells(),
                old(self).spec_width() as int,
                old(self).spec_height() as int,
                x as int,
                y as int,
                z,
            ),
        no_unwind
    {
        proof {
            use_type_invariant(&*self);
            self.lemma_layout(x as int, y as int);
        }
        if x >= self.width || y >= self.height {
            return false;
        }
        let n = self.data.len();
        assert(0 <= y * self.width && y * self.width + x < n) by (nonlinear_arith)
            requires
                0 <= y,
                0 <= x,
                0 <= y * self.width + x < n,
        ;
        let i: usize = y as usize * self.width as usize + x as usize;
        if greater_than(z, self.data[i]) {
            self.data[i] = z;
            return true;
        }
        false
    }
}

} // verus!
