//! The integral image consumed by the evaluator: a read-only grid where the
//! cell at `(x, y)` holds the cumulative sum of all source-image intensities
//! at coordinates no greater than `(x, y)`.  Building the grid from a source
//! image is the caller's business; this type only stores and serves it.

use vstd::prelude::*;

verus! {

/// A `width x height` grid of cumulative sums, stored row-major.
pub struct IntegralImage {
    pub width: u32,
    pub height: u32,
    pub data: Vec<u32>,
}

impl View for IntegralImage {
    type V = Map<(u32, u32), int>;

    /// The grid as a map from in-bounds coordinates to cumulative values.
    open spec fn view(&self) -> Map<(u32, u32), int> {
        Map::new(
            |c: (u32, u32)| c.0 < self.width && c.1 < self.height,
            |c: (u32, u32)| self.data@[c.1 * self.width + c.0] as int,
        )
    }
}

impl IntegralImage {
    /// The stored row-major data covers the whole grid.
    pub open spec fn wf(&self) -> bool {
        self.data@.len() == self.width * self.height
    }

    /// Wraps row-major cumulative data as a grid; refuses data whose length
    /// does not match the dimensions.
    pub fn new(width: u32, height: u32, data: Vec<u32>) -> (r: Option<IntegralImage>)
        ensures
            r is Some <==> data@.len() == width * height,
            r matches Some(g) ==> g.width == width && g.height == height && g.data@ == data@
                && g.wf(),
    {
        proof {
            assert((width as int) * (height as int) <= 0xffff_ffff * 0xffff_ffff)
                by (nonlinear_arith)
                requires
                    width <= 0xffff_ffffu32,
                    height <= 0xffff_ffffu32,
            ;
        }
        let expected: u64 = (width as u64) * (height as u64);
        if (data.len() as u64) == expected {
            Some(IntegralImage { width, height, data })
        } else {
            None
        }
    }

    /// The cumulative value at `(x, y)`.
    pub fn value_at(&self, x: u32, y: u32) -> (v: u32)
        requires
            self.wf(),
            x < self.width,
            y < self.height,
        ensures
            v as int == self@[(x, y)],
    {
        let _n: usize = self.data.len();
        proof {
            assert((y as int) * (self.width as int) + (x as int) < (self.width as int) * (
            self.height as int)) by (nonlinear_arith)
                requires
                    x < self.width,
                    y < self.height,
            ;
        }
        let idx: usize = (y as usize) * (self.width as usize) + (x as usize);
        self.data[idx]
    }
}

} // verus!
