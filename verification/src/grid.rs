//! A W x H grid of scalar values, row-major, as produced for labels and
//! neighbor distances.

use vstd::prelude::*;

verus! {

/// A rectangular grid of integers: cell `(x, y)` is entry `x * H + y` of
/// `cells`, matching the weight grid's row-major layout.
#[derive(Debug)]
pub struct Grid {
    /// Grid width W.
    pub width: usize,
    /// Grid height H.
    pub height: usize,
    /// The W * H cell values, row-major.
    pub cells: Vec<i64>,
}

impl Grid {
    /// Shape soundness: exactly `W * H` cells.
    pub open spec fn wf(&self) -> bool {
        &&& 1 <= self.width
        &&& 1 <= self.height
        &&& self.cells@.len() == self.width * self.height
    }

    /// The value of cell `(x, y)`.
    pub fn at(&self, x: usize, y: usize) -> (r: i64)
        requires
            self.wf(),
            x < self.width,
            y < self.height,
        ensures
            r == self.cells@[x * self.height + y],
    {
        let len = self.cells.len();
        proof {
            assert(x * self.height + y < self.width * self.height) by (nonlinear_arith)
                requires
                    (x as int) < self.width as int,
                    (y as int) < self.height as int,
                    0 <= x as int,
                    0 <= y as int,
                    1 <= self.height as int,
            ;
            assert(x * self.height + y < len);
        }
        self.cells[x * self.height + y]
    }
}

} // verus!
