//! How big a pane is, in cells and in pixels.
use vstd::prelude::*;

verus! {

/// A rectangle of cells.
#[derive(Debug, Clone, Copy, PartialEq, Eq, Structural)]
pub struct Cells {
    pub cols: u32,
    pub rows: u32,
}

/// A pane: its cells, and how many pixels one cell is.
#[derive(Debug, Clone, Copy, PartialEq, Eq)]
pub struct Metrics {
    pub cols: u32,
    pub rows: u32,
    pub cell: (u32, u32),
}

/// A number of cells or pixels, of which there is always one.
pub open spec fn at_least_one(n: int) -> u32 {
    if n < 1 {
        1
    } else if n > u32::MAX {
        u32::MAX
    } else {
        n as u32
    }
}

/// A product of at least one, kept in the range of a `u32`.
pub open spec fn bounded_product(a: u32, b: u32) -> u32 {
    at_least_one(a * b)
}

/// A product of at least one, kept in the range of a `u32`.
pub fn product(a: u32, b: u32) -> (r: u32)
    ensures
        r == bounded_product(a, b),
{
    proof {
        assert(0 <= a * b <= u64::MAX) by (nonlinear_arith)
            requires
                0 <= a <= u32::MAX,
                0 <= b <= u32::MAX,
        ;
    }
    let n: u64 = a as u64 * b as u64;
    if n < 1 {
        1
    } else if n > u32::MAX as u64 {
        u32::MAX
    } else {
        n as u32
    }
}

impl Metrics {
    /// The rows that are left under the status row: at least one.
    pub fn usable_rows(&self) -> (r: u32)
        ensures
            r == at_least_one(self.rows - 1),
    {
        if self.rows <= 2 {
            1
        } else {
            self.rows - 1
        }
    }

    /// The pixels that are left under the status row.
    pub fn usable_pixels(&self) -> (r: (u32, u32))
        ensures
            r == (
                bounded_product(at_least_one(self.cols as int), self.cell.0),
                bounded_product(at_least_one(self.rows - 1), self.cell.1),
            ),
    {
        let cols: u32 = if self.cols == 0 {
            1
        } else {
            self.cols
        };
        (product(cols, self.cell.0), product(self.usable_rows(), self.cell.1))
    }
}

/// A page is as many pixels as its cells, each of them a pixel at least, unless
/// that is more than can be said.
pub proof fn law_a_page_is_as_large_as_its_cells(n: u32, size: u32)
    requires
        n >= 1,
        size >= 1,
        n * size <= u32::MAX,
    ensures
        bounded_product(n, size) == n * size,
        at_least_one(n as int) == n,
        at_least_one(0) == 1,
        at_least_one(-1) == 1,
{
    assert(n * size >= 1) by (nonlinear_arith)
        requires
            n >= 1,
            size >= 1,
    ;
}

}
