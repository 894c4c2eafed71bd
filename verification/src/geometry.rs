//! Geometry primitives: points, sizes, lengths and side-offsets in one
//! device-independent logical-unit space. Pure data; arithmetic only.

use vstd::prelude::*;

verus! {

/// Marker for the logical-unit coordinate space.
pub struct LogicalPixel;

/// A length in logical units.
pub type LogicalLength = i64;

/// Every single length handed to the engine (padding side, explicit size,
/// word advance, line height) is kept within this bound.
pub const MAX_DIM: i64 = 0x1_0000_0000;

/// Bound on every accumulated value (sums of child extents, running
/// coordinates). Chosen so that sums of a few `MAX_DIM`-sized terms on top
/// of a `MAX_ACC`-sized accumulator still fit in an `i64`.
pub const MAX_ACC: i64 = 0x1000_0000_0000_0000;

#[derive(Clone, Copy, PartialEq, Eq, Structural, Debug)]
pub struct LogicalPoint {
    pub x: i64,
    pub y: i64,
}

#[derive(Clone, Copy, PartialEq, Eq, Structural, Debug)]
pub struct LogicalSize {
    pub width: i64,
    pub height: i64,
}

#[derive(Clone, Copy, PartialEq, Eq, Structural, Debug)]
pub struct LogicalSideOffsets {
    pub top: i64,
    pub right: i64,
    pub bottom: i64,
    pub left: i64,
}

pub fn point2(x: i64, y: i64) -> (r: LogicalPoint)
    ensures
        r.x == x,
        r.y == y,
{
    LogicalPoint { x, y }
}

pub fn size2(width: i64, height: i64) -> (r: LogicalSize)
    ensures
        r.width == width,
        r.height == height,
{
    LogicalSize { width, height }
}

impl LogicalSideOffsets {
    /// All four offsets equal, as for a uniform padding.
    pub fn new_all_same(v: i64) -> (r: LogicalSideOffsets)
        ensures
            r.top == v && r.right == v && r.bottom == v && r.left == v,
    {
        LogicalSideOffsets { top: v, right: v, bottom: v, left: v }
    }

    /// Whether each offset is a plausible padding: non-negative and bounded.
    pub open spec fn wf(self) -> bool {
        &&& 0 <= self.top <= MAX_DIM
        &&& 0 <= self.right <= MAX_DIM
        &&& 0 <= self.bottom <= MAX_DIM
        &&& 0 <= self.left <= MAX_DIM
    }

    pub open spec fn spec_horizontal(self) -> int {
        self.left + self.right
    }

    pub open spec fn spec_vertical(self) -> int {
        self.top + self.bottom
    }

    /// Total of the left and right offsets.
    pub fn horizontal(&self) -> (r: i64)
        requires
            self.wf(),
        ensures
            r == self.spec_horizontal(),
    {
        self.left + self.right
    }

    /// Total of the top and bottom offsets.
    pub fn vertical(&self) -> (r: i64)
        requires
            self.wf(),
        ensures
            r == self.spec_vertical(),
    {
        self.top + self.bottom
    }
}

} // verus!
