//! Sparse-strip CPU rasterization: the integer core (tiles, strips, wide-tile
//! commands, fine compositing and packing into a pixmap).

pub mod bench;
pub mod dispatcher;
pub mod ffi;
pub mod fine;
pub mod paint;
pub mod pattern;
pub mod pixmap;
pub mod rect;
pub mod render;
pub mod strip;
pub mod tiling;
pub mod wide_tile;

use vstd::prelude::*;

pub use pixmap::Pixmap;
pub use render::RenderContext;

verus! {

/// How the winding number of a point decides whether the point is inside a path.
#[derive(Clone, Copy, Debug, PartialEq, Eq, Structural)]
pub enum FillRule {
    NonZero,
    EvenOdd,
}

impl FillRule {
    /// Whether points of winding number `winding` are inside.
    pub open spec fn is_inside(self, winding: int) -> bool {
        match self {
            FillRule::NonZero => winding != 0,
            FillRule::EvenOdd => winding % 2 != 0,
        }
    }

    pub fn active_fill(&self, winding: i32) -> (r: bool)
        ensures
            r == self.is_inside(winding as int),
    {
        match self {
            FillRule::NonZero => winding != 0,
            FillRule::EvenOdd => winding % 2 != 0,
        }
    }
}

} // verus!
