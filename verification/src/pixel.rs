//! Pixels of a text region.

use vstd::prelude::*;

use crate::grid::in_grid;

verus! {

/// A pixel of a region: its place, its color, and whether the region's mask covers it.
#[derive(Clone, Copy, Debug)]
pub struct MaskPixel {
    pub x: u32,
    pub y: u32,
    pub color: [u8; 3],
    pub inside_mask: bool,
}

impl MaskPixel {
    pub open spec fn inside(self, width: int, height: int) -> bool {
        in_grid(self.x as int, self.y as int, width, height)
    }
}

/// Every pixel lies in the grid.
pub open spec fn all_inside(pixels: Seq<MaskPixel>, width: int, height: int) -> bool {
    forall|i: int| 0 <= i < pixels.len() ==> (#[trigger] pixels[i]).inside(width, height)
}

} // verus!
