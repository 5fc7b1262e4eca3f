//! Paints, as the rasterization pipeline reads them.

use vstd::prelude::*;

verus! {

/// A solid color, held as what the pipeline reads of it: its premultiplied 8-bit
/// channels (red, green, blue, alpha), and whether its straight alpha is exactly one.
#[derive(Clone, Copy, Debug)]
pub struct SolidColor {
    pub premul: [u8; 4],
    pub opaque: bool,
}

impl SolidColor {
    /// The fully transparent color.
    pub open spec fn spec_transparent() -> SolidColor {
        SolidColor { premul: [0u8, 0u8, 0u8, 0u8], opaque: false }
    }

    /// The fully transparent color.
    pub fn transparent() -> (r: SolidColor)
        ensures
            r == SolidColor::spec_transparent(),
            r.premul@ == seq![0u8, 0u8, 0u8, 0u8],
            !r.opaque,
    {
        let r = SolidColor { premul: [0u8, 0u8, 0u8, 0u8], opaque: false };
        assert(r.premul@ =~= seq![0u8, 0u8, 0u8, 0u8]);
        r
    }
}

/// A paint used to fill or stroke a path.
#[derive(Clone, Copy, Debug)]
pub enum Paint {
    Solid(SolidColor),
}

impl Paint {
    /// The premultiplied 8-bit channels of the paint's color.
    pub open spec fn premul(self) -> Seq<u8> {
        match self {
            Paint::Solid(c) => c.premul@,
        }
    }
}

} // verus!
