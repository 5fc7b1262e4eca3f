//! Parameters of generated benchmark scenes.

use vstd::prelude::*;

verus! {

/// The kinds of rectangles of a benchmark scene.
#[derive(Clone, Copy, Debug, PartialEq, Eq, Structural)]
pub enum RectType {
    Aligned,
    Unaligned,
    Rotated,
    RoundUnaligned,
    RoundRotated,
}

impl RectType {
    pub fn is_rotated(&self) -> (r: bool)
        ensures
            r == (*self == RectType::Rotated || *self == RectType::RoundRotated),
    {
        matches!(self, RectType::Rotated | RectType::RoundRotated)
    }

    pub fn is_unaligned(&self) -> (r: bool)
        ensures
            r == (*self == RectType::Unaligned || *self == RectType::RoundUnaligned),
    {
        matches!(self, RectType::Unaligned | RectType::RoundUnaligned)
    }

    pub fn is_rounded(&self) -> (r: bool)
        ensures
            r == (*self == RectType::RoundRotated || *self == RectType::RoundUnaligned),
    {
        matches!(self, RectType::RoundRotated | RectType::RoundUnaligned)
    }
}

/// The size of a benchmark scene and of its shapes, and whether shapes are stroked.
#[derive(Copy, Clone, Debug)]
pub struct Params {
    pub width: usize,
    pub height: usize,
    pub stroke: bool,
    pub size: usize,
}

/// The shapes that a benchmark scene can draw.
#[derive(Clone, Copy, Debug, PartialEq, Eq, Structural)]
pub enum ShapeKind {
    Butterfly,
    Dragon,
    Fish,
    World,
}

impl ShapeKind {
    /// The name of the shape's path file.
    pub fn name(&self) -> (r: &'static str)
        ensures
            r@ == match *self {
                ShapeKind::Butterfly => "butterfly"@,
                ShapeKind::Dragon => "dragon"@,
                ShapeKind::Fish => "fish"@,
                ShapeKind::World => "world"@,
            },
    {
        match self {
            ShapeKind::Butterfly => "butterfly",
            ShapeKind::Dragon => "dragon",
            ShapeKind::Fish => "fish",
            ShapeKind::World => "world",
        }
    }
}

} // verus!
