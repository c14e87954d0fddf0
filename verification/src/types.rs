//! Small shared data types: command verbs, arc parameters and mask placement.

use vstd::prelude::*;

verus! {

/// Action of a path command, stripped of its coordinates.
#[derive(Copy, Clone, PartialEq, Eq, Structural, Debug)]
pub enum Verb {
    MoveTo,
    LineTo,
    CurveTo,
    QuadTo,
    Close,
}

/// Describes the size of an arc.
#[derive(Copy, Clone, PartialEq, Eq, Structural, Debug)]
pub enum ArcSize {
    /// An arc of <= 180 degrees will be drawn.
    Small,
    /// An arc of >= 180 degrees will be drawn.
    Large,
}

/// Describes the sweep direction for an arc.
#[derive(Copy, Clone, PartialEq, Eq, Structural, Debug)]
pub enum ArcSweep {
    /// The arc is drawn in a positive angle direction.
    Positive,
    /// The arc is drawn in a negative angle direction.
    Negative,
}

/// The origin of the coordinate system for rendering.
#[derive(Copy, Clone, PartialEq, Eq, Structural, Debug)]
pub enum Origin {
    /// Origin (0, 0) at the top left of the image.
    TopLeft,
    /// Origin (0, 0) at the bottom left of the image.
    BottomLeft,
}

impl Default for Origin {
    fn default() -> (d: Self)
        ensures
            d == Origin::TopLeft,
    {
        Origin::TopLeft
    }
}

/// Describes the offset and dimensions of a rendered mask.
#[derive(Copy, Clone, PartialEq, Eq, Structural, Debug)]
pub struct Placement {
    /// Horizontal offset with respect to the origin specified when computing
    /// the placement.
    pub left: i32,
    /// Vertical offset with respect to the origin specified when computing
    /// the placement.
    pub top: i32,
    /// Width in pixels.
    pub width: u32,
    /// Height in pixels.
    pub height: u32,
}

impl Default for Placement {
    fn default() -> (d: Self)
        ensures
            d.left == 0 && d.top == 0 && d.width == 0 && d.height == 0,
    {
        Placement { left: 0, top: 0, width: 0, height: 0 }
    }
}

} // verus!
