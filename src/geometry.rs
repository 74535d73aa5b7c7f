//! Value types shared by the renderer: points, segments, colours.

use vstd::prelude::*;

verus! {

/// A coordinate in fixed-point units: `crate::label::UNIT` stands for one.
pub type PlotUnit = i64;

#[derive(Debug, Clone, Copy, PartialEq, Eq, Structural)]
pub struct Point2D {
    pub x: PlotUnit,
    pub y: PlotUnit,
}

#[derive(Debug, Clone, Copy, PartialEq, Eq, Structural)]
pub struct Line2D {
    pub start: Point2D,
    pub end: Point2D,
}

/// A colour with channels from 0 (none) to 255 (full), opaque or with alpha.
#[derive(Debug, Clone, Copy, PartialEq, Eq, Structural)]
pub enum Color {
    RGB(u8, u8, u8),
    RGBA(u8, u8, u8, u8),
}

/// The failures of rendering.
#[derive(Debug, Clone, Copy, PartialEq, Eq, Structural)]
pub enum PlotError {
    /// An axis whose low and high limits are equal, or a canvas without a
    /// positive width and height, has no scale, so no point can be placed.
    DegenerateRange,
    /// An axis label whose decimal point would fall past its digits.
    UnplaceableLabel,
}

} // verus!
