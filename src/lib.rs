//! A small 2D chart renderer: data points in fixed-point units are scaled
//! onto a pixel canvas, framed by a border, labelled with their axis limits
//! and drawn as markers or as a connected line. The renderer produces a list
//! of drawing operations that a drawing surface replays.

pub mod label;
pub mod geometry;
pub mod scale;
pub mod unit;
