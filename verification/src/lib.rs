//! Verified core of a desktop status widget: colour parsing, pixel
//! conversion for the compositor and the surface state transitions.

pub mod color;
pub mod pixels;
pub mod surface;
