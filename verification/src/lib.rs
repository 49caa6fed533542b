//! Fire animation for a WS2812 LED matrix: the intensity model of the
//! flames, the order in which its pixels are handed out, and the mapping
//! from matrix coordinates to positions on the zig-zag LED chain.

pub mod pixmap;
pub mod fire;
pub mod matrix;
pub mod palette;
pub mod request;
pub mod canvas;
