//! A square grid filled with 1, 2, 3, ... along a clockwise spiral that
//! starts in the top-left cell and winds inward.

pub mod cursor;
pub mod direction;
pub mod matrix;
pub mod spiral;
pub mod text;
