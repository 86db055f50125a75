//! Laws of the pipeline under exact arithmetic.
pub mod align;
pub mod color;
pub mod demosaic;
pub mod finish;
pub mod frame;
pub mod kernel;
pub mod matrix;
pub mod merge;
pub mod metadata;
pub mod overlap;
pub mod picture;
pub mod pyramid;
pub mod reorder;
pub mod search;
pub mod separable;
pub mod shift;
pub mod tile;
pub mod transform;
pub mod wiener;
pub mod window;
