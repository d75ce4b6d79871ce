//! A software rasterizer: framebuffers, screen-space rectangles, and
//! depth-tested line and triangle drawing on integer pixel coordinates.

pub mod bitmap;
pub mod device;
pub mod frame;
pub mod line;
pub mod mesh;
pub mod obj_importer;
pub mod rect;
pub mod triangle;
