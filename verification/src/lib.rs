//! A teaching-grade software rasterizer: a Wavefront OBJ mesh loader, an
//! integer Bresenham line rasterizer, and a wireframe rendering pipeline
//! that draws the edges of every face of a mesh into an RGBA image.

pub mod canvas;
pub mod raster;
pub mod render;
pub mod wavefront;
