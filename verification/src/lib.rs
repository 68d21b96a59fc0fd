//! The verified core of a small ray tracer: the PNG encoder for rendered images, the
//! pixel grids that the renderer walks, and the bounding volume hierarchy over a scene.

pub mod bvh;
pub mod camera;
pub mod gens;
pub mod render;
