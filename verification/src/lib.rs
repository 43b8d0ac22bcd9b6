//! The verified core of a software wireframe renderer: a framebuffer, an
//! integer line rasterizer with an exact pixel-set contract, the flat face
//! encoding of indexed meshes with its decoding cursor, the flat-shading
//! colour arithmetic, and the face- and edge-level drawing strategies over
//! camera-projected vertices. The floating-point camera itself lives with
//! the callers; everything that touches pixels is specified and proved here.

pub mod color;
pub mod context;
pub mod mesh;
pub mod raster;
pub mod surface;
pub mod target;
