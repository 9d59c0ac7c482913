//! The live camera: its options, what it draws over faces, and what it says of them.

pub mod benchmark;
pub mod delaunay;
pub mod depth;
pub mod frame;
pub mod labels;
pub mod mesh;
pub mod options;
pub mod outline;
pub mod pencil;
pub mod relief;
pub mod surface;
pub mod triangulation;
pub mod turning;
pub mod warp;
