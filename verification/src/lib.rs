//! A uniform-grid spatial index for triangle meshes with exact ray traversal.
//!
//! All geometry is carried out over integer-scaled coordinates and exact
//! rational arithmetic, so the ray/plane and ray/triangle predicates and the
//! grid walk are free of rounding error and fully verified.

pub mod mesh;
pub mod num;
pub mod path;
pub mod utils;
pub mod vec3;
