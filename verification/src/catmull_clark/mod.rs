//! The Catmull-Clark scheme.

pub mod face_varying;
pub mod refine;
pub mod sharpness;
pub mod stencils;
pub mod topology;
