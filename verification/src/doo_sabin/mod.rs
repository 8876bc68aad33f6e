//! The Doo-Sabin scheme.

pub mod face_varying;
pub mod refine;
pub mod stencils;
pub mod topology;
