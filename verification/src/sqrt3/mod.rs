//! The sqrt(3) scheme.

pub mod refine;
pub mod stencils;
