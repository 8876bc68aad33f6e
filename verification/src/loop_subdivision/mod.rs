//! The Loop scheme.

pub mod refine;
pub mod stencils;
pub mod topology;
