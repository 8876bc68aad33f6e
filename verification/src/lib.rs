//! Subdivision-surface kernels: topology refinement, stencil tables and limit
//! rules for the Catmull-Clark, Loop, sqrt(3) and Doo-Sabin schemes.
//!
//! All weights and sharpness values are of a scalar type that the caller picks
//! (see [`Scalar`]); the library never looks inside it.

use vstd::prelude::*;

pub mod accuracy;
pub mod base;
pub mod blends;
pub mod bounds;
pub mod catmull_clark;
pub mod chains;
pub mod channels;
pub mod closest_point;
pub mod connectivity;
pub mod copies;
pub mod corner_cuts;
pub mod corners;
pub mod csr;
pub mod cut_faces;
pub mod decay;
pub mod directions;
pub mod doo_sabin;
pub mod error;
pub mod extents;
pub mod face_varying;
pub mod features;
pub mod fixed;
pub mod flips;
pub mod frames;
pub mod gpu;
pub mod hashing;
pub mod heirs;
pub mod hulls;
pub mod incidence;
pub mod interpolate;
pub mod inverse;
pub mod isolation;
pub mod lasting;
pub mod level;
pub mod limit;
pub mod limit_eval;
pub mod linear;
pub mod loop_subdivision;
pub mod masks;
pub mod means;
pub mod metric;
pub mod nearest;
pub mod normals;
pub mod options;
pub mod output;
pub mod parity;
pub mod patch;
pub mod placement;
pub mod points;
pub mod polish;
pub mod polylines;
pub mod quads;
pub mod refiner;
pub mod results;
pub mod ring;
pub mod rows;
pub mod rules;
pub mod scalar;
pub mod searches;
pub mod sectors;
pub mod sharpness;
pub mod sides;
pub mod slots;
pub mod smoothing;
pub mod sqrt3;
pub mod stencil;
pub mod steps;
pub mod tables;
pub mod tangents;
pub mod texts;
pub mod thirds;
pub mod topology;
pub mod uniform;
pub mod unity;
pub mod validity;
pub mod weights;
pub mod windings;

pub use closest_point::ClosestPoint;
pub use csr::CsrVec;
pub use error::KernelError;
pub use fixed::Fixed;
pub use interpolate::Interpolatable;
pub use inverse::{AffectedScratch, InverseStencilChain, InverseStencilMap};
pub use limit::{LimitStencils, SectoredLimitStencils};
pub use limit_eval::{LimitEvaluator, LimitSample, MAX_ISOLATION_DEPTH};
pub use metric::Metric;
pub use options::{
    BoundaryInterpolation, CornerRule, CreaseComputationMethod, FaceVaryingInterpolation, Scheme, SchemeOptions,
    TriangleSubdivisionRule, UniformRefine,
};
pub use output::{LineageMaps, RefinementResult, VertexOrigin};
pub use patch::{PatchTable, QuadClass};
pub use refiner::{RefinedFinalParts, Refinement, Refiner};
pub use scalar::{Scalar, Wide};
pub use stencil::StencilTable;
pub use topology::{Adjacency, FaceVaryingChannel, Mesh};
