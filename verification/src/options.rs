//! Schemes, their options and how far to refine.

use crate::scalar::{zero, zero_of, Scalar};
use vstd::prelude::*;

verus! {

/// How corner sharpness decays from level to level.
#[derive(Debug, Clone, Copy, PartialEq, Eq, Hash, Structural)]
#[non_exhaustive]
pub enum CornerRule {
    /// Semi-sharp corners after DeRose, as OpenSubdiv has them.
    OpenSubdivDeRose,
}

/// How crease sharpness is handed down to child edges.
#[derive(Debug, Clone, Copy, PartialEq, Eq, Hash, Structural)]
pub enum CreaseComputationMethod {
    /// Both children get the decayed sharpness of the parent.
    Uniform,
    /// Each child averages in the creases around its end of the parent.
    Chaikin,
}

/// Which edge mask triangles get in a quad scheme.
#[derive(Debug, Clone, Copy, PartialEq, Eq, Hash, Structural)]
pub enum TriangleSubdivisionRule {
    CatmullClark,
    SmoothTriangles,
}

/// What happens at the boundary of a mesh.
#[derive(Debug, Clone, Copy, PartialEq, Eq, Hash, Structural)]
pub enum BoundaryInterpolation {
    Natural,
    EdgesOnly,
    EdgesAndCorners,
}

/// How face-varying data is smoothed.
#[derive(Debug, Clone, Copy, PartialEq, Eq, Hash, Structural)]
pub enum FaceVaryingInterpolation {
    Linear,
    SmoothWithLinearCorners,
    SmoothWithLinearBoundaries,
    Smooth,
}

/// The subdivision schemes.
#[derive(Debug, Clone, Copy, PartialEq, Eq, Hash, Structural)]
pub enum Scheme {
    CatmullClark,
    Loop,
    Sqrt3,
    DooSabin,
}

/// Options that all schemes share.
#[derive(Debug, Clone, Copy, PartialEq, Structural)]
pub struct SchemeOptions {
    pub corner_rule: CornerRule,
    pub crease_computation: CreaseComputationMethod,
    pub boundary_interpolation: BoundaryInterpolation,
    pub triangle_subdivision_rule: TriangleSubdivisionRule,
    /// Make corners of vertices where three or more creases meet.
    pub auto_corner: bool,
    /// Keep crease sharpness from level to level.
    pub crease_normalize: bool,
    /// Keep corner sharpness from level to level.
    pub corner_normalize: bool,
}

impl Default for CornerRule {
    fn default() -> (r: Self)
        ensures
            r == CornerRule::OpenSubdivDeRose,
    {
        CornerRule::OpenSubdivDeRose
    }
}

impl Default for CreaseComputationMethod {
    fn default() -> (r: Self)
        ensures
            r == CreaseComputationMethod::Uniform,
    {
        CreaseComputationMethod::Uniform
    }
}

impl Default for TriangleSubdivisionRule {
    fn default() -> (r: Self)
        ensures
            r == TriangleSubdivisionRule::CatmullClark,
    {
        TriangleSubdivisionRule::CatmullClark
    }
}

impl Default for BoundaryInterpolation {
    fn default() -> (r: Self)
        ensures
            r == BoundaryInterpolation::EdgesOnly,
    {
        BoundaryInterpolation::EdgesOnly
    }
}

impl Default for FaceVaryingInterpolation {
    fn default() -> (r: Self)
        ensures
            r == FaceVaryingInterpolation::SmoothWithLinearBoundaries,
    {
        FaceVaryingInterpolation::SmoothWithLinearBoundaries
    }
}

impl Default for SchemeOptions {
    fn default() -> (r: Self)
        ensures
            r == (SchemeOptions {
                corner_rule: CornerRule::OpenSubdivDeRose,
                crease_computation: CreaseComputationMethod::Uniform,
                boundary_interpolation: BoundaryInterpolation::EdgesOnly,
                triangle_subdivision_rule: TriangleSubdivisionRule::CatmullClark,
                auto_corner: false,
                crease_normalize: false,
                corner_normalize: false,
            }),
    {
        SchemeOptions {
            corner_rule: CornerRule::default(),
            crease_computation: CreaseComputationMethod::default(),
            boundary_interpolation: BoundaryInterpolation::default(),
            triangle_subdivision_rule: TriangleSubdivisionRule::default(),
            auto_corner: false,
            crease_normalize: false,
            corner_normalize: false,
        }
    }
}

/// How to refine a mesh.
#[derive(Debug, Clone, PartialEq)]
pub struct UniformRefine<S> {
    /// Number of levels, at least one.
    pub levels: u8,
    /// The faces to refine; all of them if absent.
    pub selected_faces: Option<Vec<bool>>,
    /// Crease along the boundary of the selection.
    pub selection_boundary_crease: S,
    /// Whether to trace the original edges through the levels.
    pub edge_polylines: bool,
}

impl<S: Scalar> Default for UniformRefine<S> {
    fn default() -> (r: Self)
        ensures
            r.levels == 1,
            r.selected_faces is None,
            r.selection_boundary_crease == zero_of::<S>(),
            !r.edge_polylines,
    {
        UniformRefine {
            levels: 1,
            selected_faces: None,
            selection_boundary_crease: zero::<S>(),
            edge_polylines: false,
        }
    }
}

impl<S: Scalar> UniformRefine<S> {
    /// Refines all faces by a number of levels.
    pub fn from(levels: u8) -> (r: UniformRefine<S>)
        ensures
            r.levels == levels,
            r.selected_faces is None,
            r.selection_boundary_crease == zero_of::<S>(),
            !r.edge_polylines,
    {
        let mut r = UniformRefine::default();
        r.levels = levels;
        r
    }
}

} // verus!
