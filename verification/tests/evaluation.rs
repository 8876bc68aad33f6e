//! Evaluating the limit surface.

use subdiv_kernels::limit_eval::merge_row;
use subdiv_kernels::{
    BoundaryInterpolation, KernelError, Mesh, QuadClass, RefinementResult, Refiner, Scalar, Scheme, SchemeOptions,
    UniformRefine, Wide,
};

/// Single-precision weights.
#[derive(Debug, Clone, Copy, PartialEq, PartialOrd)]
struct F(f32);

impl Scalar for F {
    fn ratio_of(num: u32, den: u32) -> F {
        F::ratio(num, den)
    }
    fn plus_of(a: F, b: F) -> F {
        a.plus(b)
    }
    fn minus_of(a: F, b: F) -> F {
        a.minus(b)
    }
    fn times_of(a: F, b: F) -> F {
        a.times(b)
    }
    fn over_of(a: F, b: F) -> F {
        a.over(b)
    }
    fn larger_of(a: F, b: F) -> F {
        a.larger(b)
    }
    fn less_of(a: F, b: F) -> bool {
        a.less(b)
    }
    fn at_most_of(a: F, b: F) -> bool {
        a.at_most(b)
    }
    fn finite_of(a: F) -> bool {
        a.is_finite()
    }
    fn cos_turn_of(num: u64, den: u64) -> F {
        F::cos_turn(num, den)
    }
    fn sin_turn_of(num: u64, den: u64) -> F {
        F::sin_turn(num, den)
    }
    fn sqrt_of(a: F) -> F {
        a.sqrt()
    }
    fn negated_of(a: F) -> F {
        a.negated()
    }
    fn ratio(num: u32, den: u32) -> F {
        F(num as f32 / den as f32)
    }
    fn cos_turn(num: u64, den: u64) -> F {
        F((std::f32::consts::TAU * num as f32 / den as f32).cos())
    }
    fn sin_turn(num: u64, den: u64) -> F {
        F((std::f32::consts::TAU * num as f32 / den as f32).sin())
    }
    fn sqrt(self) -> F {
        F(self.0.sqrt())
    }
    fn negated(self) -> F {
        F(-self.0)
    }
    fn plus(self, other: F) -> F {
        F(self.0 + other.0)
    }
    fn minus(self, other: F) -> F {
        F(self.0 - other.0)
    }
    fn times(self, other: F) -> F {
        F(self.0 * other.0)
    }
    fn over(self, other: F) -> F {
        F(self.0 / other.0)
    }
    fn larger(self, other: F) -> F {
        F(self.0.max(other.0))
    }
    fn less(self, other: F) -> bool {
        self.0 < other.0
    }
    fn at_most(self, other: F) -> bool {
        self.0 <= other.0
    }
    fn is_finite(self) -> bool {
        self.0.is_finite()
    }
}

/// Double-precision numbers.
#[derive(Debug, Clone, Copy, PartialEq, PartialOrd)]
struct D(f64);

impl Scalar for D {
    fn ratio_of(num: u32, den: u32) -> D {
        D::ratio(num, den)
    }
    fn plus_of(a: D, b: D) -> D {
        a.plus(b)
    }
    fn minus_of(a: D, b: D) -> D {
        a.minus(b)
    }
    fn times_of(a: D, b: D) -> D {
        a.times(b)
    }
    fn over_of(a: D, b: D) -> D {
        a.over(b)
    }
    fn larger_of(a: D, b: D) -> D {
        a.larger(b)
    }
    fn less_of(a: D, b: D) -> bool {
        a.less(b)
    }
    fn at_most_of(a: D, b: D) -> bool {
        a.at_most(b)
    }
    fn finite_of(a: D) -> bool {
        a.is_finite()
    }
    fn cos_turn_of(num: u64, den: u64) -> D {
        D::cos_turn(num, den)
    }
    fn sin_turn_of(num: u64, den: u64) -> D {
        D::sin_turn(num, den)
    }
    fn sqrt_of(a: D) -> D {
        a.sqrt()
    }
    fn negated_of(a: D) -> D {
        a.negated()
    }
    fn ratio(num: u32, den: u32) -> D {
        D(num as f64 / den as f64)
    }
    fn cos_turn(num: u64, den: u64) -> D {
        D((num as f64 * (std::f64::consts::TAU / den as f64)).cos())
    }
    fn sin_turn(num: u64, den: u64) -> D {
        D((num as f64 * (std::f64::consts::TAU / den as f64)).sin())
    }
    fn sqrt(self) -> D {
        D(self.0.sqrt())
    }
    fn negated(self) -> D {
        D(-self.0)
    }
    fn plus(self, other: D) -> D {
        D(self.0 + other.0)
    }
    fn minus(self, other: D) -> D {
        D(self.0 - other.0)
    }
    fn times(self, other: D) -> D {
        D(self.0 * other.0)
    }
    fn over(self, other: D) -> D {
        D(self.0 / other.0)
    }
    fn larger(self, other: D) -> D {
        D(self.0.max(other.0))
    }
    fn less(self, other: D) -> bool {
        self.0 < other.0
    }
    fn at_most(self, other: D) -> bool {
        self.0 <= other.0
    }
    fn is_finite(self) -> bool {
        self.0.is_finite()
    }
}

impl Wide<F> for D {
    fn narrow_of(w: D) -> F {
        w.narrow()
    }
    fn widen_of(s: F) -> D {
        <D as Wide<F>>::widen(s)
    }
    fn narrow(self) -> F {
        F(self.0 as f32)
    }
    fn widen(s: F) -> D {
        D(s.0 as f64)
    }
}

/// Four quads around a vertex.
fn grid() -> Mesh<F> {
    Mesh {
        vertex_count: 9,
        face_vertex_counts: vec![4; 4],
        face_vertex_indices: vec![0, 3, 4, 1, 1, 4, 5, 2, 3, 6, 7, 4, 4, 7, 8, 5],
        edge_vertices: Vec::new(),
        edge_creases: Vec::new(),
        vertex_corners: vec![F(0.0); 9],
    }
}

fn grid_positions() -> Vec<[F; 3]> {
    (0..9).map(|v| [F((v / 3) as f32), F((v % 3) as f32), F(0.0)]).collect()
}

/// A cube whose faces all turn outwards.
fn cube() -> Mesh<F> {
    Mesh {
        vertex_count: 8,
        face_vertex_counts: vec![4; 6],
        face_vertex_indices: vec![0, 3, 2, 1, 4, 5, 6, 7, 0, 1, 5, 4, 1, 2, 6, 5, 2, 3, 7, 6, 3, 0, 4, 7],
        edge_vertices: Vec::new(),
        edge_creases: Vec::new(),
        vertex_corners: vec![F(0.0); 8],
    }
}

fn cube_positions() -> Vec<[F; 3]> {
    [
        [-1.0, -1.0, -1.0],
        [1.0, -1.0, -1.0],
        [1.0, 1.0, -1.0],
        [-1.0, 1.0, -1.0],
        [-1.0, -1.0, 1.0],
        [1.0, -1.0, 1.0],
        [1.0, 1.0, 1.0],
        [-1.0, 1.0, 1.0],
    ]
    .iter()
    .map(|p: &[f32; 3]| [F(p[0]), F(p[1]), F(p[2])])
    .collect()
}

fn refined(mesh: Mesh<F>, levels: u8) -> RefinementResult<F> {
    Refiner::new(mesh, Scheme::CatmullClark, SchemeOptions::default())
        .unwrap()
        .refine_uniform(&UniformRefine::from(levels))
        .unwrap()
}

fn close(a: f32, b: f32) -> bool {
    (a - b).abs() < 1e-4
}

fn blend(row: &[(u32, F)], positions: &[[F; 3]]) -> [f32; 3] {
    let mut out = [0.0; 3];
    for (i, w) in row {
        for c in 0..3 {
            out[c] += w.0 * positions[*i as usize][c].0;
        }
    }
    out
}

fn corner_of(result: &RefinementResult<F>, face: u32, corner: usize) -> usize {
    result.topology.face_vertex_indices[4 * face as usize + corner] as usize
}

const CORNERS: [[f32; 2]; 4] = [[0.0, 0.0], [1.0, 0.0], [1.0, 1.0], [0.0, 1.0]];

#[test]
fn inner_quads_of_a_grid_are_regular() {
    let result = refined(grid(), 1);
    let positions = result.interpolate(&grid_positions());
    let evaluator = result.limit_evaluator(&positions).unwrap();
    let table = result.patch_table().unwrap();
    let count = result.topology.face_vertex_counts.len() as u32;
    let regular: Vec<u32> = (0..count).filter(|&f| evaluator.quad_class(f) == QuadClass::Regular).collect();
    assert_eq!(regular.len(), 4);
    assert_eq!(table.len(), 4);
    assert!(!table.is_empty());
    assert_eq!(table.faces, regular);
    for (k, &f) in regular.iter().enumerate() {
        assert_eq!(table.face_patch(f), Some(k as u32));
    }
    assert_eq!(table.quad_class(regular[0]), QuadClass::Regular);
}

#[test]
fn corners_evaluate_to_the_limit_positions() {
    for (mesh, cage) in [(grid(), grid_positions()), (cube(), cube_positions())] {
        let result = refined(mesh, 1);
        let positions = result.interpolate(&cage);
        let evaluator = result.limit_evaluator(&positions).unwrap();
        let limits = result.limit_stencils::<D>().unwrap().position.interpolate(&positions);
        for face in 0..result.topology.face_vertex_counts.len() as u32 {
            for corner in 0..4 {
                let uv = [F(CORNERS[corner][0]), F(CORNERS[corner][1])];
                let p = evaluator.eval::<D>(face, uv).unwrap();
                let wanted = limits[corner_of(&result, face, corner)];
                for c in 0..3 {
                    assert!(close(p[c].0, wanted[c].0), "face {face} corner {corner}: {p:?} {wanted:?}");
                }
            }
        }
    }
}

#[test]
fn weights_blend_to_the_point_and_sum_to_one() {
    let result = refined(cube(), 1);
    let positions = result.interpolate(&cube_positions());
    let evaluator = result.limit_evaluator(&positions).unwrap();
    for face in [0, 7, 23] {
        for uv in [[0.5, 0.5], [0.0, 0.0], [0.9, 0.1], [0.25, 1.0], [1.0, 1.0]] {
            let at = [F(uv[0]), F(uv[1])];
            let row = evaluator.weights_at::<D>(face, at).unwrap();
            let total: f32 = row.iter().map(|e| e.1 .0).sum();
            assert!(close(total, 1.0));
            assert!(row.windows(2).all(|w| w[0].0 < w[1].0));
            assert!(row.iter().all(|e| (e.0 as usize) < positions.len()));
            let p = evaluator.eval::<D>(face, at).unwrap();
            let b = blend(&row, &positions);
            for c in 0..3 {
                assert!(close(p[c].0, b[c]), "face {face} at {uv:?}");
            }
        }
    }
}

#[test]
fn places_outside_are_held_inside() {
    let result = refined(cube(), 1);
    let positions = result.interpolate(&cube_positions());
    let evaluator = result.limit_evaluator(&positions).unwrap();
    assert_eq!(
        evaluator.eval::<D>(3, [F(-0.5), F(1.5)]).unwrap(),
        evaluator.eval::<D>(3, [F(0.0), F(1.0)]).unwrap(),
    );
}

#[test]
fn derivatives_follow_the_surface() {
    let result = refined(cube(), 1);
    let positions = result.interpolate(&cube_positions());
    let evaluator = result.limit_evaluator(&positions).unwrap();
    let h = 1.0 / 256.0;
    for face in [0u32, 5, 17] {
        let (_, du, dv) = evaluator.eval_with_derivatives::<D>(face, [F(0.4), F(0.6)]).unwrap();
        let a = evaluator.eval::<D>(face, [F(0.4 - h), F(0.6)]).unwrap();
        let b = evaluator.eval::<D>(face, [F(0.4 + h), F(0.6)]).unwrap();
        let c = evaluator.eval::<D>(face, [F(0.4), F(0.6 - h)]).unwrap();
        let d = evaluator.eval::<D>(face, [F(0.4), F(0.6 + h)]).unwrap();
        for k in 0..3 {
            assert!(((b[k].0 - a[k].0) / (2.0 * h) - du[k].0).abs() < 1e-2);
            assert!(((d[k].0 - c[k].0) / (2.0 * h) - dv[k].0).abs() < 1e-2);
        }
    }
}

#[test]
fn sharp_edges_stay_where_they_are() {
    let mut mesh = cube();
    for f in 0..6 {
        for k in 0..4 {
            let a = mesh.face_vertex_indices[4 * f + k];
            let b = mesh.face_vertex_indices[4 * f + (k + 1) % 4];
            if a < b {
                mesh.edge_vertices.push([a, b]);
                mesh.edge_creases.push(F(f32::INFINITY));
            }
        }
    }
    let result = refined(mesh, 1);
    let positions = result.interpolate(&cube_positions());
    let evaluator = result.limit_evaluator(&positions).unwrap();
    for face in 0..24 {
        let p = evaluator.eval::<D>(face, [F(0.3), F(0.7)]).unwrap();
        assert!(p.iter().any(|x| close(x.0.abs(), 1.0)), "{p:?}");
    }
}

#[test]
fn patches_of_a_flat_grid_are_flat() {
    let result = refined(grid(), 1);
    let positions = result.interpolate(&grid_positions());
    let table = result.patch_table().unwrap();
    for patch in 0..table.len() {
        let row = table.position_weights::<F, D>(patch, [F(0.25), F(0.5)]);
        assert_eq!(row.len(), 16);
        let total: f64 = row.iter().map(|e| e.1 .0).sum();
        assert!((total - 1.0).abs() < 1e-12);
        let p = table.eval::<F, D>(patch, [F(0.25), F(0.5)], &positions);
        let (q, du, dv) = table.eval_with_derivatives::<F, D>(patch, [F(0.25), F(0.5)], &positions);
        assert_eq!(p, q);
        assert!(close(p[2].0, 0.0) && close(du[2].0, 0.0) && close(dv[2].0, 0.0));
        assert!(du[0].0.abs() + du[1].0.abs() > 0.1 && dv[0].0.abs() + dv[1].0.abs() > 0.1);
    }
    let mid = table.eval::<F, D>(0, [F(0.0), F(0.0)], &positions);
    assert!(mid[0].0 > 0.4 && mid[0].0 < 1.6);
}

#[test]
fn rows_are_merged_by_index() {
    let row = [(5u32, D(0.25)), (2, D(0.5)), (5, D(0.25)), (9, D(1.0)), (9, D(-1.0))];
    assert_eq!(merge_row::<F, D>(&row), vec![(2, F(0.5)), (5, F(0.5))]);
}

#[test]
fn limits_of_a_regular_vertex() {
    let result = refined(grid(), 1);
    let stencils = result.limit_stencils::<D>().unwrap();
    let limits = stencils.position.interpolate(&result.interpolate(&grid_positions()));
    let middle = result
        .lineage
        .vertex_origin
        .iter()
        .position(|o| matches!(o, subdiv_kernels::VertexOrigin::Vertex(4)))
        .unwrap();
    assert!(close(limits[middle][0].0, 1.0) && close(limits[middle][1].0, 1.0));
    let start = stencils.position.offsets[middle] as usize;
    let end = stencils.position.offsets[middle + 1] as usize;
    let mut weights: Vec<f32> = stencils.position.weights[start..end].iter().map(|w| w.0 * 36.0).collect();
    weights.sort_by(|a, b| a.partial_cmp(b).unwrap());
    let wanted = [1.0, 1.0, 1.0, 1.0, 4.0, 4.0, 4.0, 4.0, 16.0];
    assert_eq!(weights.len(), 9);
    for (w, x) in weights.iter().zip(wanted) {
        assert!((w - x).abs() < 1e-4);
    }
}

#[test]
fn composed_limits_are_limits_of_the_refined_points() {
    let result = refined(cube(), 2);
    let cage = cube_positions();
    let step = result.limit_stencils::<D>().unwrap().position.interpolate(&result.interpolate(&cage));
    let direct = result.compose_limit_stencils::<D>(8).unwrap().position.interpolate(&cage);
    assert_eq!(step.len(), direct.len());
    for (a, b) in step.iter().zip(&direct) {
        for c in 0..3 {
            assert!(close(a[c].0, b[c].0));
        }
    }
    let sectored = result.sectored_limit_stencils::<D>().unwrap();
    assert_eq!(sectored.corner_sector.len(), result.topology.face_vertex_indices.len());
    let composed = result.compose_sectored_limit_stencils::<D>(8).unwrap();
    assert_eq!(composed.corner_sector, sectored.corner_sector);
    assert_eq!(composed.tangent1.output_count(), sectored.tangent1.output_count());
}

#[test]
fn a_coarse_triangle_is_no_quad() {
    let mesh = Mesh {
        vertex_count: 3,
        face_vertex_counts: vec![3],
        face_vertex_indices: vec![0, 1, 2],
        edge_vertices: Vec::new(),
        edge_creases: Vec::new(),
        vertex_corners: vec![F(0.0); 3],
    };
    let result = Refiner::new(mesh, Scheme::Loop, SchemeOptions::default())
        .unwrap()
        .refine_uniform(&UniformRefine::from(1))
        .unwrap();
    assert_eq!(
        result.limit_stencils::<D>().err(),
        Some(KernelError::NotImplemented("limit-surface machinery is only implemented for Catmull-Clark")),
    );
}

#[test]
fn a_natural_boundary_corner_has_no_limit() {
    let options = SchemeOptions { boundary_interpolation: BoundaryInterpolation::Natural, ..Default::default() };
    let result = Refiner::new(grid(), Scheme::CatmullClark, options)
        .unwrap()
        .refine_uniform(&UniformRefine::from(1))
        .unwrap();
    let positions = result.interpolate(&grid_positions());
    let evaluator = result.limit_evaluator(&positions).unwrap();
    let found = (0..16).any(|face| {
        CORNERS.iter().any(|uv| {
            let at = [F(uv[0]), F(uv[1])];
            assert_eq!(evaluator.eval::<D>(face, at).is_ok(), evaluator.weights_at::<D>(face, at).is_ok());
            evaluator.eval::<D>(face, at).err()
                == Some(KernelError::NotImplemented(
                    "limit evaluation at boundary feature vertices under BoundaryInterpolation::Natural",
                ))
        })
    });
    assert!(found);
}
