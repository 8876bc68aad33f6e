//! The weights of the schemes.

use subdiv_kernels::{
    BoundaryInterpolation, CreaseComputationMethod, Mesh, RefinementResult, Refiner, Scalar, Scheme, SchemeOptions,
    UniformRefine, VertexOrigin,
};

/// Single-precision weights.
#[derive(Debug, Clone, Copy, PartialEq, PartialOrd)]
struct F(f32);

impl Scalar for F {
    fn ratio_of(num: u32, den: u32) -> F {
        F::ratio(num, den)
    }
    fn plus_of(a: F, b: F) -> F {
        a.plus(b)
    }
    fn minus_of(a: F, b: F) -> F {
        a.minus(b)
    }
    fn times_of(a: F, b: F) -> F {
        a.times(b)
    }
    fn over_of(a: F, b: F) -> F {
        a.over(b)
    }
    fn larger_of(a: F, b: F) -> F {
        a.larger(b)
    }
    fn less_of(a: F, b: F) -> bool {
        a.less(b)
    }
    fn at_most_of(a: F, b: F) -> bool {
        a.at_most(b)
    }
    fn finite_of(a: F) -> bool {
        a.is_finite()
    }
    fn cos_turn_of(num: u64, den: u64) -> F {
        F::cos_turn(num, den)
    }
    fn sin_turn_of(num: u64, den: u64) -> F {
        F::sin_turn(num, den)
    }
    fn sqrt_of(a: F) -> F {
        a.sqrt()
    }
    fn negated_of(a: F) -> F {
        a.negated()
    }
    fn ratio(num: u32, den: u32) -> F {
        F(num as f32 / den as f32)
    }
    fn cos_turn(num: u64, den: u64) -> F {
        F((std::f32::consts::TAU * num as f32 / den as f32).cos())
    }
    fn sin_turn(num: u64, den: u64) -> F {
        F((std::f32::consts::TAU * num as f32 / den as f32).sin())
    }
    fn sqrt(self) -> F {
        F(self.0.sqrt())
    }
    fn negated(self) -> F {
        F(-self.0)
    }
    fn plus(self, other: F) -> F {
        F(self.0 + other.0)
    }
    fn minus(self, other: F) -> F {
        F(self.0 - other.0)
    }
    fn times(self, other: F) -> F {
        F(self.0 * other.0)
    }
    fn over(self, other: F) -> F {
        F(self.0 / other.0)
    }
    fn larger(self, other: F) -> F {
        F(self.0.max(other.0))
    }
    fn less(self, other: F) -> bool {
        self.0 < other.0
    }
    fn at_most(self, other: F) -> bool {
        self.0 <= other.0
    }
    fn is_finite(self) -> bool {
        self.0.is_finite()
    }
}


fn mesh(vertex_count: u32, faces: &[&[u32]]) -> Mesh<F> {
    Mesh {
        vertex_count,
        face_vertex_counts: faces.iter().map(|f| f.len() as u32).collect(),
        face_vertex_indices: faces.iter().flat_map(|f| f.iter().copied()).collect(),
        edge_vertices: Vec::new(),
        edge_creases: Vec::new(),
        vertex_corners: vec![F(0.0); vertex_count as usize],
    }
}

fn grid() -> Mesh<F> {
    mesh(9, &[&[0, 3, 4, 1], &[1, 4, 5, 2], &[3, 6, 7, 4], &[4, 7, 8, 5]])
}

/// Six triangles around vertex 0.
fn hexagon() -> Mesh<F> {
    mesh(7, &[&[0, 1, 2], &[0, 2, 3], &[0, 3, 4], &[0, 4, 5], &[0, 5, 6], &[0, 6, 1]])
}

fn refine(mesh: Mesh<F>, scheme: Scheme, options: SchemeOptions) -> RefinementResult<F> {
    Refiner::new(mesh, scheme, options).unwrap().refine_uniform(&UniformRefine::from(1)).unwrap()
}

/// The row of a refined vertex, by ascending index.
fn row(result: &RefinementResult<F>, origin: VertexOrigin) -> Vec<(u32, f32)> {
    let at = result.lineage.vertex_origin.iter().position(|o| *o == origin).unwrap();
    row_at(result, at)
}

fn row_at(result: &RefinementResult<F>, at: usize) -> Vec<(u32, f32)> {
    let table = &result.level_stencils[0];
    let (start, end) = (table.offsets[at] as usize, table.offsets[at + 1] as usize);
    let mut row: Vec<(u32, f32)> = (start..end).map(|k| (table.indices[k], table.weights[k].0)).collect();
    row.sort_by_key(|e| e.0);
    row
}

fn same(row: &[(u32, f32)], wanted: &[(u32, f32)]) {
    let kept: Vec<(u32, f32)> = row.iter().copied().filter(|e| e.1 != 0.0).collect();
    assert_eq!(kept.len(), wanted.len(), "{kept:?}");
    for (a, b) in kept.iter().zip(wanted) {
        assert!(a.0 == b.0 && (a.1 - b.1).abs() < 1e-6, "{kept:?} {wanted:?}");
    }
}

#[test]
fn catmull_clark_smooth_points() {
    let result = refine(grid(), Scheme::CatmullClark, SchemeOptions::default());
    same(&row(&result, VertexOrigin::Face(0)), &[(0, 0.25), (1, 0.25), (3, 0.25), (4, 0.25)]);
    let e = 1.0 / 16.0;
    same(
        &row(&result, VertexOrigin::Vertex(4)),
        &[
            (0, 0.25 * e),
            (1, 1.5 * e),
            (2, 0.25 * e),
            (3, 1.5 * e),
            (4, 9.0 * e),
            (5, 1.5 * e),
            (6, 0.25 * e),
            (7, 1.5 * e),
            (8, 0.25 * e),
        ],
    );
    let inner = result
        .lineage
        .vertex_origin
        .iter()
        .enumerate()
        .filter(|(_, o)| matches!(o, VertexOrigin::Edge(_)))
        .map(|(at, _)| row_at(&result, at))
        .find(|r| r.len() == 6 && r.iter().any(|e| e.0 == 1))
        .unwrap();
    let weights: Vec<f32> = inner.iter().map(|e| e.1).collect();
    assert_eq!(weights.iter().filter(|&&w| w == 0.375).count(), 2);
    assert_eq!(weights.iter().filter(|&&w| w == 0.0625).count(), 4);
}

#[test]
fn boundaries_follow_the_options() {
    let edges = refine(grid(), Scheme::CatmullClark, SchemeOptions::default());
    same(&row(&edges, VertexOrigin::Vertex(0)), &[(0, 0.75), (1, 0.125), (3, 0.125)]);
    same(&row(&edges, VertexOrigin::Vertex(1)), &[(0, 0.125), (1, 0.75), (2, 0.125)]);
    let options =
        SchemeOptions { boundary_interpolation: BoundaryInterpolation::EdgesAndCorners, ..Default::default() };
    let corners = refine(grid(), Scheme::CatmullClark, options);
    same(&row(&corners, VertexOrigin::Vertex(0)), &[(0, 1.0)]);
    same(&row(&corners, VertexOrigin::Vertex(1)), &[(0, 0.125), (1, 0.75), (2, 0.125)]);
}

#[test]
fn creases_and_corners_hold_points() {
    let mut m = grid();
    m.edge_vertices = vec![[1, 4], [4, 7]];
    m.edge_creases = vec![F(2.5), F(2.5)];
    let result = refine(m.clone(), Scheme::CatmullClark, SchemeOptions::default());
    same(&row(&result, VertexOrigin::Vertex(4)), &[(1, 0.125), (4, 0.75), (7, 0.125)]);
    let mut kept: Vec<f32> = result.topology.edge_creases.iter().map(|c| c.0).filter(|c| *c > 0.0).collect();
    kept.sort_by(|a, b| a.partial_cmp(b).unwrap());
    assert_eq!(kept, vec![1.5; 4]);
    m.vertex_corners[4] = F(3.0);
    let result = refine(m.clone(), Scheme::CatmullClark, SchemeOptions::default());
    same(&row(&result, VertexOrigin::Vertex(4)), &[(4, 1.0)]);
    let at = result.lineage.vertex_origin.iter().position(|o| *o == VertexOrigin::Vertex(4)).unwrap();
    assert_eq!(result.topology.vertex_corners[at], F(2.0));
    m.vertex_corners[4] = F(0.0);
    m.edge_creases = vec![F(f32::INFINITY), F(10.0)];
    let result = refine(m.clone(), Scheme::CatmullClark, SchemeOptions::default());
    let kept: Vec<f32> = result.topology.edge_creases.iter().map(|c| c.0).filter(|c| *c > 0.0).collect();
    assert_eq!(kept, vec![10.0; 4]);
    let options = SchemeOptions { crease_computation: CreaseComputationMethod::Chaikin, ..Default::default() };
    m.edge_creases = vec![F(3.0), F(1.0)];
    let result = refine(m, Scheme::CatmullClark, options);
    let kept: Vec<f32> = result.topology.edge_creases.iter().map(|c| c.0).filter(|c| *c > 0.0).collect();
    assert!(kept.len() >= 2 && kept.iter().all(|c| *c <= 3.0));
}

#[test]
fn loop_smooth_points() {
    let result = refine(hexagon(), Scheme::Loop, SchemeOptions::default());
    let beta = 1.0 / 16.0;
    let wanted: Vec<(u32, f32)> =
        (0..7).map(|v| if v == 0 { (0, 1.0 - 6.0 * beta) } else { (v, beta) }).collect();
    same(&row(&result, VertexOrigin::Vertex(0)), &wanted);
    let inner = result
        .lineage
        .vertex_origin
        .iter()
        .enumerate()
        .filter(|(_, o)| matches!(o, VertexOrigin::Edge(_)))
        .map(|(at, _)| row_at(&result, at))
        .find(|r| r.len() == 4 && r[0].1 > 0.3 && r[1].0 == 1)
        .unwrap();
    same(&inner, &[(0, 0.375), (1, 0.375), (2, 0.125), (6, 0.125)]);
}

#[test]
fn sqrt3_smooth_points() {
    let result = refine(hexagon(), Scheme::Sqrt3, SchemeOptions::default());
    same(&row(&result, VertexOrigin::Face(0)), &[(0, 1.0 / 3.0), (1, 1.0 / 3.0), (2, 1.0 / 3.0)]);
    let alpha = (4.0 - 2.0 * (std::f32::consts::TAU / 6.0).cos()) / 9.0;
    let wanted: Vec<(u32, f32)> =
        (0..7).map(|v| if v == 0 { (0, 1.0 - alpha + alpha / 3.0) } else { (v, alpha / 9.0) }).collect();
    same(&row(&result, VertexOrigin::Vertex(0)), &wanted);
}

#[test]
fn doo_sabin_points() {
    let result = refine(mesh(4, &[&[0, 1, 2, 3]]), Scheme::DooSabin, SchemeOptions::default());
    let rows: Vec<Vec<(u32, f32)>> = (0..4).map(|at| row_at(&result, at)).collect();
    for (at, row) in rows.iter().enumerate() {
        let total: f32 = row.iter().map(|e| e.1).sum();
        assert!((total - 1.0).abs() < 1e-6);
        assert!(row.iter().any(|e| e.0 == at as u32 && e.1 > 0.5));
    }
    let cube = mesh(
        8,
        &[&[0, 3, 2, 1], &[4, 5, 6, 7], &[0, 1, 5, 4], &[1, 2, 6, 5], &[2, 3, 7, 6], &[3, 0, 4, 7]],
    );
    let result = refine(cube, Scheme::DooSabin, SchemeOptions::default());
    same(&row_at(&result, 0), &[(0, 9.0 / 16.0), (1, 3.0 / 16.0), (2, 1.0 / 16.0), (3, 3.0 / 16.0)]);
}
