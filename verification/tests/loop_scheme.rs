//! Loop refinement in single precision.

use std::collections::{HashMap, HashSet};
use subdiv_kernels::incidence::{build_topology_raw, CreaseTie};
use subdiv_kernels::loop_subdivision::topology::build_loop_refined_uniform;
use subdiv_kernels::{FaceVaryingChannel, FaceVaryingInterpolation, Interpolatable, Mesh, Refiner, Scalar, Scheme, SchemeOptions, StencilTable, UniformRefine, VertexOrigin};

/// Single-precision weights.
#[derive(Debug, Clone, Copy, PartialEq, PartialOrd)]
struct F(f32);

impl Scalar for F {
    fn ratio_of(num: u32, den: u32) -> F {
        F::ratio(num, den)
    }
    fn plus_of(a: F, b: F) -> F {
        a.plus(b)
    }
    fn minus_of(a: F, b: F) -> F {
        a.minus(b)
    }
    fn times_of(a: F, b: F) -> F {
        a.times(b)
    }
    fn over_of(a: F, b: F) -> F {
        a.over(b)
    }
    fn larger_of(a: F, b: F) -> F {
        a.larger(b)
    }
    fn less_of(a: F, b: F) -> bool {
        a.less(b)
    }
    fn at_most_of(a: F, b: F) -> bool {
        a.at_most(b)
    }
    fn finite_of(a: F) -> bool {
        a.is_finite()
    }
    fn cos_turn_of(num: u64, den: u64) -> F {
        F::cos_turn(num, den)
    }
    fn sin_turn_of(num: u64, den: u64) -> F {
        F::sin_turn(num, den)
    }
    fn sqrt_of(a: F) -> F {
        a.sqrt()
    }
    fn negated_of(a: F) -> F {
        a.negated()
    }
    fn ratio(num: u32, den: u32) -> F {
        F(num as f32 / den as f32)
    }
    fn cos_turn(num: u64, den: u64) -> F {
        F((std::f32::consts::TAU * num as f32 / den as f32).cos())
    }
    fn sin_turn(num: u64, den: u64) -> F {
        F((std::f32::consts::TAU * num as f32 / den as f32).sin())
    }
    fn sqrt(self) -> F {
        F(self.0.sqrt())
    }
    fn negated(self) -> F {
        F(-self.0)
    }
    fn plus(self, other: F) -> F {
        F(self.0 + other.0)
    }
    fn minus(self, other: F) -> F {
        F(self.0 - other.0)
    }
    fn times(self, other: F) -> F {
        F(self.0 * other.0)
    }
    fn over(self, other: F) -> F {
        F(self.0 / other.0)
    }
    fn larger(self, other: F) -> F {
        F(self.0.max(other.0))
    }
    fn less(self, other: F) -> bool {
        self.0 < other.0
    }
    fn at_most(self, other: F) -> bool {
        self.0 <= other.0
    }
    fn is_finite(self) -> bool {
        self.0.is_finite()
    }
}

impl<const N: usize> Interpolatable<F> for [f32; N] {
    fn origin_of() -> Self {
        <Self as Interpolatable<F>>::origin()
    }
    fn moved(mut self, src: Self, weight: F) -> Self {
        self.add_with_weight(&src, weight);
        self
    }
    fn origin() -> Self {
        [0.0; N]
    }
    fn add_with_weight(&mut self, src: &Self, weight: F) {
        for (a, b) in self.iter_mut().zip(src) {
            *a += b * weight.0;
        }
    }
}

impl<const N: usize> Interpolatable<F> for [f64; N] {
    fn origin_of() -> Self {
        <Self as Interpolatable<F>>::origin()
    }
    fn moved(mut self, src: Self, weight: F) -> Self {
        self.add_with_weight(&src, weight);
        self
    }
    fn origin() -> Self {
        [0.0; N]
    }
    fn add_with_weight(&mut self, src: &Self, weight: F) {
        for (a, b) in self.iter_mut().zip(src) {
            *a += b * weight.0 as f64;
        }
    }
}

impl Interpolatable<F> for f32 {
    fn origin_of() -> Self {
        <Self as Interpolatable<F>>::origin()
    }
    fn moved(mut self, src: Self, weight: F) -> Self {
        self.add_with_weight(&src, weight);
        self
    }
    fn origin() -> Self {
        0.0
    }
    fn add_with_weight(&mut self, src: &Self, weight: F) {
        *self += src * weight.0;
    }
}

fn ek(a: u32, b: u32) -> (u32, u32) {
    if a <= b {
        (a, b)
    } else {
        (b, a)
    }
}

fn uf_find(parent: &mut [usize], mut x: usize) -> usize {
    while parent[x] != x {
        parent[x] = parent[parent[x]];
        x = parent[x];
    }
    x
}

fn uf_union(parent: &mut [usize], a: usize, b: usize) {
    let ra = uf_find(parent, a);
    let rb = uf_find(parent, b);
    if ra != rb {
        parent[ra] = rb;
    }
}

fn face_offsets(mesh: &Mesh<F>) -> Vec<usize> {
    let mut off = vec![0usize; mesh.face_vertex_counts.len() + 1];
    for f in 0..mesh.face_vertex_counts.len() {
        off[f + 1] = off[f] + mesh.face_vertex_counts[f] as usize;
    }
    off
}

/// Infinite creases on the edges in `seam`, none on the others.
fn creases_for(mesh: &Mesh<F>, seam: &[[u32; 2]]) -> Vec<F> {
    let seam_set: HashSet<(u32, u32)> = seam.iter().map(|&[a, b]| ek(a, b)).collect();
    mesh.edge_vertices
        .iter()
        .map(|&[a, b]| if seam_set.contains(&ek(a, b)) { F(10.0) } else { F(0.0) })
        .collect()
}

/// A channel whose values are the positions and whose indices are split along
/// `seam`.
fn seamed_position_channel(
    mesh: &Mesh<F>,
    seam: &[[u32; 2]],
    positions: &[[f32; 3]],
) -> (FaceVaryingChannel, Vec<[f32; 3]>) {
    let seam_set: HashSet<(u32, u32)> = seam.iter().map(|&[a, b]| ek(a, b)).collect();
    let face_count = mesh.face_vertex_counts.len();
    let off = face_offsets(mesh);
    let mut edge_faces: HashMap<(u32, u32), Vec<usize>> = HashMap::new();
    for f in 0..face_count {
        let n = mesh.face_vertex_counts[f] as usize;
        for k in 0..n {
            let a = mesh.face_vertex_indices[off[f] + k];
            let b = mesh.face_vertex_indices[off[f] + (k + 1) % n];
            edge_faces.entry(ek(a, b)).or_default().push(f);
        }
    }
    let mut parent: Vec<usize> = (0..face_count).collect();
    for (key, faces) in &edge_faces {
        if faces.len() == 2 && !seam_set.contains(key) {
            uf_union(&mut parent, faces[0], faces[1]);
        }
    }
    let mut map: HashMap<(u32, usize), u32> = HashMap::new();
    let mut indices = vec![0u32; off[face_count]];
    let mut values: Vec<[f32; 3]> = Vec::new();
    for f in 0..face_count {
        let island = uf_find(&mut parent, f);
        let n = mesh.face_vertex_counts[f] as usize;
        for k in 0..n {
            let v = mesh.face_vertex_indices[off[f] + k];
            let id = *map.entry((v, island)).or_insert_with(|| {
                let id = values.len() as u32;
                values.push(positions[v as usize]);
                id
            });
            indices[off[f] + k] = id;
        }
    }
    let value_count = values.len() as u32;
    (FaceVaryingChannel { indices, value_count }, values)
}

fn apply_fvar(tables: &[StencilTable<F>], uvs: &[[f32; 2]]) -> Vec<[f32; 2]> {
    tables.iter().fold(uvs.to_vec(), |d, t| t.interpolate(&d))
}

fn approx(a: [f32; 2], b: [f32; 2]) {
    assert!(
        (a[0] - b[0]).abs() < 1e-5 && (a[1] - b[1]).abs() < 1e-5,
        "{a:?} != {b:?}",
    );
}

#[test]
fn fvar_linear_triangle_level1() {
    let topo = triangle_topology();
    let fvar = FaceVaryingChannel {
        indices: vec![0, 1, 2],
        value_count: 3,
    };
    let uvs = vec![[0.0, 0.0], [1.0, 0.0], [0.0, 1.0]];
    let refiner = Refiner::new(topo, Scheme::Loop, SchemeOptions::default()).unwrap();
    let tables = refiner
        .face_varying_stencils(
            &UniformRefine::from(1),
            &fvar,
            FaceVaryingInterpolation::Linear,
        )
        .unwrap();
    let out = apply_fvar(&tables, &uvs);
    assert_eq!(out.len(), 12);
    approx(out[0], [0.0, 0.0]);
    approx(out[1], [0.5, 0.0]);
    approx(out[2], [0.0, 0.5]);
    approx(out[9], [0.5, 0.0]);
    approx(out[10], [0.5, 0.5]);
    approx(out[11], [0.0, 0.5]);
}

#[test]
fn fvar_linear_preserves_seam() {
    let topo = Mesh {
        vertex_count: 4,
        face_vertex_counts: vec![3, 3],
        face_vertex_indices: vec![0, 1, 2, 1, 3, 2],
        edge_vertices: vec![[0, 1], [1, 2], [2, 0], [1, 3], [3, 2]],
        edge_creases: vec![F(0.0); 5],
        vertex_corners: vec![F(0.0); 4],
    };
    let fvar = FaceVaryingChannel {
        indices: vec![0, 1, 2, 3, 4, 5],
        value_count: 6,
    };
    let uvs = vec![
        [0.0, 0.0],
        [1.0, 0.0],
        [0.0, 1.0],
        [10.0, 0.0],
        [11.0, 0.0],
        [10.0, 1.0],
    ];
    let refiner = Refiner::new(topo, Scheme::Loop, SchemeOptions::default()).unwrap();
    let tables = refiner
        .face_varying_stencils(
            &UniformRefine::from(1),
            &fvar,
            FaceVaryingInterpolation::Linear,
        )
        .unwrap();
    let out = apply_fvar(&tables, &uvs);
    for uv in &out {
        assert!(
            uv[0] <= 1.0001 || uv[0] >= 9.9999,
            "cross-seam mixing produced {uv:?}",
        );
    }
}

fn triangle_topology() -> Mesh<F> {
    Mesh {
        vertex_count: 3,
        face_vertex_counts: vec![3],
        face_vertex_indices: vec![0, 1, 2],
        edge_vertices: vec![[0, 1], [1, 2], [2, 0]],
        edge_creases: vec![F(0.0); 3],
        vertex_corners: vec![F(0.0); 3],
    }
}

fn triangle_positions() -> Vec<[f32; 3]> {
    vec![[0.0, 0.0, 0.0], [1.0, 0.0, 0.0], [0.0, 1.0, 0.0]]
}

#[test]
fn triangle_refines_to_four_triangles() {
    let topo = triangle_topology();
    let refiner = Refiner::new(topo, Scheme::Loop, SchemeOptions::default()).unwrap();
    let result = refiner
        .refine_uniform(&UniformRefine {
            levels: 1,
            ..Default::default()
        })
        .unwrap();

    assert_eq!(result.topology.vertex_count, 6);
    assert_eq!(result.topology.face_vertex_counts, vec![3, 3, 3, 3]);

    let lineage = &result.lineage;
    assert_eq!(lineage.vertex_origin.len(), 6);
    assert_eq!(lineage.face_parent.len(), 4);
    assert!(
        lineage
            .vertex_origin
            .iter()
            .take(3)
            .all(|origin| matches!(origin, VertexOrigin::Edge(_)))
    );
    assert!(
        lineage
            .vertex_origin
            .iter()
            .skip(3)
            .all(|origin| matches!(origin, VertexOrigin::Vertex(_)))
    );
}

#[test]
fn level2_vertex_count() {
    let topo = triangle_topology();
    let pos = triangle_positions();
    let refiner = Refiner::new(topo, Scheme::Loop, SchemeOptions::default()).unwrap();
    let result = refiner
        .refine_uniform(&UniformRefine {
            levels: 2,
            ..Default::default()
        })
        .unwrap();

    let out = result.interpolate(&pos);
    assert_eq!(out.len(), result.topology.vertex_count as usize);
}

#[test]
fn edge_polylines_split_at_each_level() {
    let topo = triangle_topology();
    let base_edge_count = topo.edge_vertices.len();

    let refiner = Refiner::new(topo, Scheme::Loop, SchemeOptions::default()).unwrap();
    let result = refiner
        .refine_uniform(&UniformRefine {
            levels: 2,
            edge_polylines: true,
            ..Default::default()
        })
        .unwrap();

    let polylines = result
        .edge_polylines
        .expect("edge_polylines should be Some when requested");

    assert_eq!(polylines.len(), base_edge_count);

    let vertex_count = result.topology.vertex_count;
    for (ei, poly) in polylines.iter().enumerate() {
        assert_eq!(
            poly.len(),
            5,
            "parent edge {ei} should have 2^2 + 1 = 5 points at level 2, got {}",
            poly.len()
        );
        for &vi in poly {
            assert!(
                vi < vertex_count,
                "polyline vertex index {vi} out of range (vertex_count={vertex_count})"
            );
        }
    }
}

#[test]
fn crease_propagated() {
    let mut topo = triangle_topology();
    topo.edge_creases = vec![F(2.0), F(0.0), F(0.0)];
    topo.vertex_corners = vec![F(2.0), F(0.0), F(0.0)];

    let refiner = Refiner::new(topo, Scheme::Loop, SchemeOptions::default()).unwrap();
    let result = refiner
        .refine_uniform(&UniformRefine {
            levels: 1,
            ..Default::default()
        })
        .unwrap();

    assert!((result.topology.vertex_corners[3].0 - 2.0).abs() < 1e-6);

    let creased_edges = result
        .topology
        .edge_creases
        .iter()
        .filter(|c| c.0 > 0.0)
        .count();
    assert!(creased_edges >= 2);
}

fn tetrahedron_topology() -> Mesh<F> {
    Mesh {
        vertex_count: 4,
        face_vertex_counts: vec![3; 4],
        face_vertex_indices: vec![0, 1, 2, 0, 2, 3, 0, 3, 1, 1, 3, 2],
        edge_vertices: vec![[0, 1], [0, 2], [0, 3], [1, 2], [1, 3], [2, 3]],
        edge_creases: vec![F(0.0); 6],
        vertex_corners: vec![F(0.0); 4],
    }
}

#[test]
fn tests_fvar_boundaries_no_seam_matches_positional() {
    let topo = tetrahedron_topology();
    let positions: Vec<[f32; 3]> = vec![
        [0.0, 0.0, 0.0],
        [1.0, 0.0, 0.0],
        [0.0, 1.0, 0.0],
        [0.0, 0.0, 1.0],
    ];
    let channel = FaceVaryingChannel {
        indices: topo.face_vertex_indices.clone(),
        value_count: topo.vertex_count,
    };
    let refiner = Refiner::new(topo, Scheme::Loop, SchemeOptions::default()).unwrap();
    let req = UniformRefine::from(1);
    let result = refiner.refine_uniform(&req).unwrap();
    let refined_pos = result.interpolate(&positions);
    let tables = refiner
        .face_varying_stencils(
            &req,
            &channel,
            FaceVaryingInterpolation::SmoothWithLinearBoundaries,
        )
        .unwrap();
    let fvar_out = tables
        .iter()
        .fold(positions.clone(), |d, t| t.interpolate(&d));
    for (c, &v) in result.topology.face_vertex_indices.iter().enumerate() {
        let a = fvar_out[c];
        let b = refined_pos[v as usize];
        assert!(
            (a[0] - b[0]).abs() < 1e-5 && (a[1] - b[1]).abs() < 1e-5 && (a[2] - b[2]).abs() < 1e-5,
            "corner {c} (vertex {v}): fvar {a:?} != positional {b:?}",
        );
    }
}

fn octahedron_topology() -> Mesh<F> {
    Mesh {
        vertex_count: 6,
        face_vertex_counts: vec![3; 8],
        face_vertex_indices: vec![
            0, 1, 2, 0, 2, 3, 0, 3, 4, 0, 4, 1,
            5, 2, 1, 5, 3, 2, 5, 4, 3, 5, 1, 4,
        ],
        edge_vertices: vec![
            [0, 1],
            [0, 2],
            [0, 3],
            [0, 4],
            [1, 2],
            [2, 3],
            [3, 4],
            [4, 1],
            [5, 1],
            [5, 2],
            [5, 3],
            [5, 4],
        ],
        edge_creases: vec![F(0.0); 12],
        vertex_corners: vec![F(0.0); 6],
    }
}

fn octahedron_positions() -> Vec<[f32; 3]> {
    vec![
        [0.0, 0.0, 1.0],
        [1.0, 0.0, 0.0],
        [0.0, 1.0, 0.0],
        [-1.0, 0.0, 0.0],
        [0.0, -1.0, 0.0],
        [0.0, 0.0, -1.0],
    ]
}

fn close3(a: [f32; 3], b: [f32; 3]) -> bool {
    (a[0] - b[0]).abs() < 1e-5 && (a[1] - b[1]).abs() < 1e-5 && (a[2] - b[2]).abs() < 1e-5
}

fn assert_no_seam_matches_positional(mode: FaceVaryingInterpolation) {
    let topo = tetrahedron_topology();
    let positions: Vec<[f32; 3]> = vec![
        [0.0, 0.0, 0.0],
        [1.0, 0.0, 0.0],
        [0.0, 1.0, 0.0],
        [0.0, 0.0, 1.0],
    ];
    let channel = FaceVaryingChannel {
        indices: topo.face_vertex_indices.clone(),
        value_count: topo.vertex_count,
    };
    let refiner = Refiner::new(topo, Scheme::Loop, SchemeOptions::default()).unwrap();
    let req = UniformRefine::from(1);
    let result = refiner.refine_uniform(&req).unwrap();
    let refined_pos = result.interpolate(&positions);
    let tables = refiner.face_varying_stencils(&req, &channel, mode).unwrap();
    let fvar_out = tables
        .iter()
        .fold(positions.clone(), |d, t| t.interpolate(&d));
    for (c, &v) in result.topology.face_vertex_indices.iter().enumerate() {
        assert!(
            close3(fvar_out[c], refined_pos[v as usize]),
            "{mode:?} corner {c} (vertex {v}): fvar {:?} != positional {:?}",
            fvar_out[c],
            refined_pos[v as usize],
        );
    }
}

fn assert_smooth_crease_matches_creased_positional(mode: FaceVaryingInterpolation) {
    let topo = octahedron_topology();
    let positions = octahedron_positions();
    let seam = [[1u32, 2], [2, 3], [3, 4], [4, 1]];
    let mut creased = topo.clone();
    creased.edge_creases = creases_for(&topo, &seam);
    let refiner = Refiner::new(creased, Scheme::Loop, SchemeOptions::default()).unwrap();
    let req = UniformRefine::from(1);
    let result = refiner.refine_uniform(&req).unwrap();
    let refined_pos = result.interpolate(&positions);
    let (channel, values) = seamed_position_channel(&topo, &seam, &positions);
    let tables = refiner.face_varying_stencils(&req, &channel, mode).unwrap();
    let fvar_out = tables.iter().fold(values, |d, t| t.interpolate(&d));
    for (c, &v) in result.topology.face_vertex_indices.iter().enumerate() {
        assert!(
            close3(fvar_out[c], refined_pos[v as usize]),
            "{mode:?} corner {c} (vertex {v}): fvar {:?} != creased-positional {:?}",
            fvar_out[c],
            refined_pos[v as usize],
        );
    }
}

#[test]
fn tests_fvar_smooth_no_seam_matches_positional() {
    assert_no_seam_matches_positional(FaceVaryingInterpolation::Smooth);
}

#[test]
fn tests_fvar_corners_only_no_seam_matches_positional() {
    assert_no_seam_matches_positional(FaceVaryingInterpolation::SmoothWithLinearCorners);
}

#[test]
fn tests_fvar_smooth_crease_matches_creased_positional() {
    assert_smooth_crease_matches_creased_positional(FaceVaryingInterpolation::Smooth);
}

#[test]
fn fvar_corners_only_crease_matches_creased_positional() {
    assert_smooth_crease_matches_creased_positional(
        FaceVaryingInterpolation::SmoothWithLinearCorners,
    );
}

#[test]
fn fvar_smooth_preserves_seam() {
    let topo = Mesh {
        vertex_count: 4,
        face_vertex_counts: vec![3, 3],
        face_vertex_indices: vec![0, 1, 2, 1, 3, 2],
        edge_vertices: vec![[0, 1], [1, 2], [2, 0], [1, 3], [3, 2]],
        edge_creases: vec![F(0.0); 5],
        vertex_corners: vec![F(0.0); 4],
    };
    let fvar = FaceVaryingChannel {
        indices: vec![0, 1, 2, 3, 4, 5],
        value_count: 6,
    };
    let uvs = vec![
        [0.0, 0.0],
        [1.0, 0.0],
        [0.0, 1.0],
        [10.0, 0.0],
        [11.0, 0.0],
        [10.0, 1.0],
    ];
    let refiner = Refiner::new(topo, Scheme::Loop, SchemeOptions::default()).unwrap();
    let tables = refiner
        .face_varying_stencils(
            &UniformRefine::from(1),
            &fvar,
            FaceVaryingInterpolation::Smooth,
        )
        .unwrap();
    let out = apply_fvar(&tables, &uvs);
    for uv in &out {
        assert!(
            uv[0] <= 1.0001 || uv[0] >= 9.9999,
            "cross-seam mixing produced {uv:?}"
        );
    }
}

fn assert_loop_analytic_matches_generic(base: Mesh<F>, levels: usize) {
    
    let mut parent = build_topology_raw(&base, true, CreaseTie::Maximum).unwrap();
    let mut pv_count = base.vertex_count as usize;

    for level in 0..levels {
        let analytic = build_loop_refined_uniform(&parent, pv_count as u32);
        let child_vertex_count = parent.edge_vertices.len() + pv_count;

        let child_mesh = Mesh {
            vertex_count: child_vertex_count as u32,
            face_vertex_counts: analytic.face_vertex_counts.clone(),
            face_vertex_indices: analytic.face_vertex_indices.clone(),
            edge_vertices: vec![],
            edge_creases: vec![],
            vertex_corners: vec![F(0.0); child_vertex_count],
        };
        let generic = build_topology_raw(&child_mesh, true, CreaseTie::Maximum).unwrap();
        let a = &analytic.topology;

        assert_eq!(a.faces, generic.faces, "faces @level {level}");
        assert_eq!(
            a.face_edges, generic.face_edges,
            "face_edges @level {level}"
        );
        assert_eq!(
            a.edge_vertices, generic.edge_vertices,
            "edge_vertices @level {level}"
        );
        assert_eq!(
            a.edge_faces, generic.edge_faces,
            "edge_faces @level {level}"
        );
        assert_eq!(
            a.edge_is_boundary, generic.edge_is_boundary,
            "edge_is_boundary @level {level}"
        );
        assert_eq!(
            a.vertex_edges, generic.vertex_edges,
            "vertex_edges @level {level}"
        );
        assert_eq!(
            a.vertex_faces, generic.vertex_faces,
            "vertex_faces @level {level}"
        );
        assert_eq!(
            a.vertex_is_boundary, generic.vertex_is_boundary,
            "vertex_is_boundary @level {level}"
        );
        assert_eq!(
            a.edge_creases, generic.edge_creases,
            "edge_creases @level {level}"
        );
        assert!(
            a.edge_key_to_index == generic.edge_key_to_index,
            "edge_key_to_index @level {level}"
        );

        parent = analytic.topology;
        pv_count = child_vertex_count;
    }
}

#[test]
fn tests_analytic_uniform_topology_matches_generic_triangle() {
    assert_loop_analytic_matches_generic(triangle_topology(), 3);
}

#[test]
fn analytic_uniform_topology_matches_generic_tetrahedron() {
    assert_loop_analytic_matches_generic(tetrahedron_topology(), 3);
}

#[test]
fn analytic_uniform_topology_matches_generic_octahedron() {
    assert_loop_analytic_matches_generic(octahedron_topology(), 3);
}

#[test]
fn analytic_uniform_topology_matches_generic_boundary() {
    let strip = Mesh {
        vertex_count: 4,
        face_vertex_counts: vec![3, 3],
        face_vertex_indices: vec![0, 1, 2, 1, 3, 2],
        edge_vertices: vec![[0, 1], [1, 2], [2, 0], [1, 3], [3, 2]],
        edge_creases: vec![F(0.0); 5],
        vertex_corners: vec![F(0.0); 4],
    };
    assert_loop_analytic_matches_generic(strip, 3);
}
