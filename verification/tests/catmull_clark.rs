//! Catmull-Clark refinement in single precision.

use std::collections::{HashMap, HashSet};
use subdiv_kernels::catmull_clark::topology::build_cc_refined_uniform;
use subdiv_kernels::incidence::{build_topology_raw, CreaseTie};
use subdiv_kernels::{FaceVaryingChannel, FaceVaryingInterpolation, Interpolatable, Mesh, Refiner, Scalar, Scheme, SchemeOptions, UniformRefine, VertexOrigin};

/// Single-precision weights.
#[derive(Debug, Clone, Copy, PartialEq, PartialOrd)]
struct F(f32);

impl Scalar for F {
    fn ratio_of(num: u32, den: u32) -> F {
        F::ratio(num, den)
    }
    fn plus_of(a: F, b: F) -> F {
        a.plus(b)
    }
    fn minus_of(a: F, b: F) -> F {
        a.minus(b)
    }
    fn times_of(a: F, b: F) -> F {
        a.times(b)
    }
    fn over_of(a: F, b: F) -> F {
        a.over(b)
    }
    fn larger_of(a: F, b: F) -> F {
        a.larger(b)
    }
    fn less_of(a: F, b: F) -> bool {
        a.less(b)
    }
    fn at_most_of(a: F, b: F) -> bool {
        a.at_most(b)
    }
    fn finite_of(a: F) -> bool {
        a.is_finite()
    }
    fn cos_turn_of(num: u64, den: u64) -> F {
        F::cos_turn(num, den)
    }
    fn sin_turn_of(num: u64, den: u64) -> F {
        F::sin_turn(num, den)
    }
    fn sqrt_of(a: F) -> F {
        a.sqrt()
    }
    fn negated_of(a: F) -> F {
        a.negated()
    }
    fn ratio(num: u32, den: u32) -> F {
        F(num as f32 / den as f32)
    }
    fn cos_turn(num: u64, den: u64) -> F {
        F((std::f32::consts::TAU * num as f32 / den as f32).cos())
    }
    fn sin_turn(num: u64, den: u64) -> F {
        F((std::f32::consts::TAU * num as f32 / den as f32).sin())
    }
    fn sqrt(self) -> F {
        F(self.0.sqrt())
    }
    fn negated(self) -> F {
        F(-self.0)
    }
    fn plus(self, other: F) -> F {
        F(self.0 + other.0)
    }
    fn minus(self, other: F) -> F {
        F(self.0 - other.0)
    }
    fn times(self, other: F) -> F {
        F(self.0 * other.0)
    }
    fn over(self, other: F) -> F {
        F(self.0 / other.0)
    }
    fn larger(self, other: F) -> F {
        F(self.0.max(other.0))
    }
    fn less(self, other: F) -> bool {
        self.0 < other.0
    }
    fn at_most(self, other: F) -> bool {
        self.0 <= other.0
    }
    fn is_finite(self) -> bool {
        self.0.is_finite()
    }
}

impl<const N: usize> Interpolatable<F> for [f32; N] {
    fn origin_of() -> Self {
        <Self as Interpolatable<F>>::origin()
    }
    fn moved(mut self, src: Self, weight: F) -> Self {
        self.add_with_weight(&src, weight);
        self
    }
    fn origin() -> Self {
        [0.0; N]
    }
    fn add_with_weight(&mut self, src: &Self, weight: F) {
        for (a, b) in self.iter_mut().zip(src) {
            *a += b * weight.0;
        }
    }
}

impl<const N: usize> Interpolatable<F> for [f64; N] {
    fn origin_of() -> Self {
        <Self as Interpolatable<F>>::origin()
    }
    fn moved(mut self, src: Self, weight: F) -> Self {
        self.add_with_weight(&src, weight);
        self
    }
    fn origin() -> Self {
        [0.0; N]
    }
    fn add_with_weight(&mut self, src: &Self, weight: F) {
        for (a, b) in self.iter_mut().zip(src) {
            *a += b * weight.0 as f64;
        }
    }
}

impl Interpolatable<F> for f32 {
    fn origin_of() -> Self {
        <Self as Interpolatable<F>>::origin()
    }
    fn moved(mut self, src: Self, weight: F) -> Self {
        self.add_with_weight(&src, weight);
        self
    }
    fn origin() -> Self {
        0.0
    }
    fn add_with_weight(&mut self, src: &Self, weight: F) {
        *self += src * weight.0;
    }
}

fn ek(a: u32, b: u32) -> (u32, u32) {
    if a <= b {
        (a, b)
    } else {
        (b, a)
    }
}

fn uf_find(parent: &mut [usize], mut x: usize) -> usize {
    while parent[x] != x {
        parent[x] = parent[parent[x]];
        x = parent[x];
    }
    x
}

fn uf_union(parent: &mut [usize], a: usize, b: usize) {
    let ra = uf_find(parent, a);
    let rb = uf_find(parent, b);
    if ra != rb {
        parent[ra] = rb;
    }
}

fn face_offsets(mesh: &Mesh<F>) -> Vec<usize> {
    let mut off = vec![0usize; mesh.face_vertex_counts.len() + 1];
    for f in 0..mesh.face_vertex_counts.len() {
        off[f + 1] = off[f] + mesh.face_vertex_counts[f] as usize;
    }
    off
}

/// Infinite creases on the edges in `seam`, none on the others.
fn creases_for(mesh: &Mesh<F>, seam: &[[u32; 2]]) -> Vec<F> {
    let seam_set: HashSet<(u32, u32)> = seam.iter().map(|&[a, b]| ek(a, b)).collect();
    mesh.edge_vertices
        .iter()
        .map(|&[a, b]| if seam_set.contains(&ek(a, b)) { F(10.0) } else { F(0.0) })
        .collect()
}

/// A channel whose values are the positions and whose indices are split along
/// `seam`.
fn seamed_position_channel(
    mesh: &Mesh<F>,
    seam: &[[u32; 2]],
    positions: &[[f32; 3]],
) -> (FaceVaryingChannel, Vec<[f32; 3]>) {
    let seam_set: HashSet<(u32, u32)> = seam.iter().map(|&[a, b]| ek(a, b)).collect();
    let face_count = mesh.face_vertex_counts.len();
    let off = face_offsets(mesh);
    let mut edge_faces: HashMap<(u32, u32), Vec<usize>> = HashMap::new();
    for f in 0..face_count {
        let n = mesh.face_vertex_counts[f] as usize;
        for k in 0..n {
            let a = mesh.face_vertex_indices[off[f] + k];
            let b = mesh.face_vertex_indices[off[f] + (k + 1) % n];
            edge_faces.entry(ek(a, b)).or_default().push(f);
        }
    }
    let mut parent: Vec<usize> = (0..face_count).collect();
    for (key, faces) in &edge_faces {
        if faces.len() == 2 && !seam_set.contains(key) {
            uf_union(&mut parent, faces[0], faces[1]);
        }
    }
    let mut map: HashMap<(u32, usize), u32> = HashMap::new();
    let mut indices = vec![0u32; off[face_count]];
    let mut values: Vec<[f32; 3]> = Vec::new();
    for f in 0..face_count {
        let island = uf_find(&mut parent, f);
        let n = mesh.face_vertex_counts[f] as usize;
        for k in 0..n {
            let v = mesh.face_vertex_indices[off[f] + k];
            let id = *map.entry((v, island)).or_insert_with(|| {
                let id = values.len() as u32;
                values.push(positions[v as usize]);
                id
            });
            indices[off[f] + k] = id;
        }
    }
    let value_count = values.len() as u32;
    (FaceVaryingChannel { indices, value_count }, values)
}

fn cube_topology() -> Mesh<F> {
    Mesh {
        vertex_count: 8,
        face_vertex_counts: vec![4; 6],
        face_vertex_indices: vec![
            0, 1, 2, 3,
            4, 5, 6, 7,
            0, 1, 5, 4,
            2, 3, 7, 6,
            0, 3, 7, 4,
            1, 2, 6, 5,
        ],
        edge_vertices: vec![
            [0, 1],
            [1, 2],
            [2, 3],
            [0, 3],
            [4, 5],
            [5, 6],
            [6, 7],
            [4, 7],
            [0, 4],
            [1, 5],
            [2, 6],
            [3, 7],
        ],
        edge_creases: vec![F(0.0); 12],
        vertex_corners: vec![F(0.0); 8],
    }
}

fn cube_positions() -> Vec<[f32; 3]> {
    vec![
        [0.0, 0.0, 0.0],
        [1.0, 0.0, 0.0],
        [1.0, 1.0, 0.0],
        [0.0, 1.0, 0.0],
        [0.0, 0.0, 1.0],
        [1.0, 0.0, 1.0],
        [1.0, 1.0, 1.0],
        [0.0, 1.0, 1.0],
    ]
}

fn close3(a: [f32; 3], b: [f32; 3]) -> bool {
    (a[0] - b[0]).abs() < 1e-5 && (a[1] - b[1]).abs() < 1e-5 && (a[2] - b[2]).abs() < 1e-5
}

fn assert_no_seam_matches_positional(mode: FaceVaryingInterpolation) {
    let topo = cube_topology();
    let positions = cube_positions();
    let channel = FaceVaryingChannel {
        indices: topo.face_vertex_indices.clone(),
        value_count: topo.vertex_count,
    };
    let refiner = Refiner::new(topo, Scheme::CatmullClark, SchemeOptions::default()).unwrap();
    let req = UniformRefine::from(1);
    let result = refiner.refine_uniform(&req).unwrap();
    let refined_pos = result.interpolate(&positions);
    let tables = refiner.face_varying_stencils(&req, &channel, mode).unwrap();
    let fvar_out = tables
        .iter()
        .fold(positions.clone(), |d, t| t.interpolate(&d));
    for (c, &v) in result.topology.face_vertex_indices.iter().enumerate() {
        assert!(
            close3(fvar_out[c], refined_pos[v as usize]),
            "{mode:?} corner {c} (vertex {v}): fvar {:?} != positional {:?}",
            fvar_out[c],
            refined_pos[v as usize],
        );
    }
}

fn assert_smooth_crease_matches_creased_positional(mode: FaceVaryingInterpolation) {
    let topo = cube_topology();
    let positions = cube_positions();
    let seam = [[0u32, 1], [1, 2], [2, 3], [0, 3]];
    let mut creased = topo.clone();
    creased.edge_creases = creases_for(&topo, &seam);
    let refiner = Refiner::new(creased, Scheme::CatmullClark, SchemeOptions::default()).unwrap();
    let req = UniformRefine::from(1);
    let result = refiner.refine_uniform(&req).unwrap();
    let refined_pos = result.interpolate(&positions);
    let (channel, values) = seamed_position_channel(&topo, &seam, &positions);
    let tables = refiner.face_varying_stencils(&req, &channel, mode).unwrap();
    let fvar_out = tables.iter().fold(values, |d, t| t.interpolate(&d));
    for (c, &v) in result.topology.face_vertex_indices.iter().enumerate() {
        assert!(
            close3(fvar_out[c], refined_pos[v as usize]),
            "{mode:?} corner {c} (vertex {v}): fvar {:?} != creased-positional {:?}",
            fvar_out[c],
            refined_pos[v as usize],
        );
    }
}

#[test]
fn fvar_boundaries_no_seam_matches_positional() {
    assert_no_seam_matches_positional(FaceVaryingInterpolation::SmoothWithLinearBoundaries);
}

#[test]
fn fvar_smooth_no_seam_matches_positional() {
    assert_no_seam_matches_positional(FaceVaryingInterpolation::Smooth);
}

#[test]
fn fvar_corners_only_no_seam_matches_positional() {
    assert_no_seam_matches_positional(FaceVaryingInterpolation::SmoothWithLinearCorners);
}

#[test]
fn fvar_smooth_crease_matches_creased_positional() {
    assert_smooth_crease_matches_creased_positional(FaceVaryingInterpolation::Smooth);
}

#[test]
fn fvar_corners_only_pins_corner_unlike_smooth() {
    let topo = Mesh {
        vertex_count: 6,
        face_vertex_counts: vec![4, 4],
        face_vertex_indices: vec![0, 1, 2, 3, 1, 4, 5, 2],
        edge_vertices: vec![[0, 1], [1, 2], [2, 3], [0, 3], [1, 4], [4, 5], [2, 5]],
        edge_creases: vec![F(0.0); 7],
        vertex_corners: vec![F(0.0); 6],
    };
    let positions: Vec<[f32; 3]> = vec![
        [0.0, 0.0, 0.0],
        [1.0, 0.0, 0.0],
        [1.0, 1.0, 0.0],
        [0.0, 1.0, 0.0],
        [2.0, 0.0, 0.0],
        [2.0, 1.0, 0.0],
    ];
    let channel = FaceVaryingChannel {
        indices: topo.face_vertex_indices.clone(),
        value_count: topo.vertex_count,
    };
    let refiner = Refiner::new(topo, Scheme::CatmullClark, SchemeOptions::default()).unwrap();
    let req = UniformRefine::from(1);
    let result = refiner.refine_uniform(&req).unwrap();

    let eval = |mode| {
        let tables = refiner.face_varying_stencils(&req, &channel, mode).unwrap();
        tables
            .iter()
            .fold(positions.clone(), |d, t| t.interpolate(&d))
    };
    let smooth = eval(FaceVaryingInterpolation::Smooth);
    let corners = eval(FaceVaryingInterpolation::SmoothWithLinearCorners);

    let c0 = result
        .topology
        .face_vertex_indices
        .iter()
        .position(|&v| {
            matches!(
                result.lineage.vertex_origin[v as usize],
                VertexOrigin::Vertex(0)
            )
        })
        .expect("vertex-0 child point present");

    assert!(
        close3(corners[c0], [0.0, 0.0, 0.0]),
        "corner-pin got {:?}",
        corners[c0]
    );
    assert!(
        close3(smooth[c0], [0.125, 0.125, 0.0]),
        "crease curve got {:?}",
        smooth[c0]
    );
}

fn quad_topology() -> Mesh<F> {
    Mesh {
        vertex_count: 4,
        face_vertex_counts: vec![4],
        face_vertex_indices: vec![0, 1, 2, 3],
        edge_vertices: vec![[0, 1], [1, 2], [2, 3], [0, 3]],
        edge_creases: vec![F(0.0); 4],
        vertex_corners: vec![F(0.0); 4],
    }
}

fn quad_positions() -> Vec<[f32; 3]> {
    vec![
        [0.0, 0.0, 0.0],
        [1.0, 0.0, 0.0],
        [1.0, 1.0, 0.0],
        [0.0, 1.0, 0.0],
    ]
}

fn positions_match(a: &[[f32; 3]], b: &[[f32; 3]], eps: f32) -> bool {
    a.len() == b.len()
        && a.iter()
            .zip(b.iter())
            .all(|(pa, pb)| pa.iter().zip(pb.iter()).all(|(x, y)| (x - y).abs() < eps))
}

#[test]
fn quad_refines_to_four_quads() {
    let topo = quad_topology();
    let refiner = Refiner::new(topo, Scheme::CatmullClark, SchemeOptions::default()).unwrap();
    let result = refiner
        .refine_uniform(&UniformRefine {
            levels: 1,
            ..Default::default()
        })
        .unwrap();

    assert_eq!(result.topology.vertex_count, 9);
    assert_eq!(result.topology.face_vertex_counts.len(), 4);
    assert!(result.topology.face_vertex_counts.iter().all(|&n| n == 4));
}

#[test]
fn level2_produces_correct_vertex_count() {
    let topo = quad_topology();
    let pos = quad_positions();
    let refiner = Refiner::new(topo, Scheme::CatmullClark, SchemeOptions::default()).unwrap();
    let result = refiner
        .refine_uniform(&UniformRefine {
            levels: 2,
            ..Default::default()
        })
        .unwrap();

    let out = result.interpolate(&pos);
    assert_eq!(out.len(), result.topology.vertex_count as usize);
    assert_eq!(result.topology.vertex_count, 25);
}

#[test]
fn crease_propagated_through_stencils() {
    let mut topo = quad_topology();
    topo.edge_creases[0] = F(2.0);
    topo.vertex_corners[0] = F(2.0);

    let refiner = Refiner::new(topo, Scheme::CatmullClark, SchemeOptions::default()).unwrap();
    let result = refiner
        .refine_uniform(&UniformRefine {
            levels: 1,
            ..Default::default()
        })
        .unwrap();

    let creased_edges = result
        .topology
        .edge_creases
        .iter()
        .filter(|c| c.0 > 0.0)
        .count();
    assert!(creased_edges >= 2);

    assert!(result.topology.vertex_corners[5].0 > 0.0);
}

#[test]
fn interpolate_f64_positions() {
    let topo = quad_topology();
    let pos: Vec<[f64; 3]> = vec![
        [0.0, 0.0, 0.0],
        [1.0, 0.0, 0.0],
        [1.0, 1.0, 0.0],
        [0.0, 1.0, 0.0],
    ];

    let refiner = Refiner::new(topo, Scheme::CatmullClark, SchemeOptions::default()).unwrap();
    let result = refiner
        .refine_uniform(&UniformRefine {
            levels: 1,
            ..Default::default()
        })
        .unwrap();

    let out = result.interpolate(&pos);
    assert_eq!(out.len(), 9);
    assert!((out[0][0] - 0.5).abs() < 1e-10);
    assert!((out[0][1] - 0.5).abs() < 1e-10);
}

#[test]
fn fvar_all_linear_quad_level1() {
    let topo = quad_topology();
    let fvar = FaceVaryingChannel {
        indices: vec![0, 1, 2, 3],
        value_count: 4,
    };
    let uvs: Vec<[f32; 2]> = vec![[0.0, 0.0], [1.0, 0.0], [1.0, 1.0], [0.0, 1.0]];

    let refiner = Refiner::new(topo, Scheme::CatmullClark, SchemeOptions::default()).unwrap();
    let tables = refiner
        .face_varying_stencils(
            &UniformRefine {
                levels: 1,
                ..Default::default()
            },
            &fvar,
            FaceVaryingInterpolation::Linear,
        )
        .unwrap();

    let out = tables
        .iter()
        .fold(uvs.clone(), |data, t| t.interpolate(&data));
    assert_eq!(out.len(), 16);

    assert!((out[0][0] - 0.5).abs() < 1e-5);
    assert!((out[0][1] - 0.5).abs() < 1e-5);

    assert!((out[2][0] - 0.0).abs() < 1e-5);
    assert!((out[2][1] - 0.0).abs() < 1e-5);
}

#[test]
fn fvar_all_linear_preserves_seam() {
    let topo = Mesh {
        vertex_count: 6,
        face_vertex_counts: vec![4, 4],
        face_vertex_indices: vec![0, 1, 2, 3, 1, 4, 5, 2],
        edge_vertices: vec![[0, 1], [1, 2], [2, 3], [0, 3], [1, 4], [4, 5], [2, 5]],
        edge_creases: vec![F(0.0); 7],
        vertex_corners: vec![F(0.0); 6],
    };

    let fvar = FaceVaryingChannel {
        indices: vec![0, 1, 2, 3, 4, 5, 6, 7],
        value_count: 8,
    };

    let uvs: Vec<[f32; 2]> = vec![
        [0.0, 0.0],
        [1.0, 0.0],
        [1.0, 1.0],
        [0.0, 1.0],
        [0.0, 0.0],
        [1.0, 0.0],
        [1.0, 1.0],
        [0.0, 1.0],
    ];

    let refiner = Refiner::new(topo, Scheme::CatmullClark, SchemeOptions::default()).unwrap();
    let tables = refiner
        .face_varying_stencils(
            &UniformRefine {
                levels: 1,
                ..Default::default()
            },
            &fvar,
            FaceVaryingInterpolation::Linear,
        )
        .unwrap();

    let out = tables
        .iter()
        .fold(uvs.clone(), |data, t| t.interpolate(&data));
    assert_eq!(out.len(), 32);

    assert!((out[0][0] - 0.5).abs() < 1e-5);
    assert!((out[16][0] - 0.5).abs() < 1e-5);
}

#[test]
fn fvar_boundaries_matches_all_linear_on_single_quad() {
    let topo = quad_topology();
    let fvar = FaceVaryingChannel {
        indices: vec![0, 1, 2, 3],
        value_count: 4,
    };
    let uvs: Vec<[f32; 2]> = vec![[0.0, 0.0], [1.0, 0.0], [1.0, 1.0], [0.0, 1.0]];

    let refiner = Refiner::new(topo, Scheme::CatmullClark, SchemeOptions::default()).unwrap();
    let req = UniformRefine {
        levels: 1,
        ..Default::default()
    };

    let al_tables = refiner
        .face_varying_stencils(&req, &fvar, FaceVaryingInterpolation::Linear)
        .unwrap();
    let al = al_tables
        .iter()
        .fold(uvs.clone(), |data, t| t.interpolate(&data));

    let bd_tables = refiner
        .face_varying_stencils(
            &req,
            &fvar,
            FaceVaryingInterpolation::SmoothWithLinearBoundaries,
        )
        .unwrap();
    let bd = bd_tables
        .iter()
        .fold(uvs.clone(), |data, t| t.interpolate(&data));

    assert_eq!(al.len(), bd.len());
    al.iter()
        .zip(bd.iter())
        .enumerate()
        .for_each(|(i, (a, b))| {
            assert!(
                (a[0] - b[0]).abs() < 1e-5 && (a[1] - b[1]).abs() < 1e-5,
                "mismatch at {i}: AllLinear={a:?} Boundaries={b:?}"
            );
        });
}

#[test]
fn face_root_chains_to_the_base_mesh() {
    let topo = Mesh {
        vertex_count: 6,
        face_vertex_counts: vec![4, 4],
        face_vertex_indices: vec![0, 1, 2, 3, 1, 4, 5, 2],
        edge_vertices: vec![[0, 1], [1, 2], [2, 3], [0, 3], [1, 4], [4, 5], [2, 5]],
        edge_creases: vec![F(0.0); 7],
        vertex_corners: vec![F(0.0); 6],
    };
    let req = UniformRefine {
        levels: 2,
        ..Default::default()
    };
    let refiner = Refiner::new(topo, Scheme::CatmullClark, SchemeOptions::default()).unwrap();
    let result = refiner.refine_uniform(&req).unwrap();

    assert_eq!(result.face_root.len(), 32);
    assert_eq!(result.face_root.iter().filter(|&&r| r == 0).count(), 16);
    assert_eq!(result.face_root.iter().filter(|&&r| r == 1).count(), 16);

    let refined = refiner.refine_topology(&req).unwrap();
    let mut root: Vec<u32> = (0..2).collect();
    for step in 0..refined.refinement_steps() {
        let lineage = refined.level_lineage(step).unwrap();
        root = lineage
            .face_parent
            .iter()
            .map(|&parent| root[parent as usize])
            .collect();
    }
    assert_eq!(result.face_root, root);
}

fn assert_analytic_matches_generic(base: Mesh<F>, levels: usize) {
    
    let mut parent = build_topology_raw(&base, true, CreaseTie::Greater).unwrap();
    let mut pv_count = base.vertex_count as usize;

    for level in 0..levels {
        let analytic = build_cc_refined_uniform(&parent, pv_count as u32);
        let child_vertex_count = parent.faces.len() + parent.edge_vertices.len() + pv_count;

        let child_mesh = Mesh {
            vertex_count: child_vertex_count as u32,
            face_vertex_counts: analytic.face_vertex_counts.clone(),
            face_vertex_indices: analytic.face_vertex_indices.clone(),
            edge_vertices: vec![],
            edge_creases: vec![],
            vertex_corners: vec![F(0.0); child_vertex_count],
        };
        let generic = build_topology_raw(&child_mesh, true, CreaseTie::Greater).unwrap();
        let a = &analytic.topology;

        assert_eq!(a.faces, generic.faces, "faces @level {level}");
        assert_eq!(
            a.face_edges, generic.face_edges,
            "face_edges @level {level}"
        );
        assert_eq!(
            a.edge_vertices, generic.edge_vertices,
            "edge_vertices @level {level}"
        );
        assert_eq!(
            a.edge_faces, generic.edge_faces,
            "edge_faces @level {level}"
        );
        assert_eq!(
            a.vertex_edges, generic.vertex_edges,
            "vertex_edges @level {level}"
        );
        assert_eq!(
            a.vertex_faces, generic.vertex_faces,
            "vertex_faces @level {level}"
        );
        assert_eq!(
            a.edge_creases, generic.edge_creases,
            "edge_creases @level {level}"
        );
        assert!(
            a.edge_key_to_index == generic.edge_key_to_index,
            "edge_key_to_index @level {level}"
        );

        parent = analytic.topology;
        pv_count = child_vertex_count;
    }
}

#[test]
fn analytic_uniform_topology_matches_generic_quad() {
    assert_analytic_matches_generic(quad_topology(), 3);
}

#[test]
fn analytic_uniform_topology_matches_generic_cube() {
    assert_analytic_matches_generic(cube_topology(), 3);
}

#[test]
fn analytic_uniform_topology_matches_generic_triangle() {
    let tri = Mesh {
        vertex_count: 3,
        face_vertex_counts: vec![3],
        face_vertex_indices: vec![0, 1, 2],
        edge_vertices: vec![[0, 1], [1, 2], [0, 2]],
        edge_creases: vec![F(0.0); 3],
        vertex_corners: vec![F(0.0); 3],
    };
    assert_analytic_matches_generic(tri, 3);
}

#[test]
fn analytic_uniform_topology_matches_generic_mixed() {
    let mixed = Mesh {
        vertex_count: 5,
        face_vertex_counts: vec![3, 4],
        face_vertex_indices: vec![0, 1, 2, 1, 3, 4, 2],
        edge_vertices: vec![[0, 1], [1, 2], [0, 2], [1, 3], [3, 4], [2, 4]],
        edge_creases: vec![F(0.0); 6],
        vertex_corners: vec![F(0.0); 5],
    };
    assert_analytic_matches_generic(mixed, 3);
}
