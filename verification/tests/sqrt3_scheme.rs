//! Refinement by the root of three in single precision.

use std::collections::{HashMap, HashSet};
use subdiv_kernels::{FaceVaryingChannel, FaceVaryingInterpolation, Interpolatable, Mesh, Refiner, Scalar, Scheme, SchemeOptions, StencilTable, UniformRefine};

/// Single-precision weights.
#[derive(Debug, Clone, Copy, PartialEq, PartialOrd)]
struct F(f32);

impl Scalar for F {
    fn ratio_of(num: u32, den: u32) -> F {
        F::ratio(num, den)
    }
    fn plus_of(a: F, b: F) -> F {
        a.plus(b)
    }
    fn minus_of(a: F, b: F) -> F {
        a.minus(b)
    }
    fn times_of(a: F, b: F) -> F {
        a.times(b)
    }
    fn over_of(a: F, b: F) -> F {
        a.over(b)
    }
    fn larger_of(a: F, b: F) -> F {
        a.larger(b)
    }
    fn less_of(a: F, b: F) -> bool {
        a.less(b)
    }
    fn at_most_of(a: F, b: F) -> bool {
        a.at_most(b)
    }
    fn finite_of(a: F) -> bool {
        a.is_finite()
    }
    fn cos_turn_of(num: u64, den: u64) -> F {
        F::cos_turn(num, den)
    }
    fn sin_turn_of(num: u64, den: u64) -> F {
        F::sin_turn(num, den)
    }
    fn sqrt_of(a: F) -> F {
        a.sqrt()
    }
    fn negated_of(a: F) -> F {
        a.negated()
    }
    fn ratio(num: u32, den: u32) -> F {
        F(num as f32 / den as f32)
    }
    fn cos_turn(num: u64, den: u64) -> F {
        F((std::f32::consts::TAU * num as f32 / den as f32).cos())
    }
    fn sin_turn(num: u64, den: u64) -> F {
        F((std::f32::consts::TAU * num as f32 / den as f32).sin())
    }
    fn sqrt(self) -> F {
        F(self.0.sqrt())
    }
    fn negated(self) -> F {
        F(-self.0)
    }
    fn plus(self, other: F) -> F {
        F(self.0 + other.0)
    }
    fn minus(self, other: F) -> F {
        F(self.0 - other.0)
    }
    fn times(self, other: F) -> F {
        F(self.0 * other.0)
    }
    fn over(self, other: F) -> F {
        F(self.0 / other.0)
    }
    fn larger(self, other: F) -> F {
        F(self.0.max(other.0))
    }
    fn less(self, other: F) -> bool {
        self.0 < other.0
    }
    fn at_most(self, other: F) -> bool {
        self.0 <= other.0
    }
    fn is_finite(self) -> bool {
        self.0.is_finite()
    }
}

impl<const N: usize> Interpolatable<F> for [f32; N] {
    fn origin_of() -> Self {
        <Self as Interpolatable<F>>::origin()
    }
    fn moved(mut self, src: Self, weight: F) -> Self {
        self.add_with_weight(&src, weight);
        self
    }
    fn origin() -> Self {
        [0.0; N]
    }
    fn add_with_weight(&mut self, src: &Self, weight: F) {
        for (a, b) in self.iter_mut().zip(src) {
            *a += b * weight.0;
        }
    }
}

impl<const N: usize> Interpolatable<F> for [f64; N] {
    fn origin_of() -> Self {
        <Self as Interpolatable<F>>::origin()
    }
    fn moved(mut self, src: Self, weight: F) -> Self {
        self.add_with_weight(&src, weight);
        self
    }
    fn origin() -> Self {
        [0.0; N]
    }
    fn add_with_weight(&mut self, src: &Self, weight: F) {
        for (a, b) in self.iter_mut().zip(src) {
            *a += b * weight.0 as f64;
        }
    }
}

impl Interpolatable<F> for f32 {
    fn origin_of() -> Self {
        <Self as Interpolatable<F>>::origin()
    }
    fn moved(mut self, src: Self, weight: F) -> Self {
        self.add_with_weight(&src, weight);
        self
    }
    fn origin() -> Self {
        0.0
    }
    fn add_with_weight(&mut self, src: &Self, weight: F) {
        *self += src * weight.0;
    }
}

fn ek(a: u32, b: u32) -> (u32, u32) {
    if a <= b {
        (a, b)
    } else {
        (b, a)
    }
}

fn uf_find(parent: &mut [usize], mut x: usize) -> usize {
    while parent[x] != x {
        parent[x] = parent[parent[x]];
        x = parent[x];
    }
    x
}

fn uf_union(parent: &mut [usize], a: usize, b: usize) {
    let ra = uf_find(parent, a);
    let rb = uf_find(parent, b);
    if ra != rb {
        parent[ra] = rb;
    }
}

fn face_offsets(mesh: &Mesh<F>) -> Vec<usize> {
    let mut off = vec![0usize; mesh.face_vertex_counts.len() + 1];
    for f in 0..mesh.face_vertex_counts.len() {
        off[f + 1] = off[f] + mesh.face_vertex_counts[f] as usize;
    }
    off
}

/// Infinite creases on the edges in `seam`, none on the others.
fn creases_for(mesh: &Mesh<F>, seam: &[[u32; 2]]) -> Vec<F> {
    let seam_set: HashSet<(u32, u32)> = seam.iter().map(|&[a, b]| ek(a, b)).collect();
    mesh.edge_vertices
        .iter()
        .map(|&[a, b]| if seam_set.contains(&ek(a, b)) { F(10.0) } else { F(0.0) })
        .collect()
}

/// A channel whose values are the positions and whose indices are split along
/// `seam`.
fn seamed_position_channel(
    mesh: &Mesh<F>,
    seam: &[[u32; 2]],
    positions: &[[f32; 3]],
) -> (FaceVaryingChannel, Vec<[f32; 3]>) {
    let seam_set: HashSet<(u32, u32)> = seam.iter().map(|&[a, b]| ek(a, b)).collect();
    let face_count = mesh.face_vertex_counts.len();
    let off = face_offsets(mesh);
    let mut edge_faces: HashMap<(u32, u32), Vec<usize>> = HashMap::new();
    for f in 0..face_count {
        let n = mesh.face_vertex_counts[f] as usize;
        for k in 0..n {
            let a = mesh.face_vertex_indices[off[f] + k];
            let b = mesh.face_vertex_indices[off[f] + (k + 1) % n];
            edge_faces.entry(ek(a, b)).or_default().push(f);
        }
    }
    let mut parent: Vec<usize> = (0..face_count).collect();
    for (key, faces) in &edge_faces {
        if faces.len() == 2 && !seam_set.contains(key) {
            uf_union(&mut parent, faces[0], faces[1]);
        }
    }
    let mut map: HashMap<(u32, usize), u32> = HashMap::new();
    let mut indices = vec![0u32; off[face_count]];
    let mut values: Vec<[f32; 3]> = Vec::new();
    for f in 0..face_count {
        let island = uf_find(&mut parent, f);
        let n = mesh.face_vertex_counts[f] as usize;
        for k in 0..n {
            let v = mesh.face_vertex_indices[off[f] + k];
            let id = *map.entry((v, island)).or_insert_with(|| {
                let id = values.len() as u32;
                values.push(positions[v as usize]);
                id
            });
            indices[off[f] + k] = id;
        }
    }
    let value_count = values.len() as u32;
    (FaceVaryingChannel { indices, value_count }, values)
}

fn apply_fvar(tables: &[StencilTable<F>], uvs: &[[f32; 2]]) -> Vec<[f32; 2]> {
    tables.iter().fold(uvs.to_vec(), |d, t| t.interpolate(&d))
}

fn approx(a: [f32; 2], b: [f32; 2]) {
    assert!(
        (a[0] - b[0]).abs() < 1e-5 && (a[1] - b[1]).abs() < 1e-5,
        "{a:?} != {b:?}",
    );
}

#[test]
fn tests_fvar_linear_triangle_level1() {
    let topo = triangle_topology();
    let fvar = FaceVaryingChannel {
        indices: vec![0, 1, 2],
        value_count: 3,
    };
    let uvs = vec![[0.0, 0.0], [3.0, 0.0], [0.0, 3.0]];
    let refiner = Refiner::new(topo, Scheme::Sqrt3, SchemeOptions::default()).unwrap();
    let tables = refiner
        .face_varying_stencils(
            &UniformRefine::from(1),
            &fvar,
            FaceVaryingInterpolation::Linear,
        )
        .unwrap();
    let out = apply_fvar(&tables, &uvs);
    assert_eq!(out.len(), 9);
    approx(out[0], [1.0, 1.0]);
    approx(out[1], [0.0, 0.0]);
    approx(out[2], [3.0, 0.0]);
    approx(out[3], [1.0, 1.0]);
    approx(out[4], [3.0, 0.0]);
    approx(out[5], [0.0, 3.0]);
}

#[test]
fn tests_fvar_linear_preserves_seam() {
    let topo = Mesh {
        vertex_count: 4,
        face_vertex_counts: vec![3, 3],
        face_vertex_indices: vec![0, 1, 2, 1, 3, 2],
        edge_vertices: vec![[0, 1], [1, 2], [2, 0], [1, 3], [3, 2]],
        edge_creases: vec![F(0.0); 5],
        vertex_corners: vec![F(0.0); 4],
    };
    let fvar = FaceVaryingChannel {
        indices: vec![0, 1, 2, 3, 4, 5],
        value_count: 6,
    };
    let uvs = vec![
        [0.0, 0.0],
        [1.0, 0.0],
        [0.0, 1.0],
        [10.0, 0.0],
        [11.0, 0.0],
        [10.0, 1.0],
    ];
    let refiner = Refiner::new(topo, Scheme::Sqrt3, SchemeOptions::default()).unwrap();
    let tables = refiner
        .face_varying_stencils(
            &UniformRefine::from(1),
            &fvar,
            FaceVaryingInterpolation::Linear,
        )
        .unwrap();
    let out = apply_fvar(&tables, &uvs);
    for uv in &out {
        assert!(
            uv[0] <= 1.0001 || uv[0] >= 9.9999,
            "cross-seam mixing produced {uv:?}",
        );
    }
}

fn triangle_topology() -> Mesh<F> {
    Mesh {
        vertex_count: 3,
        face_vertex_counts: vec![3],
        face_vertex_indices: vec![0, 1, 2],
        edge_vertices: vec![[0, 1], [1, 2], [2, 0]],
        edge_creases: vec![F(0.0); 3],
        vertex_corners: vec![F(0.0); 3],
    }
}

fn tetrahedron_topology() -> Mesh<F> {
    Mesh {
        vertex_count: 4,
        face_vertex_counts: vec![3, 3, 3, 3],
        face_vertex_indices: vec![0, 1, 2, 0, 2, 3, 0, 3, 1, 1, 3, 2],
        edge_vertices: vec![[0, 1], [0, 2], [0, 3], [1, 2], [1, 3], [2, 3]],
        edge_creases: vec![F(0.0); 6],
        vertex_corners: vec![F(0.0); 4],
    }
}

fn tetrahedron_positions() -> Vec<[f32; 3]> {
    vec![
        [1.0, 1.0, 1.0],
        [-1.0, -1.0, 1.0],
        [-1.0, 1.0, -1.0],
        [1.0, -1.0, -1.0],
    ]
}

#[test]
fn single_triangle_topology() {
    let topo = triangle_topology();
    let refiner = Refiner::new(topo, Scheme::Sqrt3, SchemeOptions::default()).unwrap();

    let req = UniformRefine::from(1);
    let result = refiner.refine_uniform(&req).unwrap();

    assert_eq!(result.topology.vertex_count, 4);
    assert_eq!(result.topology.face_vertex_counts.len(), 3);
    assert!(result.topology.face_vertex_counts.iter().all(|&n| n == 3));
}

#[test]
fn tetrahedron_level1() {
    let topo = tetrahedron_topology();
    let pos = tetrahedron_positions();
    let refiner = Refiner::new(topo, Scheme::Sqrt3, SchemeOptions::default()).unwrap();

    let req = UniformRefine::from(1);
    let result = refiner.refine_uniform(&req).unwrap();

    assert_eq!(result.topology.vertex_count, 8);

    let refined_pos = result.interpolate(&pos);
    assert_eq!(refined_pos.len(), 8);

    refined_pos.iter().for_each(|p| {
        assert!(p.iter().all(|c| c.is_finite()));
    });
}

#[test]
fn tetrahedron_level2() {
    let topo = tetrahedron_topology();
    let pos = tetrahedron_positions();
    let refiner = Refiner::new(topo, Scheme::Sqrt3, SchemeOptions::default()).unwrap();

    let req = UniformRefine::from(2);
    let result = refiner.refine_uniform(&req).unwrap();

    let refined_pos = result.interpolate(&pos);
    assert_eq!(refined_pos.len(), result.topology.vertex_count as usize);

    refined_pos.iter().for_each(|p| {
        assert!(p.iter().all(|c| c.is_finite()));
    });
}

#[test]
fn tests_interpolate_f64_positions() {
    let topo = tetrahedron_topology();
    let pos: Vec<[f64; 3]> = vec![
        [1.0, 1.0, 1.0],
        [-1.0, -1.0, 1.0],
        [-1.0, 1.0, -1.0],
        [1.0, -1.0, -1.0],
    ];

    let refiner = Refiner::new(topo, Scheme::Sqrt3, SchemeOptions::default()).unwrap();
    let req = UniformRefine::from(1);
    let result = refiner.refine_uniform(&req).unwrap();
    let refined = result.interpolate(&pos);

    assert_eq!(refined.len(), result.topology.vertex_count as usize);
    refined.iter().for_each(|p| {
        assert!(p.iter().all(|c| c.is_finite() && c.abs() < 2.0));
    });
}

#[test]
fn sqrt3_fvar_boundaries_no_seam_matches_positional() {
    let topo = tetrahedron_topology();
    let positions: Vec<[f32; 3]> = vec![
        [0.0, 0.0, 0.0],
        [1.0, 0.0, 0.0],
        [0.0, 1.0, 0.0],
        [0.0, 0.0, 1.0],
    ];
    let channel = FaceVaryingChannel {
        indices: topo.face_vertex_indices.clone(),
        value_count: topo.vertex_count,
    };
    let refiner = Refiner::new(topo, Scheme::Sqrt3, SchemeOptions::default()).unwrap();
    let req = UniformRefine::from(1);
    let result = refiner.refine_uniform(&req).unwrap();
    let refined_pos = result.interpolate(&positions);
    let tables = refiner
        .face_varying_stencils(
            &req,
            &channel,
            FaceVaryingInterpolation::SmoothWithLinearBoundaries,
        )
        .unwrap();
    let fvar_out = tables
        .iter()
        .fold(positions.clone(), |d, t| t.interpolate(&d));
    for (c, &v) in result.topology.face_vertex_indices.iter().enumerate() {
        let a = fvar_out[c];
        let b = refined_pos[v as usize];
        assert!(
            (a[0] - b[0]).abs() < 1e-5 && (a[1] - b[1]).abs() < 1e-5 && (a[2] - b[2]).abs() < 1e-5,
            "corner {c} (vertex {v}): fvar {a:?} != positional {b:?}",
        );
    }
}

fn octahedron_topology() -> Mesh<F> {
    Mesh {
        vertex_count: 6,
        face_vertex_counts: vec![3; 8],
        face_vertex_indices: vec![
            0, 1, 2, 0, 2, 3, 0, 3, 4, 0, 4, 1,
            5, 2, 1, 5, 3, 2, 5, 4, 3, 5, 1, 4,
        ],
        edge_vertices: vec![
            [0, 1],
            [0, 2],
            [0, 3],
            [0, 4],
            [1, 2],
            [2, 3],
            [3, 4],
            [4, 1],
            [5, 1],
            [5, 2],
            [5, 3],
            [5, 4],
        ],
        edge_creases: vec![F(0.0); 12],
        vertex_corners: vec![F(0.0); 6],
    }
}

fn octahedron_positions() -> Vec<[f32; 3]> {
    vec![
        [0.0, 0.0, 1.0],
        [1.0, 0.0, 0.0],
        [0.0, 1.0, 0.0],
        [-1.0, 0.0, 0.0],
        [0.0, -1.0, 0.0],
        [0.0, 0.0, -1.0],
    ]
}

fn close3(a: [f32; 3], b: [f32; 3]) -> bool {
    (a[0] - b[0]).abs() < 1e-5 && (a[1] - b[1]).abs() < 1e-5 && (a[2] - b[2]).abs() < 1e-5
}

fn assert_no_seam_matches_positional(mode: FaceVaryingInterpolation) {
    let topo = tetrahedron_topology();
    let positions: Vec<[f32; 3]> = vec![
        [0.0, 0.0, 0.0],
        [1.0, 0.0, 0.0],
        [0.0, 1.0, 0.0],
        [0.0, 0.0, 1.0],
    ];
    let channel = FaceVaryingChannel {
        indices: topo.face_vertex_indices.clone(),
        value_count: topo.vertex_count,
    };
    let refiner = Refiner::new(topo, Scheme::Sqrt3, SchemeOptions::default()).unwrap();
    let req = UniformRefine::from(1);
    let result = refiner.refine_uniform(&req).unwrap();
    let refined_pos = result.interpolate(&positions);
    let tables = refiner.face_varying_stencils(&req, &channel, mode).unwrap();
    let fvar_out = tables
        .iter()
        .fold(positions.clone(), |d, t| t.interpolate(&d));
    for (c, &v) in result.topology.face_vertex_indices.iter().enumerate() {
        assert!(
            close3(fvar_out[c], refined_pos[v as usize]),
            "{mode:?} corner {c} (vertex {v}): fvar {:?} != positional {:?}",
            fvar_out[c],
            refined_pos[v as usize],
        );
    }
}

fn assert_smooth_crease_matches_creased_positional(mode: FaceVaryingInterpolation) {
    let topo = octahedron_topology();
    let positions = octahedron_positions();
    let seam = [[1u32, 2], [2, 3], [3, 4], [4, 1]];
    let mut creased = topo.clone();
    creased.edge_creases = creases_for(&topo, &seam);
    let refiner = Refiner::new(creased, Scheme::Sqrt3, SchemeOptions::default()).unwrap();
    let req = UniformRefine::from(1);
    let result = refiner.refine_uniform(&req).unwrap();
    let refined_pos = result.interpolate(&positions);
    let (channel, values) = seamed_position_channel(&topo, &seam, &positions);
    let tables = refiner.face_varying_stencils(&req, &channel, mode).unwrap();
    let fvar_out = tables.iter().fold(values, |d, t| t.interpolate(&d));
    for (c, &v) in result.topology.face_vertex_indices.iter().enumerate() {
        assert!(
            close3(fvar_out[c], refined_pos[v as usize]),
            "{mode:?} corner {c} (vertex {v}): fvar {:?} != creased-positional {:?}",
            fvar_out[c],
            refined_pos[v as usize],
        );
    }
}

#[test]
fn sqrt3_fvar_smooth_no_seam_matches_positional() {
    assert_no_seam_matches_positional(FaceVaryingInterpolation::Smooth);
}

#[test]
fn sqrt3_fvar_corners_only_no_seam_matches_positional() {
    assert_no_seam_matches_positional(FaceVaryingInterpolation::SmoothWithLinearCorners);
}

#[test]
fn sqrt3_fvar_smooth_crease_matches_creased_positional() {
    assert_smooth_crease_matches_creased_positional(FaceVaryingInterpolation::Smooth);
}

#[test]
fn tests_fvar_corners_only_crease_matches_creased_positional() {
    assert_smooth_crease_matches_creased_positional(
        FaceVaryingInterpolation::SmoothWithLinearCorners,
    );
}

#[test]
fn tests_fvar_smooth_preserves_seam() {
    let topo = Mesh {
        vertex_count: 4,
        face_vertex_counts: vec![3, 3],
        face_vertex_indices: vec![0, 1, 2, 1, 3, 2],
        edge_vertices: vec![[0, 1], [1, 2], [2, 0], [1, 3], [3, 2]],
        edge_creases: vec![F(0.0); 5],
        vertex_corners: vec![F(0.0); 4],
    };
    let fvar = FaceVaryingChannel {
        indices: vec![0, 1, 2, 3, 4, 5],
        value_count: 6,
    };
    let uvs = vec![
        [0.0, 0.0],
        [1.0, 0.0],
        [0.0, 1.0],
        [10.0, 0.0],
        [11.0, 0.0],
        [10.0, 1.0],
    ];
    let refiner = Refiner::new(topo, Scheme::Sqrt3, SchemeOptions::default()).unwrap();
    let tables = refiner
        .face_varying_stencils(
            &UniformRefine::from(1),
            &fvar,
            FaceVaryingInterpolation::Smooth,
        )
        .unwrap();
    let out = apply_fvar(&tables, &uvs);
    for uv in &out {
        assert!(
            uv[0] <= 1.0001 || uv[0] >= 9.9999,
            "cross-seam mixing produced {uv:?}"
        );
    }
}
