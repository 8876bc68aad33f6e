//! Laws of the tables on small cases.

use subdiv_kernels::{
    AffectedScratch, CsrVec, FaceVaryingChannel, FaceVaryingInterpolation, InverseStencilChain, InverseStencilMap,
    Mesh, Refiner, Scalar, Scheme, SchemeOptions, StencilTable, UniformRefine, VertexOrigin,
};

/// Single-precision weights.
#[derive(Debug, Clone, Copy, PartialEq, PartialOrd)]
struct F(f32);

impl Scalar for F {
    fn ratio_of(num: u32, den: u32) -> F {
        F::ratio(num, den)
    }
    fn plus_of(a: F, b: F) -> F {
        a.plus(b)
    }
    fn minus_of(a: F, b: F) -> F {
        a.minus(b)
    }
    fn times_of(a: F, b: F) -> F {
        a.times(b)
    }
    fn over_of(a: F, b: F) -> F {
        a.over(b)
    }
    fn larger_of(a: F, b: F) -> F {
        a.larger(b)
    }
    fn less_of(a: F, b: F) -> bool {
        a.less(b)
    }
    fn at_most_of(a: F, b: F) -> bool {
        a.at_most(b)
    }
    fn finite_of(a: F) -> bool {
        a.is_finite()
    }
    fn cos_turn_of(num: u64, den: u64) -> F {
        F::cos_turn(num, den)
    }
    fn sin_turn_of(num: u64, den: u64) -> F {
        F::sin_turn(num, den)
    }
    fn sqrt_of(a: F) -> F {
        a.sqrt()
    }
    fn negated_of(a: F) -> F {
        a.negated()
    }
    fn ratio(num: u32, den: u32) -> F {
        F(num as f32 / den as f32)
    }
    fn cos_turn(num: u64, den: u64) -> F {
        F((std::f32::consts::TAU * num as f32 / den as f32).cos())
    }
    fn sin_turn(num: u64, den: u64) -> F {
        F((std::f32::consts::TAU * num as f32 / den as f32).sin())
    }
    fn sqrt(self) -> F {
        F(self.0.sqrt())
    }
    fn negated(self) -> F {
        F(-self.0)
    }
    fn plus(self, other: F) -> F {
        F(self.0 + other.0)
    }
    fn minus(self, other: F) -> F {
        F(self.0 - other.0)
    }
    fn times(self, other: F) -> F {
        F(self.0 * other.0)
    }
    fn over(self, other: F) -> F {
        F(self.0 / other.0)
    }
    fn larger(self, other: F) -> F {
        F(self.0.max(other.0))
    }
    fn less(self, other: F) -> bool {
        self.0 < other.0
    }
    fn at_most(self, other: F) -> bool {
        self.0 <= other.0
    }
    fn is_finite(self) -> bool {
        self.0.is_finite()
    }
}


const SCHEMES: [Scheme; 4] = [Scheme::CatmullClark, Scheme::Loop, Scheme::Sqrt3, Scheme::DooSabin];

/// A tetrahedron.
fn tetrahedron() -> Mesh<F> {
    Mesh {
        vertex_count: 4,
        face_vertex_counts: vec![3; 4],
        face_vertex_indices: vec![0, 1, 2, 0, 2, 3, 0, 3, 1, 1, 3, 2],
        edge_vertices: vec![[0, 1], [0, 2], [0, 3], [1, 2], [1, 3], [2, 3]],
        edge_creases: vec![F(0.0); 6],
        vertex_corners: vec![F(0.0); 4],
    }
}

fn points() -> Vec<[F; 3]> {
    vec![
        [F(1.0), F(1.0), F(1.0)],
        [F(-1.0), F(-1.0), F(1.0)],
        [F(-1.0), F(1.0), F(-1.0)],
        [F(1.0), F(-1.0), F(-1.0)],
    ]
}

#[test]
fn rows_of_lists() {
    let rows = vec![vec![3usize, 1], vec![], vec![2]];
    let list = CsrVec::from_jagged(&rows);
    assert_eq!(list.len(), 3);
    assert_eq!(list.row(0), &[3, 1]);
    assert!(list.row(1).is_empty());
    assert_eq!(list.get(2, 0), 2);
    assert_eq!(list.row_len(0), 2);
    assert_eq!(list.flat_values(), &[3, 1, 2]);
    assert_eq!(list, CsrVec::from_jagged_u32(&[vec![3, 1], vec![], vec![2]]));
    assert_eq!(list.clone().into_parts(), (vec![0, 2, 2, 3], vec![3, 1, 2]));
    assert_eq!(CsrVec::from_parts(vec![0, 2, 2, 3], vec![3, 1, 2]), list);
}

#[test]
fn refined_faces_know_their_parents_and_roots() {
    for scheme in SCHEMES {
        let refiner = Refiner::new(tetrahedron(), scheme, SchemeOptions::default()).unwrap();
        let req = UniformRefine::from(2);
        let refinement = refiner.refine_topology(&req).unwrap();
        assert_eq!(refinement.refinement_steps(), 2);
        assert_eq!(refinement.vertex_stencils().len(), 2);
        assert!(refinement.level_lineage(2).is_none());
        let result = refiner.refine_uniform(&req).unwrap();
        assert_eq!(result.lineage.face_parent.len(), result.topology.face_vertex_counts.len());
        assert_eq!(result.lineage.vertex_origin.len(), result.topology.vertex_count as usize);
        assert!(result.face_root.iter().all(|&r| r < 4));
        assert_eq!(refinement.final_topology(), &result.topology);
        assert_eq!(refinement.lineage(), &result.lineage);
        assert_eq!(refinement.adjacency(), &result.adjacency);
        assert_eq!(refinement.selected_faces().map(|s| s.to_vec()), result.selected_faces);
        let parts = refinement.into_final_parts();
        assert_eq!(parts.topology, result.topology);
    }
}

#[test]
fn composed_stencils_give_the_same_points() {
    for scheme in SCHEMES {
        let refiner = Refiner::new(tetrahedron(), scheme, SchemeOptions::default()).unwrap();
        let result = refiner.refine_uniform(&UniformRefine::from(2)).unwrap();
        let steps = result.interpolate(&points());
        let direct = result.compose_stencils(4).interpolate(&points());
        assert_eq!(steps.len(), result.topology.vertex_count as usize);
        for (a, b) in steps.iter().zip(&direct) {
            for c in 0..3 {
                assert!((a[c].0 - b[c].0).abs() < 1e-5);
            }
        }
    }
}

#[test]
fn composition_is_exact_for_dyadic_weights() {
    let mesh = Mesh {
        vertex_count: 9,
        face_vertex_counts: vec![4; 4],
        face_vertex_indices: vec![0, 3, 4, 1, 1, 4, 5, 2, 3, 6, 7, 4, 4, 7, 8, 5],
        edge_vertices: Vec::new(),
        edge_creases: Vec::new(),
        vertex_corners: vec![F(0.0); 9],
    };
    let refiner = Refiner::new(mesh, Scheme::CatmullClark, SchemeOptions::default()).unwrap();
    let result = refiner.refine_uniform(&UniformRefine::from(2)).unwrap();
    let values: Vec<F> = (0..9).map(|v| F((v * v) as f32)).collect();
    let composed = result.compose_stencils(9);
    assert_eq!(composed.interpolate(&values), result.interpolate(&values));
    for row in 0..composed.output_count() {
        let (start, end) = (composed.offsets[row] as usize, composed.offsets[row + 1] as usize);
        let total: f32 = composed.weights[start..end].iter().map(|w| w.0).sum();
        assert_eq!(total, 1.0);
    }
}

#[test]
fn outputs_that_are_not_reached_keep_their_values() {
    let refiner = Refiner::new(tetrahedron(), Scheme::Loop, SchemeOptions::default()).unwrap();
    let result = refiner.refine_uniform(&UniformRefine::from(2)).unwrap();
    let before = result.interpolate(&points());
    let mut moved = points();
    moved[2] = [F(5.0), F(6.0), F(7.0)];
    let after = result.interpolate(&moved);
    let affected = result.affected_outputs(&[2]);
    assert!(affected.windows(2).all(|w| w[0] < w[1]));
    for v in 0..before.len() {
        if !affected.contains(&(v as u32)) {
            assert_eq!(before[v], after[v]);
        }
    }
    let chain = result.inverse_stencil_chain();
    assert_eq!(chain.level_count(), 2);
    assert_eq!(chain.affected_outputs(&[2]), affected);
}

#[test]
fn scratch_space_can_be_used_again() {
    let table = StencilTable {
        offsets: vec![0, 1, 3],
        indices: vec![1, 0, 1],
        weights: vec![F(1.0), F(0.5), F(0.5)],
    };
    let map = InverseStencilMap::from(&table);
    assert_eq!(map.output_count(), 2);
    let chain = InverseStencilChain::from(&[table.clone(), StencilTable::identity(2)]);
    let mut scratch = AffectedScratch::default();
    let mut out = vec![7];
    for (changed, wanted) in [(vec![0u32], vec![1u32]), (vec![1], vec![0, 1]), (vec![9], vec![]), (vec![0], vec![1])] {
        chain.affected_outputs_into(&changed, &mut scratch, &mut out);
        assert_eq!(out, wanted);
    }
}

#[test]
fn polylines_follow_the_edges() {
    for (scheme, length) in [(Scheme::CatmullClark, 5), (Scheme::Loop, 5)] {
        let refiner = Refiner::new(tetrahedron(), scheme, SchemeOptions::default()).unwrap();
        let req = UniformRefine { levels: 2, edge_polylines: true, ..Default::default() };
        let result = refiner.refine_uniform(&req).unwrap();
        let lines = result.edge_polylines.clone().unwrap();
        assert_eq!(lines.len(), 6);
        assert!(lines.iter().all(|l| l.len() == length));
        let refinement = refiner.refine_topology(&req).unwrap();
        assert_eq!(refinement.edge_polylines(), Some(&lines));
    }
    let refiner = Refiner::new(tetrahedron(), Scheme::Loop, SchemeOptions::default()).unwrap();
    assert!(refiner.refine_uniform(&UniformRefine::from(1)).unwrap().edge_polylines.is_none());
}

#[test]
fn polylines_do_not_depend_on_the_order_of_the_edges() {
    let mut mesh = tetrahedron();
    mesh.edge_vertices = vec![[2, 3]];
    mesh.edge_creases = vec![F(0.0)];
    for scheme in [Scheme::CatmullClark, Scheme::Loop] {
        let refiner = Refiner::new(mesh.clone(), scheme, SchemeOptions::default()).unwrap();
        let req = UniformRefine { levels: 1, edge_polylines: true, ..Default::default() };
        let result = refiner.refine_uniform(&req).unwrap();
        let lines = result.edge_polylines.unwrap();
        let origins: Vec<VertexOrigin> =
            lines[0].iter().map(|v| result.lineage.vertex_origin[*v as usize]).collect();
        assert_eq!(origins.len(), 3);
        assert_eq!((origins[0], origins[2]), (VertexOrigin::Vertex(2), VertexOrigin::Vertex(3)));
        let table = &result.level_stencils[0];
        let middle = lines[0][1] as usize;
        let (start, end) = (table.offsets[middle] as usize, table.offsets[middle + 1] as usize);
        let weight = |v: u32| (start..end).find(|&k| table.indices[k] == v).map(|k| table.weights[k].0).unwrap();
        assert!(weight(2) > weight(0) && weight(3) > weight(0));
    }
}

#[test]
fn only_selected_faces_are_split() {
    let refiner = Refiner::new(tetrahedron(), Scheme::Loop, SchemeOptions::default()).unwrap();
    let req = UniformRefine { selected_faces: Some(vec![true, false, false, false]), ..Default::default() };
    let result = refiner.refine_uniform(&req).unwrap();
    assert_eq!(result.topology.face_vertex_counts.len(), 4 + 3);
    let selected = result.selected_faces.unwrap();
    for (f, parent) in result.lineage.face_parent.iter().enumerate() {
        assert_eq!(selected[f], *parent == 0);
    }
}

#[test]
fn linear_channels_interpolate_within_faces() {
    for scheme in SCHEMES {
        let refiner = Refiner::new(tetrahedron(), scheme, SchemeOptions::default()).unwrap();
        let channel = FaceVaryingChannel { indices: (0..12).collect(), value_count: 12 };
        let req = UniformRefine::from(1);
        let tables = refiner.face_varying_stencils(&req, &channel, FaceVaryingInterpolation::Linear).unwrap();
        let same = refiner
            .refine_topology(&req)
            .unwrap()
            .face_varying_stencils(&channel, FaceVaryingInterpolation::Linear)
            .unwrap();
        assert_eq!(tables, same);
        let values: Vec<F> = (0..12).map(|c| F((c / 3) as f32)).collect();
        let out = tables[0].interpolate(&values);
        let result = refiner.refine_uniform(&req).unwrap();
        assert_eq!(out.len(), result.topology.face_vertex_indices.len());
        if scheme == Scheme::CatmullClark || scheme == Scheme::Loop {
            let mut at = 0;
            for (f, n) in result.topology.face_vertex_counts.iter().enumerate() {
                for _ in 0..*n {
                    assert!((out[at].0 - result.lineage.face_parent[f] as f32).abs() < 1e-5);
                    at += 1;
                }
            }
        }
    }
}

#[test]
fn refiners_hand_back_what_they_were_given() {
    let refiner = Refiner::new(tetrahedron(), Scheme::Sqrt3, SchemeOptions::default()).unwrap();
    assert_eq!(refiner.topology(), &tetrahedron());
    assert_eq!(refiner.scheme(), Scheme::Sqrt3);
    assert_eq!(refiner.options(), &SchemeOptions::default());
    let refinement = refiner.refine_topology(&UniformRefine::from(1)).unwrap();
    assert_eq!(refinement.scheme(), Scheme::Sqrt3);
}

#[test]
fn adjacency_lists_neighbours() {
    let refiner = Refiner::new(tetrahedron(), Scheme::Loop, SchemeOptions::default()).unwrap();
    let result = refiner.refine_uniform(&UniformRefine::from(1)).unwrap();
    let adjacency = &result.adjacency;
    assert!(adjacency.edge_is_boundary.iter().all(|b| !b));
    assert!(adjacency.edge_faces.iter().all(|f| f[0] != u32::MAX && f[1] != u32::MAX));
    assert_eq!(adjacency.edge_faces.len(), result.topology.edge_vertices.len());
    for (v, origin) in result.lineage.vertex_origin.iter().enumerate() {
        let count = adjacency.vertex_faces[adjacency.vertex_face_offsets[v] as usize
            ..adjacency.vertex_face_offsets[v + 1] as usize]
            .len();
        let wanted = if matches!(origin, VertexOrigin::Vertex(_)) { 3 } else { 6 };
        assert_eq!(count, wanted);
    }
}

#[test]
fn selections_are_reported_only_if_asked_for() {
    for scheme in SCHEMES {
        let refiner = Refiner::new(tetrahedron(), scheme, SchemeOptions::default()).unwrap();
        for (mask, levels) in [(None, 1), (Some(vec![true; 4]), 1), (Some(vec![true; 4]), 0)] {
            let wanted = mask.is_some() && levels > 0;
            let req = UniformRefine { levels, selected_faces: mask, ..Default::default() };
            let result = refiner.refine_uniform(&req).unwrap();
            assert_eq!(result.selected_faces.is_some(), wanted);
            let refinement = refiner.refine_topology(&req).unwrap();
            assert_eq!(refinement.selected_faces().is_some(), wanted);
            assert_eq!(refinement.into_final_parts().selected_faces.is_some(), wanted);
        }
    }
}

#[test]
fn creases_last_over_several_levels_of_sqrt3() {
    let mesh = Mesh {
        vertex_count: 4,
        face_vertex_counts: vec![3, 3],
        face_vertex_indices: vec![0, 1, 2, 0, 2, 3],
        edge_vertices: vec![[0, 2]],
        edge_creases: vec![F(10.0)],
        vertex_corners: vec![F(0.0); 4],
    };
    let refiner = Refiner::new(mesh.clone(), Scheme::Sqrt3, SchemeOptions::default()).unwrap();
    let once = refiner.refine_uniform(&UniformRefine::from(1)).unwrap().topology;
    let at = once.edge_vertices.iter().position(|e| *e == [2, 4]).unwrap();
    assert_eq!(once.edge_creases[at], F(9.0));
    let faces = once.face_vertex_counts.len() as u32;
    let twice = refiner.refine_uniform(&UniformRefine::from(2)).unwrap().topology;
    let at = twice.edge_vertices.iter().position(|e| *e == [faces + 2, faces + 4]).unwrap();
    assert_eq!(twice.edge_creases[at], F(8.0));
    let soft = Mesh { edge_creases: vec![F(0.0)], ..mesh };
    let refiner = Refiner::new(soft, Scheme::Sqrt3, SchemeOptions::default()).unwrap();
    let once = refiner.refine_uniform(&UniformRefine::from(1)).unwrap().topology;
    assert!(!once.edge_vertices.contains(&[2, 4]));
}

#[test]
fn creases_of_doo_sabin_are_handed_down_once() {
    let mesh = Mesh {
        vertex_count: 6,
        face_vertex_counts: vec![4, 4],
        face_vertex_indices: vec![0, 1, 4, 3, 1, 2, 5, 4],
        edge_vertices: vec![[1, 4]],
        edge_creases: vec![F(3.0)],
        vertex_corners: vec![F(0.0); 6],
    };
    let refiner = Refiner::new(mesh, Scheme::DooSabin, SchemeOptions::default()).unwrap();
    let once = refiner.refine_uniform(&UniformRefine::from(1)).unwrap();
    let sharp: Vec<F> = once.topology.edge_creases.iter().copied().filter(|c| c.0 > 0.0).collect();
    assert_eq!(sharp, vec![F(2.0); 2]);
    let twice = refiner.refine_uniform(&UniformRefine::from(2)).unwrap();
    assert!(twice.topology.edge_creases.iter().all(|c| *c == F(0.0)));
}

#[test]
fn identity_tables_change_nothing() {
    let table = StencilTable {
        offsets: vec![0, 1, 3],
        indices: vec![1, 0, 2],
        weights: vec![F(1.0), F(0.25), F(0.75)],
    };
    assert_eq!(StencilTable::identity(3).compose(&table), table);
    assert_eq!(table.compose(&StencilTable::identity(2)), table);
    let values = vec![F(3.0), F(5.0), F(7.0)];
    assert_eq!(StencilTable::identity(3).interpolate(&values), values);
    let twice = StencilTable { offsets: vec![0, 2], indices: vec![0, 1], weights: vec![F(0.5), F(0.5)] };
    let both = StencilTable { offsets: vec![0, 1, 2], indices: vec![4, 4], weights: vec![F(1.0), F(1.0)] };
    let composed = both.compose(&twice);
    assert_eq!((composed.indices, composed.weights), (vec![4], vec![F(1.0)]));
}

#[test]
fn inverses_depend_on_the_pattern_only() {
    let pattern = |w: f32| StencilTable { offsets: vec![0, 2, 3], indices: vec![2, 0, 1], weights: vec![F(w); 3] };
    let a = InverseStencilMap::from(&pattern(0.5));
    let b = InverseStencilMap::from(&pattern(-7.0));
    for changed in [vec![], vec![0], vec![1, 1], vec![2, 1], vec![9]] {
        assert_eq!(a.affected_outputs(&changed), b.affected_outputs(&changed));
    }
    assert_eq!(a.affected_outputs(&[2, 1]), vec![0, 1]);
    let next = StencilTable { offsets: vec![0, 1, 2], indices: vec![1, 0], weights: vec![F(1.0); 2] };
    let whole = InverseStencilMap::from(&pattern(0.5).compose(&next));
    let chain = InverseStencilChain::from(&[pattern(0.5), next]);
    for changed in [vec![0], vec![1], vec![2], vec![0, 1]] {
        assert_eq!(whole.affected_outputs(&changed), chain.affected_outputs(&changed));
    }
}

#[test]
fn results_hold_together() {
    for scheme in SCHEMES {
        for levels in 0..3 {
            let refiner = Refiner::new(tetrahedron(), scheme, SchemeOptions::default()).unwrap();
            let result = refiner.refine_uniform(&UniformRefine::from(levels)).unwrap();
            result.topology.validate().unwrap();
            let mut inputs = 4;
            for table in &result.level_stencils {
                assert!(table.indices.iter().all(|i| (*i as usize) < inputs));
                inputs = table.output_count();
            }
            assert_eq!(inputs, result.topology.vertex_count as usize);
            assert_eq!(result.face_root.len(), result.topology.face_vertex_counts.len());
            if levels > 0 {
                assert_eq!(result.lineage.edge_parent.len(), result.topology.edge_vertices.len());
            }
        }
    }
}

#[test]
fn values_of_later_levels_stay_in_their_face() {
    for scheme in [Scheme::CatmullClark, Scheme::Loop] {
        let refiner = Refiner::new(tetrahedron(), scheme, SchemeOptions::default()).unwrap();
        let channel = FaceVaryingChannel { indices: tetrahedron().face_vertex_indices, value_count: 4 };
        let tables = refiner
            .face_varying_stencils(&UniformRefine::from(2), &channel, FaceVaryingInterpolation::Smooth)
            .unwrap();
        let once = refiner.refine_uniform(&UniformRefine::from(1)).unwrap().topology;
        let corners = once.face_vertex_counts[0];
        assert!(once.face_vertex_counts.iter().all(|n| *n == corners));
        let table = &tables[1];
        for row in 0..table.output_count() {
            let (start, end) = (table.offsets[row] as usize, table.offsets[row + 1] as usize);
            let home = table.indices[start] / corners;
            assert!(table.indices[start..end].iter().all(|i| *i / corners == home));
        }
    }
}

#[test]
fn full_refinements_have_all_edges() {
    let options = SchemeOptions::default();
    let req = UniformRefine::from(1);
    let quads = Refiner::new(tetrahedron(), Scheme::CatmullClark, options).unwrap().refine_uniform(&req).unwrap();
    assert_eq!(quads.topology.edge_vertices.len(), 2 * 6 + 12);
    let triangles = Refiner::new(tetrahedron(), Scheme::Loop, options).unwrap().refine_uniform(&req).unwrap();
    assert_eq!(triangles.topology.edge_vertices.len(), 2 * 6 + 3 * 4);
    assert!(Refiner::new(quads.topology, Scheme::CatmullClark, options).unwrap().refine_uniform(&req).is_ok());
    assert!(Refiner::new(triangles.topology, Scheme::Loop, options).unwrap().refine_uniform(&req).is_ok());
}

#[test]
fn channels_have_a_row_for_each_corner_of_each_level() {
    let modes = [
        FaceVaryingInterpolation::Linear,
        FaceVaryingInterpolation::SmoothWithLinearCorners,
        FaceVaryingInterpolation::SmoothWithLinearBoundaries,
        FaceVaryingInterpolation::Smooth,
    ];
    for scheme in SCHEMES {
        let refiner = Refiner::new(tetrahedron(), scheme, SchemeOptions::default()).unwrap();
        let channel = FaceVaryingChannel { indices: (0..12).collect(), value_count: 12 };
        for mode in modes {
            let tables = refiner.face_varying_stencils(&UniformRefine::from(2), &channel, mode).unwrap();
            assert_eq!(tables.len(), 2);
            for k in 0..2 {
                let level = refiner.refine_uniform(&UniformRefine::from(k as u8 + 1)).unwrap();
                assert_eq!(tables[k].output_count(), level.topology.face_vertex_indices.len());
            }
        }
    }
}

#[test]
fn channels_of_the_vertices_follow_the_vertices() {
    for scheme in SCHEMES {
        let refiner = Refiner::new(tetrahedron(), scheme, SchemeOptions::default()).unwrap();
        let channel = FaceVaryingChannel { indices: tetrahedron().face_vertex_indices, value_count: 4 };
        let req = UniformRefine::from(1);
        let tables = refiner.face_varying_stencils(&req, &channel, FaceVaryingInterpolation::Smooth).unwrap();
        let result = refiner.refine_uniform(&req).unwrap();
        let at_corners = tables[0].interpolate(&points());
        let at_vertices = result.interpolate(&points());
        assert_eq!(at_corners.len(), result.topology.face_vertex_indices.len());
        for (p, &v) in at_corners.iter().zip(&result.topology.face_vertex_indices) {
            for c in 0..3 {
                assert!((p[c].0 - at_vertices[v as usize][c].0).abs() < 1e-5);
            }
        }
    }
}
