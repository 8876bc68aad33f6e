//! Closest points, boxes and steps.

use subdiv_kernels::bounds::Aabb;
use subdiv_kernels::closest_point::{edge_uv, pinned_crossing};
use subdiv_kernels::metric::{cross, difference, dot, length, norm2, opposite, scaled, sum, unit_or_nothing, wedge_angle};
use subdiv_kernels::{
    KernelError, Mesh, Metric, RefinementResult, Refiner, Scalar, Scheme, SchemeOptions, UniformRefine, Wide,
};

/// Single-precision weights.
#[derive(Debug, Clone, Copy, PartialEq, PartialOrd)]
struct F(f32);

impl Scalar for F {
    fn ratio_of(num: u32, den: u32) -> F {
        F::ratio(num, den)
    }
    fn plus_of(a: F, b: F) -> F {
        a.plus(b)
    }
    fn minus_of(a: F, b: F) -> F {
        a.minus(b)
    }
    fn times_of(a: F, b: F) -> F {
        a.times(b)
    }
    fn over_of(a: F, b: F) -> F {
        a.over(b)
    }
    fn larger_of(a: F, b: F) -> F {
        a.larger(b)
    }
    fn less_of(a: F, b: F) -> bool {
        a.less(b)
    }
    fn at_most_of(a: F, b: F) -> bool {
        a.at_most(b)
    }
    fn finite_of(a: F) -> bool {
        a.is_finite()
    }
    fn cos_turn_of(num: u64, den: u64) -> F {
        F::cos_turn(num, den)
    }
    fn sin_turn_of(num: u64, den: u64) -> F {
        F::sin_turn(num, den)
    }
    fn sqrt_of(a: F) -> F {
        a.sqrt()
    }
    fn negated_of(a: F) -> F {
        a.negated()
    }
    fn ratio(num: u32, den: u32) -> F {
        F(num as f32 / den as f32)
    }
    fn cos_turn(num: u64, den: u64) -> F {
        F((std::f32::consts::TAU * num as f32 / den as f32).cos())
    }
    fn sin_turn(num: u64, den: u64) -> F {
        F((std::f32::consts::TAU * num as f32 / den as f32).sin())
    }
    fn sqrt(self) -> F {
        F(self.0.sqrt())
    }
    fn negated(self) -> F {
        F(-self.0)
    }
    fn plus(self, other: F) -> F {
        F(self.0 + other.0)
    }
    fn minus(self, other: F) -> F {
        F(self.0 - other.0)
    }
    fn times(self, other: F) -> F {
        F(self.0 * other.0)
    }
    fn over(self, other: F) -> F {
        F(self.0 / other.0)
    }
    fn larger(self, other: F) -> F {
        F(self.0.max(other.0))
    }
    fn less(self, other: F) -> bool {
        self.0 < other.0
    }
    fn at_most(self, other: F) -> bool {
        self.0 <= other.0
    }
    fn is_finite(self) -> bool {
        self.0.is_finite()
    }
}


impl Metric for F {
    fn infinity_of() -> F {
        F::infinity()
    }
    fn smaller_of(a: F, b: F) -> F {
        a.smaller(b)
    }
    fn arc_cos_of(a: F) -> F {
        a.arc_cos()
    }
    fn order_of(a: F) -> i64 {
        a.order()
    }
    fn tiny_of(exponent: u32) -> F {
        F::tiny(exponent)
    }
    fn infinity() -> F {
        F(f32::INFINITY)
    }
    fn smaller(self, other: F) -> F {
        F(self.0.min(other.0))
    }
    fn arc_cos(self) -> F {
        F(self.0.acos())
    }
    fn order(self) -> i64 {
        let bits = self.0.to_bits() as i32;
        (bits ^ (((bits >> 31) as u32) >> 1) as i32) as i64
    }
    fn tiny(exponent: u32) -> F {
        F(format!("1e-{exponent}").parse().unwrap())
    }
}
/// Double-precision numbers.
#[derive(Debug, Clone, Copy, PartialEq, PartialOrd)]
struct D(f64);

impl Scalar for D {
    fn ratio_of(num: u32, den: u32) -> D {
        D::ratio(num, den)
    }
    fn plus_of(a: D, b: D) -> D {
        a.plus(b)
    }
    fn minus_of(a: D, b: D) -> D {
        a.minus(b)
    }
    fn times_of(a: D, b: D) -> D {
        a.times(b)
    }
    fn over_of(a: D, b: D) -> D {
        a.over(b)
    }
    fn larger_of(a: D, b: D) -> D {
        a.larger(b)
    }
    fn less_of(a: D, b: D) -> bool {
        a.less(b)
    }
    fn at_most_of(a: D, b: D) -> bool {
        a.at_most(b)
    }
    fn finite_of(a: D) -> bool {
        a.is_finite()
    }
    fn cos_turn_of(num: u64, den: u64) -> D {
        D::cos_turn(num, den)
    }
    fn sin_turn_of(num: u64, den: u64) -> D {
        D::sin_turn(num, den)
    }
    fn sqrt_of(a: D) -> D {
        a.sqrt()
    }
    fn negated_of(a: D) -> D {
        a.negated()
    }
    fn ratio(num: u32, den: u32) -> D {
        D(num as f64 / den as f64)
    }
    fn cos_turn(num: u64, den: u64) -> D {
        D((num as f64 * (std::f64::consts::TAU / den as f64)).cos())
    }
    fn sin_turn(num: u64, den: u64) -> D {
        D((num as f64 * (std::f64::consts::TAU / den as f64)).sin())
    }
    fn sqrt(self) -> D {
        D(self.0.sqrt())
    }
    fn negated(self) -> D {
        D(-self.0)
    }
    fn plus(self, other: D) -> D {
        D(self.0 + other.0)
    }
    fn minus(self, other: D) -> D {
        D(self.0 - other.0)
    }
    fn times(self, other: D) -> D {
        D(self.0 * other.0)
    }
    fn over(self, other: D) -> D {
        D(self.0 / other.0)
    }
    fn larger(self, other: D) -> D {
        D(self.0.max(other.0))
    }
    fn less(self, other: D) -> bool {
        self.0 < other.0
    }
    fn at_most(self, other: D) -> bool {
        self.0 <= other.0
    }
    fn is_finite(self) -> bool {
        self.0.is_finite()
    }
}

impl Wide<F> for D {
    fn narrow_of(w: D) -> F {
        w.narrow()
    }
    fn widen_of(s: F) -> D {
        <D as Wide<F>>::widen(s)
    }
    fn narrow(self) -> F {
        F(self.0 as f32)
    }
    fn widen(s: F) -> D {
        D(s.0 as f64)
    }
}

impl Metric for D {
    fn infinity_of() -> D {
        D::infinity()
    }
    fn smaller_of(a: D, b: D) -> D {
        a.smaller(b)
    }
    fn arc_cos_of(a: D) -> D {
        a.arc_cos()
    }
    fn order_of(a: D) -> i64 {
        a.order()
    }
    fn tiny_of(exponent: u32) -> D {
        D::tiny(exponent)
    }
    fn infinity() -> D {
        D(f64::INFINITY)
    }
    fn smaller(self, other: D) -> D {
        D(self.0.min(other.0))
    }
    fn arc_cos(self) -> D {
        D(self.0.acos())
    }
    fn order(self) -> i64 {
        let bits = self.0.to_bits() as i64;
        bits ^ (((bits >> 63) as u64) >> 1) as i64
    }
    fn tiny(exponent: u32) -> D {
        D(format!("1e-{exponent}").parse().unwrap())
    }
}

/// Four quads around a vertex.
fn grid() -> Mesh<F> {
    Mesh {
        vertex_count: 9,
        face_vertex_counts: vec![4; 4],
        face_vertex_indices: vec![0, 3, 4, 1, 1, 4, 5, 2, 3, 6, 7, 4, 4, 7, 8, 5],
        edge_vertices: Vec::new(),
        edge_creases: Vec::new(),
        vertex_corners: vec![F(0.0); 9],
    }
}

fn grid_positions() -> Vec<[F; 3]> {
    (0..9).map(|v| [F((v / 3) as f32), F((v % 3) as f32), F(0.0)]).collect()
}

/// A cube whose faces all turn outwards.
fn cube() -> Mesh<F> {
    Mesh {
        vertex_count: 8,
        face_vertex_counts: vec![4; 6],
        face_vertex_indices: vec![0, 3, 2, 1, 4, 5, 6, 7, 0, 1, 5, 4, 1, 2, 6, 5, 2, 3, 7, 6, 3, 0, 4, 7],
        edge_vertices: Vec::new(),
        edge_creases: Vec::new(),
        vertex_corners: vec![F(0.0); 8],
    }
}

fn cube_positions() -> Vec<[F; 3]> {
    [
        [-1.0, -1.0, -1.0],
        [1.0, -1.0, -1.0],
        [1.0, 1.0, -1.0],
        [-1.0, 1.0, -1.0],
        [-1.0, -1.0, 1.0],
        [1.0, -1.0, 1.0],
        [1.0, 1.0, 1.0],
        [-1.0, 1.0, 1.0],
    ]
    .iter()
    .map(|p: &[f32; 3]| [F(p[0]), F(p[1]), F(p[2])])
    .collect()
}

fn refined(mesh: Mesh<F>, levels: u8) -> RefinementResult<F> {
    Refiner::new(mesh, Scheme::CatmullClark, SchemeOptions::default())
        .unwrap()
        .refine_uniform(&UniformRefine::from(levels))
        .unwrap()
}

fn close(a: f32, b: f32) -> bool {
    (a - b).abs() < 1e-4
}

fn d3(p: [f64; 3]) -> [D; 3] {
    [D(p[0]), D(p[1]), D(p[2])]
}

fn f3(p: [f32; 3]) -> [F; 3] {
    [F(p[0]), F(p[1]), F(p[2])]
}

#[test]
fn aabb_distance_is_zero_inside_and_exact_outside() {
    let mut aabb: Aabb<F> = Aabb::empty();
    aabb.take_in(&f3([0.0, 0.0, 0.0]));
    aabb.take_in(&f3([2.0, 1.0, 3.0]));
    assert_eq!(aabb.distance2(&d3([1.0, 0.5, 1.5])), D(0.0));
    assert_eq!(aabb.distance2(&d3([3.0, 0.5, 1.5])), D(1.0));
    assert_eq!(aabb.distance2(&d3([-1.0, -1.0, 4.0])), D(3.0));
}

#[test]
fn edge_parameterizations_traverse_csr_corners() {
    assert_eq!(edge_uv(0, D(0.0)), (D(0.0), D(0.0)));
    assert_eq!(edge_uv(0, D(1.0)), (D(1.0), D(0.0)));
    assert_eq!(edge_uv(1, D(0.25)), (D(1.0), D(0.25)));
    assert_eq!(edge_uv(2, D(0.25)), (D(0.75), D(1.0)));
    assert_eq!(edge_uv(3, D(0.25)), (D(0.0), D(0.75)));
}

#[test]
fn pinned_crossing_requires_clamp_and_overshoot() {
    assert_eq!(pinned_crossing(D(0.0), D(-0.5)), Some(false));
    assert_eq!(pinned_crossing(D(1.0), D(1.5)), Some(true));
    assert_eq!(pinned_crossing(D(0.0), D(0.0)), None);
    assert_eq!(pinned_crossing(D(0.5), D(0.5)), None);
}

#[test]
fn boxes_join_and_have_centres_and_diagonals() {
    let mut a: Aabb<F> = Aabb::empty();
    a.take_in(&f3([0.0, 0.0, 0.0]));
    let mut b: Aabb<F> = Aabb::empty();
    b.take_in(&f3([2.0, 4.0, 4.0]));
    let both = a.union(&b);
    assert_eq!(both.min, f3([0.0, 0.0, 0.0]));
    assert_eq!(both.max, f3([2.0, 4.0, 4.0]));
    let centre: [D; 3] = both.centroid();
    assert_eq!(centre, d3([1.0, 2.0, 2.0]));
    let diagonal: D = both.diagonal();
    assert_eq!(diagonal, D(6.0));
}

#[test]
fn vectors() {
    let a = d3([1.0, 2.0, 3.0]);
    let b = d3([4.0, 5.0, 6.0]);
    assert_eq!(difference(&b, &a), d3([3.0, 3.0, 3.0]));
    assert_eq!(sum(&a, &b), d3([5.0, 7.0, 9.0]));
    assert_eq!(scaled(&a, D(2.0)), d3([2.0, 4.0, 6.0]));
    assert_eq!(opposite(&a), d3([-1.0, -2.0, -3.0]));
    assert_eq!(dot(&a, &b), D(32.0));
    assert_eq!(cross(&a, &b), d3([-3.0, 6.0, -3.0]));
    assert_eq!(norm2(&d3([3.0, 4.0, 0.0])), D(25.0));
    assert_eq!(length(&d3([3.0, 4.0, 0.0])), D(5.0));
    assert_eq!(unit_or_nothing(&d3([0.0, 0.0, 2.0])), d3([0.0, 0.0, 1.0]));
    assert_eq!(unit_or_nothing(&d3([0.0, 0.0, 1e-13])), d3([0.0, 0.0, 0.0]));
    assert_eq!(wedge_angle(&d3([1.0, 0.0, 0.0]), &d3([0.0, 1.0, 0.0])), D(std::f64::consts::FRAC_PI_2));
    assert_eq!(wedge_angle(&d3([1.0, 0.0, 0.0]), &d3([-2.0, 0.0, 0.0])), D(std::f64::consts::PI));
    assert_eq!(wedge_angle(&d3([0.0, 0.0, 0.0]), &d3([0.0, 1.0, 0.0])), D(std::f64::consts::FRAC_PI_2));
}

#[test]
fn a_point_above_a_plane_falls_straight_down() {
    let result = refined(grid(), 1);
    let positions = result.interpolate(&grid_positions());
    let evaluator = result.limit_evaluator(&positions).unwrap();
    let found = evaluator.closest_point::<D>(f3([1.1, 0.8, 2.0])).unwrap();
    assert!(close(found.position[0].0, 1.1) && close(found.position[1].0, 0.8));
    assert!(close(found.position[2].0, 0.0));
    assert!(close(found.distance.0, 2.0));
    assert_eq!(found.signed_distance, None);
    assert!(close(found.normal[2].0, 1.0));
    let there = evaluator.eval::<D>(found.face, found.uv).unwrap();
    assert_eq!(there, found.position);
    let index = evaluator.search_index::<D>().unwrap();
    assert_eq!(evaluator.closest_point_in(&index, f3([1.1, 0.8, 2.0])).unwrap(), found);
}

#[test]
fn a_point_beyond_the_boundary_falls_on_it() {
    let result = refined(grid(), 1);
    let positions = result.interpolate(&grid_positions());
    let evaluator = result.limit_evaluator(&positions).unwrap();
    let found = evaluator.closest_point::<D>(f3([1.0, 5.0, 0.0])).unwrap();
    assert!(close(found.position[0].0, 1.0) && close(found.position[1].0, 2.0));
    assert!(close(found.distance.0, 3.0));
}

#[test]
fn distances_from_a_closed_surface_are_signed() {
    let result = refined(cube(), 1);
    let positions = result.interpolate(&cube_positions());
    let evaluator = result.limit_evaluator(&positions).unwrap();
    let outside = evaluator.closest_point::<D>(f3([0.0, 0.0, 3.0])).unwrap();
    assert!(outside.distance.0 > 1.5);
    assert_eq!(outside.signed_distance, Some(outside.distance));
    assert!(close(outside.position[0].0, 0.0) && close(outside.position[1].0, 0.0));
    assert!(close(outside.normal[2].0, 1.0));
    let inside = evaluator.closest_point::<D>(f3([0.0, 0.0, 0.4])).unwrap();
    assert_eq!(inside.signed_distance, Some(F(-inside.distance.0)));
    assert!(close(inside.position[2].0, outside.position[2].0));
}

#[test]
fn no_sampled_point_is_closer() {
    let result = refined(cube(), 1);
    let positions = result.interpolate(&cube_positions());
    let evaluator = result.limit_evaluator(&positions).unwrap();
    for query in [[0.9, 0.2, 0.4], [2.0, 1.5, 1.0], [-0.3, 0.1, -0.2]] {
        let found = evaluator.closest_point::<D>(f3(query)).unwrap();
        let mut best = f32::INFINITY;
        for face in 0..result.topology.face_vertex_counts.len() as u32 {
            for i in 0..5 {
                for j in 0..5 {
                    let uv = [F(i as f32 / 4.0), F(j as f32 / 4.0)];
                    let p = evaluator.eval::<D>(face, uv).unwrap();
                    let d: f32 = (0..3).map(|c| (p[c].0 - query[c]) * (p[c].0 - query[c])).sum::<f32>().sqrt();
                    best = best.min(d);
                }
            }
        }
        assert!(found.distance.0 <= best + 1e-5, "{} > {best}", found.distance.0);
    }
}

#[test]
fn a_surface_without_faces_has_no_closest_point() {
    let mesh = Mesh {
        vertex_count: 1,
        face_vertex_counts: Vec::new(),
        face_vertex_indices: Vec::new(),
        edge_vertices: Vec::new(),
        edge_creases: Vec::new(),
        vertex_corners: vec![F(0.0)],
    };
    let outcome = Refiner::new(mesh, Scheme::CatmullClark, SchemeOptions::default())
        .unwrap()
        .refine_uniform(&UniformRefine::default());
    match outcome {
        Ok(result) => {
            let positions = result.interpolate(&[f3([0.0, 0.0, 0.0])]);
            let evaluator = result.limit_evaluator(&positions).unwrap();
            assert_eq!(
                evaluator.closest_point::<D>(f3([0.0, 0.0, 0.0])).err(),
                Some(KernelError::InvalidTopology(
                    "refined level has no faces to run closest-point queries against"
                )),
            );
        }
        Err(error) => assert!(matches!(error, KernelError::InvalidTopology(_))),
    }
}

#[test]
fn quads_lie_in_their_boxes() {
    let result = refined(cube(), 2);
    let positions = result.interpolate(&cube_positions());
    let evaluator = result.limit_evaluator(&positions).unwrap();
    let index = evaluator.search_index::<D>().unwrap();
    for face in 0..result.topology.face_vertex_counts.len() as u32 {
        let b = &index.boxes[face as usize];
        for (u, v) in [(0.0, 0.0), (1.0, 0.0), (0.5, 0.5), (0.3, 0.9), (1.0, 1.0)] {
            let p = evaluator.eval::<D>(face, [F(u), F(v)]).unwrap();
            for c in 0..3 {
                assert!(b.min[c].0 - 1e-5 <= p[c].0 && p[c].0 <= b.max[c].0 + 1e-5);
            }
        }
    }
}

#[test]
fn results_name_their_place() {
    let result = refined(cube(), 1);
    let positions = result.interpolate(&cube_positions());
    let evaluator = result.limit_evaluator(&positions).unwrap();
    for query in [[0.9, 0.2, 0.4], [2.0, 1.5, 1.0]] {
        let found = evaluator.closest_point::<D>(f3(query)).unwrap();
        assert_eq!(evaluator.eval::<D>(found.face, found.uv).unwrap(), found.position);
        let d: f32 = (0..3).map(|c| (found.position[c].0 - query[c]).powi(2)).sum::<f32>().sqrt();
        assert!(close(found.distance.0, d));
        let n: f32 = found.normal.iter().map(|x| x.0 * x.0).sum();
        assert!(close(n, 1.0));
        let index = evaluator.search_index::<D>().unwrap();
        assert_eq!(evaluator.closest_point_in::<D>(&index, f3(query)).unwrap(), found);
    }
}

#[test]
fn boxes_of_feature_quads_hold_their_limits() {
    let mut mesh = cube();
    mesh.edge_vertices = vec![[0, 1]];
    mesh.edge_creases = vec![F(2.5)];
    let result = refined(mesh, 1);
    let positions = result.interpolate(&cube_positions());
    let evaluator = result.limit_evaluator(&positions).unwrap();
    let index = evaluator.search_index::<D>().unwrap();
    for face in 0..result.topology.face_vertex_counts.len() as u32 {
        let b = &index.boxes[face as usize];
        for i in 0..5 {
            for j in 0..5 {
                let p = evaluator.eval::<D>(face, [F(i as f32 / 4.0), F(j as f32 / 4.0)]).unwrap();
                for c in 0..3 {
                    assert!(b.min[c].0 - 1e-5 <= p[c].0 && p[c].0 <= b.max[c].0 + 1e-5);
                }
            }
        }
    }
}
