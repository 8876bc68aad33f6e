//! Limit stencils, patches and evaluation.

use subdiv_kernels::{BoundaryInterpolation, Interpolatable, KernelError, Mesh, RefinementResult, Refiner, Scalar, Scheme, SchemeOptions, UniformRefine, Wide};

/// Single-precision weights.
#[derive(Debug, Clone, Copy, PartialEq, PartialOrd)]
struct F(f32);

impl Scalar for F {
    fn ratio_of(num: u32, den: u32) -> F {
        F::ratio(num, den)
    }
    fn plus_of(a: F, b: F) -> F {
        a.plus(b)
    }
    fn minus_of(a: F, b: F) -> F {
        a.minus(b)
    }
    fn times_of(a: F, b: F) -> F {
        a.times(b)
    }
    fn over_of(a: F, b: F) -> F {
        a.over(b)
    }
    fn larger_of(a: F, b: F) -> F {
        a.larger(b)
    }
    fn less_of(a: F, b: F) -> bool {
        a.less(b)
    }
    fn at_most_of(a: F, b: F) -> bool {
        a.at_most(b)
    }
    fn finite_of(a: F) -> bool {
        a.is_finite()
    }
    fn cos_turn_of(num: u64, den: u64) -> F {
        F::cos_turn(num, den)
    }
    fn sin_turn_of(num: u64, den: u64) -> F {
        F::sin_turn(num, den)
    }
    fn sqrt_of(a: F) -> F {
        a.sqrt()
    }
    fn negated_of(a: F) -> F {
        a.negated()
    }
    fn ratio(num: u32, den: u32) -> F {
        F(num as f32 / den as f32)
    }
    fn cos_turn(num: u64, den: u64) -> F {
        F((std::f32::consts::TAU * num as f32 / den as f32).cos())
    }
    fn sin_turn(num: u64, den: u64) -> F {
        F((std::f32::consts::TAU * num as f32 / den as f32).sin())
    }
    fn sqrt(self) -> F {
        F(self.0.sqrt())
    }
    fn negated(self) -> F {
        F(-self.0)
    }
    fn plus(self, other: F) -> F {
        F(self.0 + other.0)
    }
    fn minus(self, other: F) -> F {
        F(self.0 - other.0)
    }
    fn times(self, other: F) -> F {
        F(self.0 * other.0)
    }
    fn over(self, other: F) -> F {
        F(self.0 / other.0)
    }
    fn larger(self, other: F) -> F {
        F(self.0.max(other.0))
    }
    fn less(self, other: F) -> bool {
        self.0 < other.0
    }
    fn at_most(self, other: F) -> bool {
        self.0 <= other.0
    }
    fn is_finite(self) -> bool {
        self.0.is_finite()
    }
}

impl<const N: usize> Interpolatable<F> for [f32; N] {
    fn origin_of() -> Self {
        <Self as Interpolatable<F>>::origin()
    }
    fn moved(mut self, src: Self, weight: F) -> Self {
        self.add_with_weight(&src, weight);
        self
    }
    fn origin() -> Self {
        [0.0; N]
    }
    fn add_with_weight(&mut self, src: &Self, weight: F) {
        for (a, b) in self.iter_mut().zip(src) {
            *a += b * weight.0;
        }
    }
}

impl<const N: usize> Interpolatable<F> for [f64; N] {
    fn origin_of() -> Self {
        <Self as Interpolatable<F>>::origin()
    }
    fn moved(mut self, src: Self, weight: F) -> Self {
        self.add_with_weight(&src, weight);
        self
    }
    fn origin() -> Self {
        [0.0; N]
    }
    fn add_with_weight(&mut self, src: &Self, weight: F) {
        for (a, b) in self.iter_mut().zip(src) {
            *a += b * weight.0 as f64;
        }
    }
}

impl Interpolatable<F> for f32 {
    fn origin_of() -> Self {
        <Self as Interpolatable<F>>::origin()
    }
    fn moved(mut self, src: Self, weight: F) -> Self {
        self.add_with_weight(&src, weight);
        self
    }
    fn origin() -> Self {
        0.0
    }
    fn add_with_weight(&mut self, src: &Self, weight: F) {
        *self += src * weight.0;
    }
}

/// Double-precision numbers.
#[derive(Debug, Clone, Copy, PartialEq, PartialOrd)]
struct D(f64);

impl Scalar for D {
    fn ratio_of(num: u32, den: u32) -> D {
        D::ratio(num, den)
    }
    fn plus_of(a: D, b: D) -> D {
        a.plus(b)
    }
    fn minus_of(a: D, b: D) -> D {
        a.minus(b)
    }
    fn times_of(a: D, b: D) -> D {
        a.times(b)
    }
    fn over_of(a: D, b: D) -> D {
        a.over(b)
    }
    fn larger_of(a: D, b: D) -> D {
        a.larger(b)
    }
    fn less_of(a: D, b: D) -> bool {
        a.less(b)
    }
    fn at_most_of(a: D, b: D) -> bool {
        a.at_most(b)
    }
    fn finite_of(a: D) -> bool {
        a.is_finite()
    }
    fn cos_turn_of(num: u64, den: u64) -> D {
        D::cos_turn(num, den)
    }
    fn sin_turn_of(num: u64, den: u64) -> D {
        D::sin_turn(num, den)
    }
    fn sqrt_of(a: D) -> D {
        a.sqrt()
    }
    fn negated_of(a: D) -> D {
        a.negated()
    }
    fn ratio(num: u32, den: u32) -> D {
        D(num as f64 / den as f64)
    }
    fn cos_turn(num: u64, den: u64) -> D {
        D((num as f64 * (std::f64::consts::TAU / den as f64)).cos())
    }
    fn sin_turn(num: u64, den: u64) -> D {
        D((num as f64 * (std::f64::consts::TAU / den as f64)).sin())
    }
    fn sqrt(self) -> D {
        D(self.0.sqrt())
    }
    fn negated(self) -> D {
        D(-self.0)
    }
    fn plus(self, other: D) -> D {
        D(self.0 + other.0)
    }
    fn minus(self, other: D) -> D {
        D(self.0 - other.0)
    }
    fn times(self, other: D) -> D {
        D(self.0 * other.0)
    }
    fn over(self, other: D) -> D {
        D(self.0 / other.0)
    }
    fn larger(self, other: D) -> D {
        D(self.0.max(other.0))
    }
    fn less(self, other: D) -> bool {
        self.0 < other.0
    }
    fn at_most(self, other: D) -> bool {
        self.0 <= other.0
    }
    fn is_finite(self) -> bool {
        self.0.is_finite()
    }
}

impl Wide<F> for D {
    fn narrow_of(w: D) -> F {
        w.narrow()
    }
    fn widen_of(s: F) -> D {
        <D as Wide<F>>::widen(s)
    }
    fn narrow(self) -> F {
        F(self.0 as f32)
    }
    fn widen(s: F) -> D {
        D(s.0 as f64)
    }
}

fn grid() -> Mesh<F> {
    Mesh {
        vertex_count: 9,
        face_vertex_counts: vec![4; 4],
        face_vertex_indices: vec![0, 3, 4, 1, 1, 4, 5, 2, 3, 6, 7, 4, 4, 7, 8, 5],
        edge_vertices: Vec::new(),
        edge_creases: Vec::new(),
        vertex_corners: vec![F(0.0); 9],
    }
}

fn refine(
    scheme: Scheme,
    options: SchemeOptions,
    req: &UniformRefine<F>,
) -> RefinementResult<F> {
    let refiner = Refiner::new(grid(), scheme, options).expect("refiner");
    refiner.refine_uniform(req).expect("refinement")
}

#[test]
fn limit_non_catmull_clark_scheme_is_rejected() {
    let result = refine(
        Scheme::DooSabin,
        SchemeOptions::default(),
        &UniformRefine::default(),
    );
    assert!(matches!(
        result.limit_stencils::<D>(),
        Err(KernelError::NotImplemented(_)),
    ));
    assert!(matches!(
        result.sectored_limit_stencils::<D>(),
        Err(KernelError::NotImplemented(_)),
    ));
}

#[test]
fn limit_partial_face_selection_is_rejected() {
    let req = UniformRefine {
        levels: 1,
        selected_faces: Some(vec![true, true, true, false]),
        ..Default::default()
    };
    let result = refine(Scheme::CatmullClark, SchemeOptions::default(), &req);
    assert!(matches!(
        result.limit_stencils::<D>(),
        Err(KernelError::NotImplemented(_)),
    ));
    assert!(matches!(
        result.sectored_limit_stencils::<D>(),
        Err(KernelError::NotImplemented(_)),
    ));
}

#[test]
fn natural_boundary_on_open_mesh_is_rejected() {
    let options = SchemeOptions {
        boundary_interpolation: BoundaryInterpolation::Natural,
        ..Default::default()
    };
    let result = refine(Scheme::CatmullClark, options, &UniformRefine::default());
    assert!(matches!(
        result.limit_stencils::<D>(),
        Err(KernelError::NotImplemented(_)),
    ));
    assert!(matches!(
        result.sectored_limit_stencils::<D>(),
        Err(KernelError::NotImplemented(_)),
    ));
}

#[test]
fn patch_non_catmull_clark_scheme_is_rejected() {
    let refiner =
        Refiner::new(grid(), Scheme::DooSabin, SchemeOptions::default()).expect("refiner");
    let result = refiner
        .refine_uniform(&UniformRefine::default())
        .expect("refinement");
    assert!(matches!(
        result.patch_table(),
        Err(KernelError::NotImplemented(_)),
    ));
}

#[test]
fn patch_partial_face_selection_is_rejected() {
    let req = UniformRefine {
        levels: 1,
        selected_faces: Some(vec![true, true, true, false]),
        ..Default::default()
    };
    let refiner =
        Refiner::new(grid(), Scheme::CatmullClark, SchemeOptions::default()).expect("refiner");
    let result = refiner.refine_uniform(&req).expect("refinement");
    assert!(matches!(
        result.patch_table(),
        Err(KernelError::NotImplemented(_)),
    ));
}

#[test]
fn limit_eval_non_catmull_clark_scheme_is_rejected() {
    let refiner =
        Refiner::new(grid(), Scheme::DooSabin, SchemeOptions::default()).expect("refiner");
    let result = refiner
        .refine_uniform(&UniformRefine::default())
        .expect("refinement");
    let positions = vec![[F(0.0); 3]; result.topology.vertex_count as usize];
    assert!(matches!(
        result.limit_evaluator(&positions).err(),
        Some(KernelError::NotImplemented(_)),
    ));
}

#[test]
fn limit_eval_partial_face_selection_is_rejected() {
    let req = UniformRefine {
        levels: 1,
        selected_faces: Some(vec![true, true, true, false]),
        ..Default::default()
    };
    let refiner =
        Refiner::new(grid(), Scheme::CatmullClark, SchemeOptions::default()).expect("refiner");
    let result = refiner.refine_uniform(&req).expect("refinement");
    let positions = vec![[F(0.0); 3]; result.topology.vertex_count as usize];
    assert!(matches!(
        result.limit_evaluator(&positions).err(),
        Some(KernelError::NotImplemented(_)),
    ));
}

#[test]
fn mismatched_positions_length_is_rejected() {
    let refiner =
        Refiner::new(grid(), Scheme::CatmullClark, SchemeOptions::default()).expect("refiner");
    let result = refiner
        .refine_uniform(&UniformRefine::default())
        .expect("refinement");
    let positions = vec![[F(0.0); 3]; 3];
    assert!(matches!(
        result.limit_evaluator(&positions).err(),
        Some(KernelError::InvalidTopology(_)),
    ));
}

#[test]
fn tangents_ignore_where_the_surface_lies() {
    let refiner = Refiner::new(grid(), Scheme::CatmullClark, SchemeOptions::default()).unwrap();
    let result = refiner.refine_uniform(&UniformRefine::from(1)).unwrap();
    let limits = result.limit_stencils::<D>().unwrap();
    for table in [&limits.tangent1, &limits.tangent2] {
        for row in 0..table.output_count() {
            let (start, end) = (table.offsets[row] as usize, table.offsets[row + 1] as usize);
            let total: f32 = table.weights[start..end].iter().map(|w| w.0).sum();
            assert!(end > start && total.abs() < 1e-5);
        }
    }
}

#[test]
fn sectored_limits_match_plain_limits() {
    let mut creased = grid();
    creased.edge_vertices = vec![[1, 4], [4, 7]];
    creased.edge_creases = vec![F(8.0), F(8.0)];
    creased.vertex_corners[8] = F(3.0);
    for mesh in [grid(), creased] {
        let refiner = Refiner::new(mesh, Scheme::CatmullClark, SchemeOptions::default()).unwrap();
        let result = refiner.refine_uniform(&UniformRefine::from(1)).unwrap();
        let plain = result.limit_stencils::<D>().unwrap();
        let sectored = result.sectored_limit_stencils::<D>().unwrap();
        assert_eq!(plain.position, sectored.position);
        assert_eq!(sectored.corner_sector.len(), result.topology.face_vertex_indices.len());
        let rows = sectored.tangent1.output_count();
        assert_eq!(rows, sectored.tangent2.output_count());
        assert!(sectored.corner_sector.iter().all(|&s| (s as usize) < rows));
        for table in [&sectored.tangent1, &sectored.tangent2, &plain.tangent1, &plain.tangent2] {
            for row in 0..table.output_count() {
                let (start, end) = (table.offsets[row] as usize, table.offsets[row + 1] as usize);
                let total: f32 = table.weights[start..end].iter().map(|w| w.0).sum();
                assert!(total.abs() < 1e-5);
            }
        }
        for row in 0..plain.position.output_count() {
            let (start, end) = (plain.position.offsets[row] as usize, plain.position.offsets[row + 1] as usize);
            let weights = &plain.position.weights[start..end];
            assert!((weights.iter().map(|w| w.0).sum::<f32>() - 1.0).abs() < 1e-5);
            assert!(weights.iter().all(|w| w.0 >= 0.0));
        }
    }
}
