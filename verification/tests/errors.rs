//! What is refused, and how.

use subdiv_kernels::incidence::{decode_faces, MeshFault};
use subdiv_kernels::{
    KernelError, Mesh, Refiner, Scalar, Scheme, SchemeOptions, UniformRefine,
};

/// Single-precision weights.
#[derive(Debug, Clone, Copy, PartialEq, PartialOrd)]
struct F(f32);

impl Scalar for F {
    fn ratio_of(num: u32, den: u32) -> F {
        F::ratio(num, den)
    }
    fn plus_of(a: F, b: F) -> F {
        a.plus(b)
    }
    fn minus_of(a: F, b: F) -> F {
        a.minus(b)
    }
    fn times_of(a: F, b: F) -> F {
        a.times(b)
    }
    fn over_of(a: F, b: F) -> F {
        a.over(b)
    }
    fn larger_of(a: F, b: F) -> F {
        a.larger(b)
    }
    fn less_of(a: F, b: F) -> bool {
        a.less(b)
    }
    fn at_most_of(a: F, b: F) -> bool {
        a.at_most(b)
    }
    fn finite_of(a: F) -> bool {
        a.is_finite()
    }
    fn cos_turn_of(num: u64, den: u64) -> F {
        F::cos_turn(num, den)
    }
    fn sin_turn_of(num: u64, den: u64) -> F {
        F::sin_turn(num, den)
    }
    fn sqrt_of(a: F) -> F {
        a.sqrt()
    }
    fn negated_of(a: F) -> F {
        a.negated()
    }
    fn ratio(num: u32, den: u32) -> F {
        F(num as f32 / den as f32)
    }
    fn cos_turn(num: u64, den: u64) -> F {
        F((std::f32::consts::TAU * num as f32 / den as f32).cos())
    }
    fn sin_turn(num: u64, den: u64) -> F {
        F((std::f32::consts::TAU * num as f32 / den as f32).sin())
    }
    fn sqrt(self) -> F {
        F(self.0.sqrt())
    }
    fn negated(self) -> F {
        F(-self.0)
    }
    fn plus(self, other: F) -> F {
        F(self.0 + other.0)
    }
    fn minus(self, other: F) -> F {
        F(self.0 - other.0)
    }
    fn times(self, other: F) -> F {
        F(self.0 * other.0)
    }
    fn over(self, other: F) -> F {
        F(self.0 / other.0)
    }
    fn larger(self, other: F) -> F {
        F(self.0.max(other.0))
    }
    fn less(self, other: F) -> bool {
        self.0 < other.0
    }
    fn at_most(self, other: F) -> bool {
        self.0 <= other.0
    }
    fn is_finite(self) -> bool {
        self.0.is_finite()
    }
}


const SCHEMES: [Scheme; 4] = [Scheme::CatmullClark, Scheme::Loop, Scheme::Sqrt3, Scheme::DooSabin];

fn mesh(vertex_count: u32, faces: &[&[u32]]) -> Mesh<F> {
    Mesh {
        vertex_count,
        face_vertex_counts: faces.iter().map(|f| f.len() as u32).collect(),
        face_vertex_indices: faces.iter().flat_map(|f| f.iter().copied()).collect(),
        edge_vertices: Vec::new(),
        edge_creases: Vec::new(),
        vertex_corners: vec![F(0.0); vertex_count as usize],
    }
}

fn refusal(mesh: Mesh<F>, scheme: Scheme, req: &UniformRefine<F>) -> Option<String> {
    let refiner = match Refiner::new(mesh, scheme, SchemeOptions::default()) {
        Ok(refiner) => refiner,
        Err(error) => return Some(error.message()),
    };
    refiner.refine_uniform(req).err().map(|e| e.message())
}

fn refused(m: Mesh<F>, scheme: Scheme, text: &str) {
    assert_eq!(refusal(m, scheme, &UniformRefine::default()), Some(format!("invalid topology: {text}")));
}

#[test]
fn messages_say_what_kind_of_error_it_is() {
    assert_eq!(KernelError::InvalidTopology("abc").message(), "invalid topology: abc");
    assert_eq!(KernelError::NotImplemented("abc").message(), "not implemented: abc");
    assert_eq!(KernelError::Gpu("abc".to_string()).message(), "gpu error: abc");
}

#[test]
fn buffers_that_do_not_fit_together_are_refused() {
    let good = mesh(3, &[&[0, 1, 2]]);
    assert_eq!(good.validate(), Ok(()));
    for scheme in SCHEMES {
        let mut m = good.clone();
        m.face_vertex_counts[0] = 4;
        refused(m, scheme, "face corner count does not match index buffer length");
        let mut m = good.clone();
        m.edge_creases.push(F(1.0));
        refused(m, scheme, "edge crease count does not match edge buffer length");
        let mut m = good.clone();
        m.vertex_corners.pop();
        refused(m, scheme, "vertex corner count does not match vertex count");
        let mut m = good.clone();
        m.face_vertex_indices[2] = 3;
        refused(m, scheme, "face index out of bounds");
        let mut m = good.clone();
        m.edge_vertices.push([0, 3]);
        m.edge_creases.push(F(1.0));
        refused(m, scheme, "edge endpoint out of bounds");
    }
}

#[test]
fn faces_that_make_no_surface_are_refused() {
    for scheme in [Scheme::CatmullClark, Scheme::Loop, Scheme::Sqrt3] {
        refused(mesh(0, &[]), scheme, "mesh has no vertices");
        refused(mesh(3, &[&[0, 1]]), scheme, "face has fewer than three corners");
        refused(mesh(3, &[&[0, 1, 1]]), scheme, "degenerate face edge uses duplicate vertices");
        refused(
            mesh(5, &[&[0, 1, 2], &[1, 0, 3], &[0, 1, 4]]),
            scheme,
            "non-manifold edge has more than two incident faces",
        );
    }
    refused(mesh(3, &[]), Scheme::CatmullClark, "empty topology is not refinable");
    refused(mesh(3, &[&[0, 1]]), Scheme::DooSabin, "invalid face");
    refused(mesh(3, &[&[0, 1, 1]]), Scheme::DooSabin, "degenerate face edge");
    refused(mesh(5, &[&[0, 1, 2], &[1, 0, 3], &[0, 1, 4]]), Scheme::DooSabin, "non-manifold edge");
}

#[test]
fn triangle_schemes_refuse_other_faces() {
    let quad = mesh(4, &[&[0, 1, 2, 3]]);
    refused(quad.clone(), Scheme::Loop, "loop subdivision requires selected faces to be triangles");
    refused(quad.clone(), Scheme::Sqrt3, "sqrt3 requires selected faces to be triangles");
    let mixed = mesh(5, &[&[0, 1, 2], &[2, 1, 3, 4]]);
    let req = UniformRefine { selected_faces: Some(vec![true, false]), ..Default::default() };
    assert_eq!(refusal(mixed, Scheme::Loop, &req), None);
}

#[test]
fn selections_must_name_every_face() {
    for scheme in SCHEMES {
        let req = UniformRefine { selected_faces: Some(vec![true, true]), ..Default::default() };
        assert_eq!(
            refusal(mesh(3, &[&[0, 1, 2]]), scheme, &req),
            Some("invalid topology: selected-face mask length does not match face count".to_string()),
        );
    }
}

#[test]
fn face_buffers_are_decoded_or_refused() {
    assert_eq!(decode_faces(&[3, 4], &[0, 1, 2, 2, 1, 3, 4], 5, true), Ok(vec![vec![0, 1, 2], vec![2, 1, 3, 4]]));
    assert_eq!(decode_faces(&[2], &[0, 1], 5, true), Err(MeshFault::ShortFace));
    assert_eq!(decode_faces(&[3], &[0, 1], 5, true), Err(MeshFault::Underflow));
    assert_eq!(decode_faces(&[3], &[0, 1, 5], 5, true), Err(MeshFault::MissingVertex));
    assert_eq!(decode_faces(&[3], &[0, 1, 2, 3], 5, true), Err(MeshFault::TrailingData));
    assert_eq!(decode_faces(&[3], &[0, 1, 2, 3], 5, false), Ok(vec![vec![0, 1, 2]]));
}
