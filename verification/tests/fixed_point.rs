//! Refinement without floating point.

use subdiv_kernels::fixed::ONE;
use subdiv_kernels::{Fixed, Mesh, Metric, Refiner, Scalar, Scheme, SchemeOptions, UniformRefine};

fn number(num: i64, den: i64) -> Fixed {
    Fixed { raw: num * ONE / den }
}

fn near(a: Fixed, b: Fixed, parts: i64) -> bool {
    (a.raw - b.raw).abs() * parts <= ONE
}

#[test]
fn arithmetic() {
    assert_eq!(Fixed::ratio(3, 4), number(3, 4));
    assert_eq!(Fixed::ratio(1, 3).raw, ONE / 3);
    assert_eq!(number(3, 4).plus(number(1, 2)), number(5, 4));
    assert_eq!(number(3, 4).minus(number(5, 4)), number(-1, 2));
    assert_eq!(number(3, 4).times(number(-1, 2)), number(-3, 8));
    assert_eq!(number(3, 4).over(number(1, 2)), number(3, 2));
    assert_eq!(number(9, 4).sqrt(), number(3, 2));
    assert_eq!(number(-9, 4).sqrt(), number(0, 1));
    assert_eq!(number(3, 4).negated(), number(-3, 4));
    assert_eq!(number(1, 4).larger(number(1, 2)), number(1, 2));
    assert_eq!(number(1, 4).smaller(number(1, 2)), number(1, 4));
    assert!(number(1, 4).less(number(1, 2)) && !number(1, 2).less(number(1, 2)));
    assert!(number(1, 2).at_most(number(1, 2)));
}

#[test]
fn results_that_do_not_fit_are_infinite() {
    let large = Fixed { raw: i64::MAX / 2 };
    assert!(large.is_finite());
    assert_eq!(large.times(large), Fixed::infinity());
    assert!(!Fixed::infinity().is_finite());
    assert_eq!(Fixed { raw: i64::MIN }.negated(), Fixed::infinity());
    assert_eq!(number(1, 1).over(number(0, 1)), Fixed::infinity());
    assert_eq!(number(0, 1).over(number(0, 1)), number(0, 1));
}

#[test]
fn angles() {
    assert_eq!(Fixed::cos_turn(0, 7), number(1, 1));
    assert_eq!(Fixed::cos_turn(1, 4), number(0, 1));
    assert_eq!(Fixed::cos_turn(1, 2), number(-1, 1));
    assert_eq!(Fixed::sin_turn(1, 4), number(1, 1));
    assert_eq!(Fixed::sin_turn(3, 4), number(-1, 1));
    assert!(near(Fixed::cos_turn(1, 6), number(1, 2), 500));
    assert!(near(Fixed::cos_turn(u64::MAX / 3, u64::MAX), number(-1, 2), 500));
    assert!(near(number(1, 2).arc_cos(), Fixed { raw: 1098066 }, 1000));
    assert!(near(number(-1, 1).arc_cos(), Fixed { raw: 3294199 }, 1000));
    assert_eq!(Fixed::tiny(0), number(1, 1));
    assert_eq!(Fixed::tiny(3).raw, ONE / 1000);
    assert_eq!(Fixed::tiny(30).raw, 0);
}

#[test]
fn a_quad_is_refined_exactly() {
    let mesh = Mesh {
        vertex_count: 4,
        face_vertex_counts: vec![4],
        face_vertex_indices: vec![0, 1, 2, 3],
        edge_vertices: Vec::new(),
        edge_creases: Vec::new(),
        vertex_corners: vec![number(0, 1); 4],
    };
    let result = Refiner::new(mesh, Scheme::CatmullClark, SchemeOptions::default())
        .unwrap()
        .refine_uniform(&UniformRefine::from(1))
        .unwrap();
    let points = [[0, 0], [8, 0], [8, 8], [0, 8]].map(|p: [i64; 2]| [number(p[0], 1), number(p[1], 1)]);
    let out = result.interpolate(&points);
    assert_eq!(out.len(), 9);
    assert_eq!(out[0], [number(4, 1), number(4, 1)]);
    assert_eq!(out[1], [number(4, 1), number(0, 1)]);
    assert_eq!(out[5], [number(1, 1), number(1, 1)]);
}
