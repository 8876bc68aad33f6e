//! What the scheme of Doo and Sabin makes of the points of a mesh.

use crate::connectivity::lemma_flat_at;
use crate::doo_sabin::stencils as ds;
use crate::hashing::EdgeKey;
use crate::level::LevelData;
use crate::options::SchemeOptions;
use crate::placement::lemma_fits;
use crate::points::{
    computes_exactly, cornered_point, counted_at, lemma_cornered_value, lemma_identity_value, lemma_mixed_value,
    lemma_sharp_value, product_of_sum, quotient_times, sharp_point,
};
use crate::rows::row_start;
use crate::scalar::{zero_of, Scalar};
use crate::sharpness::{positive, sharp_neighbors, sharp_row};
use crate::stencil::identity_row;
use crate::unity::value;
use crate::weights::{lemma_one, reads_exactly};
use vstd::prelude::*;

verus! {

/// The weight of corner `j` of a face with `n` corners in the new corner `i`, times four
/// times `n`: `n + 5` for the corner itself, else `3 + 2 cos` of the turn between them.
pub open spec fn corner_part<S: Scalar>(val: spec_fn(S) -> real, n: nat, i: int, j: int) -> real {
    if i == j {
        (n as int as real) + 5 as real
    } else {
        3 as real + 2 as real * val(
            S::cos_turn_of(
                (if i < j {
                    j - i
                } else {
                    i - j
                }) as u64,
                n as u64,
            ),
        )
    }
}

/// The sum of the first `k` corners of a face, each by its part in the new corner `i`.
pub open spec fn corner_parts<S: Scalar>(
    val: spec_fn(S) -> real,
    x: spec_fn(u32) -> real,
    face: Seq<u32>,
    i: int,
    k: int,
) -> real
    decreases k,
{
    if k <= 0 {
        0 as real
    } else {
        corner_parts::<S>(val, x, face, i, k - 1) + corner_part::<S>(val, face.len(), i, k - 1) * x(face[k - 1])
    }
}

proof fn lemma_corner_weight<S: Scalar>(val: spec_fn(S) -> real, n: nat, i: int, j: int)
    requires
        reads_exactly(val),
        0 < n <= u32::MAX,
    ensures
        val(ds::corner_weight::<S>(n, i, j)) * (4 as real * (n as int as real)) == corner_part::<S>(val, n, i, j),
{
    lemma_one::<S>(val);
    let count = S::ratio_of(n as u32, 1);
    let (four, five) = (S::ratio_of(4, 1), S::ratio_of(5, 1));
    let (two, three) = (S::ratio_of(2, 1), S::ratio_of(3, 1));
    let r = n as int as real;
    assert(val(count) == r / (1int as real));
    assert(val(four) == (4int as real) / (1int as real));
    assert(val(five) == (5int as real) / (1int as real));
    assert(val(two) == (2int as real) / (1int as real));
    assert(val(three) == (3int as real) / (1int as real));
    let quarter = S::times_of(four, count);
    let q = val(quarter);
    assert(q == val(four) * r);
    times_const(val(four), r);
    let top = if i == j {
        S::plus_of(count, five)
    } else {
        let apart = if i < j {
            j - i
        } else {
            i - j
        };
        S::plus_of(three, S::times_of(two, S::cos_turn_of(apart as u64, n as u64)))
    };
    if i != j {
        let apart = if i < j {
            j - i
        } else {
            i - j
        };
        let cos = S::cos_turn_of(apart as u64, n as u64);
        assert(val(S::times_of(two, cos)) == val(two) * val(cos));
        times_const(val(two), val(cos));
    }
    assert(val(top) == corner_part::<S>(val, n, i, j));
    let w = val(ds::corner_weight::<S>(n, i, j));
    assert(w == val(top) / q);
    quotient_times(w, val(top), q);
}

proof fn times_const(w: real, z: real)
    ensures
        w == 4 as real ==> w * z == 4 as real * z,
        w == 2 as real ==> w * z == 2 as real * z,
{
    if w == 4 as real {
        assert(w * z == 4 as real * z) by (nonlinear_arith)
            requires
                w == 4 as real,
        ;
    }
    if w == 2 as real {
        assert(w * z == 2 as real * z) by (nonlinear_arith)
            requires
                w == 2 as real,
        ;
    }
}

proof fn lemma_corner_parts<S: Scalar>(val: spec_fn(S) -> real, x: spec_fn(u32) -> real, face: Seq<u32>, i: int, k: int)
    requires
        reads_exactly(val),
        0 < face.len() <= u32::MAX,
        0 <= k <= face.len(),
    ensures
        value(val, x, ds::smooth_corner_row::<S>(face, i).take(k)) * (4 as real * (face.len() as int as real))
            == corner_parts::<S>(val, x, face, i, k),
    decreases k,
{
    let row = ds::smooth_corner_row::<S>(face, i);
    let m = 4 as real * (face.len() as int as real);
    if k == 0 {
        assert(row.take(0).len() == 0);
        assert(value(val, x, row.take(0)) == 0 as real);
    } else {
        lemma_corner_parts::<S>(val, x, face, i, k - 1);
        assert(row.take(k).drop_last() =~= row.take(k - 1));
        assert(row.take(k).last() == row[k - 1]);
        lemma_corner_weight::<S>(val, face.len(), i, k - 1);
        let w = val(ds::corner_weight::<S>(face.len(), i, k - 1));
        let z = x(face[k - 1]);
        let before = value(val, x, row.take(k - 1));
        product_of_sum(m, before, w * z);
        crate::points::product_of_three(w, z, m);
    }
}

/// A smooth new corner of a face with `n` corners: `4 n` times it is the sum of the
/// corners by their parts.
pub proof fn smooth_corners_are_mixed_by_their_turns<S: Scalar>(
    val: spec_fn(S) -> real,
    x: spec_fn(u32) -> real,
    face: Seq<u32>,
    i: int,
)
    requires
        reads_exactly(val),
        0 < face.len() <= u32::MAX,
    ensures
        value(val, x, ds::smooth_corner_row::<S>(face, i)) * (4 as real * (face.len() as int as real)) == corner_parts::<
            S,
        >(val, x, face, i, face.len() as int),
{
    let row = ds::smooth_corner_row::<S>(face, i);
    lemma_corner_parts::<S>(val, x, face, i, face.len() as int);
    assert(row.take(face.len() as int) =~= row);
}

/// The sharp edges of a vertex that are sharp in full, and the least of their creases,
/// at most one.
pub open spec fn full_creases<S>(val: spec_fn(S) -> real, list: Seq<u32>, creases: Seq<S>) -> (nat, real)
    decreases list.len(),
{
    if list.len() == 0 {
        (0, 1 as real)
    } else {
        let (n, least) = full_creases(val, list.drop_last(), creases);
        let c = val(creases[list.last() as int]);
        if c > 0 as real {
            (
                if c >= 1 as real {
                    n + 1
                } else {
                    n
                },
                if c < least {
                    c
                } else {
                    least
                },
            )
        } else {
            (n, least)
        }
    }
}

proof fn lemma_full<S: Scalar>(
    val: spec_fn(S) -> real,
    list: Seq<u32>,
    edges: Seq<EdgeKey>,
    creases: Seq<S>,
    v: u32,
)
    requires
        computes_exactly(val),
    ensures
        ({
            let sharp = sharp_neighbors(list, edges, creases, v);
            &&& ds::fully_sharp(sharp) == full_creases(val, list, creases).0
            &&& val(ds::least_crease(sharp)) == full_creases(val, list, creases).1
        }),
    decreases list.len(),
{
    lemma_one::<S>(val);
    if list.len() > 0 {
        let front = list.drop_last();
        lemma_full(val, front, edges, creases, v);
        let c = creases[list.last() as int];
        let before = sharp_neighbors(front, edges, creases, v);
        if positive(c) {
            let entry = (crate::sharpness::other_end(edges[list.last() as int], v), c);
            assert(sharp_neighbors(list, edges, creases, v) == before.push(entry));
            assert(before.push(entry).drop_last() =~= before);
        }
    }
}

/// The new corner `i` of face `f`: of its smooth point, and of a crease or corner that
/// its vertex is.
pub open spec fn ds_corner_point<S: Scalar>(
    val: spec_fn(S) -> real,
    x: spec_fn(u32) -> real,
    level: LevelData<S>,
    options: SchemeOptions,
    v: u32,
    smooth: real,
) -> real {
    let t = level.topo;
    let list = t.vertex_edges@[v as int];
    let creases = level.effective_edge_creases@;
    let (full, least) = full_creases(val, list, creases);
    let made = if options.auto_corner && counted_at(val, list, creases).0 >= 3 {
        counted_at(val, list, creases).1 / (counted_at(val, list, creases).0 as real)
    } else {
        0 as real
    };
    if full >= 2 {
        let sharp = sharp_point(val, x, v, x(v), 0 as real, list, t.edges(), creases);
        (1 as real - least) * smooth + least * cornered_point(x, sharp, v, made)
    } else {
        let own = val(level.mesh.vertex_corners@[v as int]);
        cornered_point(
            x,
            smooth,
            v,
            if made >= own {
                made
            } else {
                own
            },
        )
    }
}

/// Where the points of a Doo-Sabin refinement lie: one for each corner of each face.
pub proof fn doo_sabin_points<S: Scalar>(
    val: spec_fn(S) -> real,
    x: spec_fn(u32) -> real,
    options: SchemeOptions,
    level: LevelData<S>,
    f: int,
    i: int,
    smooth: real,
)
    requires
        computes_exactly(val),
        level.wf(),
        0 <= f < level.topo.faces@.len(),
        0 <= i < level.topo.faces@[f].len(),
        ({
            let face = level.topo.faces@[f];
            if level.face_selected@[f] {
                smooth * (4 as real * (face.len() as int as real)) == corner_parts::<S>(
                    val,
                    x,
                    face,
                    i,
                    face.len() as int,
                )
            } else {
                smooth == x(face[i])
            }
        }),
    ensures
        value(val, x, ds::ds_rows(level, options)[row_start(level.topo.faces@, f) + i]) == ds_corner_point(
            val,
            x,
            level,
            options,
            level.topo.faces@[f][i],
            smooth,
        ),
{
    let t = level.topo;
    let face = t.faces@[f];
    let v = face[i];
    lemma_fits(level);
    lemma_one::<S>(val);
    assert(t.faces@[f].len() >= 3);
    assert(crate::topology::all_below(t.faces@[f], level.n() as int));
    assert(v < level.n());
    let rows = ds::ds_face_rows(level, options);
    lemma_flat_at(rows, f, i);
    crate::connectivity::lemma_same_starts(rows, t.faces@, f);
    assert(ds::ds_rows(level, options)[row_start(t.faces@, f) + i] == ds::ds_row(level, options, f, i));
    let list = t.vertex_edges@[v as int];
    assert(list.len() < u32::MAX);
    let creases = level.effective_edge_creases@;
    let row = if level.face_selected@[f] {
        ds::smooth_corner_row::<S>(face, i)
    } else {
        identity_row::<S>(v)
    };
    lemma_identity_value::<S>(val, x, v);
    assert(value(val, x, row) == smooth) by {
        if level.face_selected@[f] {
            smooth_corners_are_mixed_by_their_turns::<S>(val, x, face, i);
            let m = 4 as real * (face.len() as int as real);
            same_from_product(value(val, x, row), smooth, m);
        }
    }
    lemma_full(val, list, t.edges(), creases, v);
    let implicit = ds::implicit_corner(options.auto_corner, list, creases);
    lemma_made(val, options.auto_corner, list, creases);
    let own = identity_row::<S>(v);
    let sharp = sharp_neighbors(list, t.edges(), creases, v);
    lemma_sharp_value(val, x, v, own, zero_of(), list, t.edges(), creases);
    let strict = sharp_row(v, own, own, zero_of(), sharp);
    lemma_cornered_value(val, x, strict, v, implicit);
    let held = crate::rules::cornered_row(strict, v, implicit);
    lemma_mixed_value(val, x, row, held, ds::least_crease(sharp));
    lemma_cornered_value(val, x, row, v, S::larger_of(implicit, level.mesh.vertex_corners@[v as int]));
}

proof fn same_from_product(a: real, b: real, m: real)
    requires
        m > 0 as real,
        a * m == b * m,
    ensures
        a == b,
{
    crate::points::product_of_difference(m, a, b);
    crate::normals::lemma_sign_of_product(a - b, m);
}

proof fn lemma_made<S: Scalar>(val: spec_fn(S) -> real, auto: bool, list: Seq<u32>, creases: Seq<S>)
    requires
        computes_exactly(val),
        list.len() <= u32::MAX,
    ensures
        val(ds::implicit_corner(auto, list, creases)) == (if auto && counted_at(val, list, creases).0 >= 3 {
            counted_at(val, list, creases).1 / (counted_at(val, list, creases).0 as real)
        } else {
            0 as real
        }),
{
    lemma_one::<S>(val);
    crate::points::lemma_counted(val, list, creases);
    let c = crate::sharpness::counted(crate::rules::creases_at(list, creases));
    if c.len() >= 3 {
        let m = S::ratio_of(c.len() as u32, 1);
        assert(val(m) == (c.len() as int as real) / (1int as real));
    }
}

} // verus!
