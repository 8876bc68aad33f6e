//! What holds of face-varying rows.

use crate::catmull_clark::face_varying::{cc_linear_rows, face_value_rows, quad_value_rows};
use crate::connectivity::{
    corner_faces, corner_keys, edge_key_of, face_keys, lemma_corner_counts, lemma_flat_at, lemma_same_starts,
    next_corner, owner_rows, prev_corner,
};
use crate::doo_sabin::face_varying::ds_linear_rows;
use crate::face_varying::{edge_value_row, face_value_row, is_seam, linear_row, meeting, value_in_face};
use crate::hashing::EdgeKey;
use crate::incidence::lemma_flat_locate;
use crate::level::LevelData;
use crate::loop_subdivision::refine::{loop_child_rows, loop_children, loop_origins, loop_refines, loop_wf};
use crate::loop_subdivision::topology::{parent_of as loop_parent_of, Parent as LoopParent};
use crate::options::SchemeOptions;
use crate::output::VertexOrigin;
use crate::parity::lemma_meeting;
use crate::rows::{flat, lemma_flat_row, lemma_row_start_monotone, row_start};
use crate::rules::{corner_at_vertex, is_corner, lemma_corner_at_vertex, midpoint_row};
use crate::scalar::{one_of, Scalar};
use crate::sqrt3::refine::numbers;
use crate::stencil::identity_row;
use crate::topology::all_below;
use crate::weights::{lemma_identity, lemma_one, lemma_uniform, reads_exactly, total};
use vstd::prelude::*;

verus! {

/// A row reads values of face `f` only.
pub open spec fn reads_face<S>(faces: Seq<Seq<u32>>, values: Seq<u32>, f: int, row: Seq<(u32, S)>) -> bool {
    &&& 0 <= f < faces.len()
    &&& forall|k: int| 0 <= k < row.len() ==> value_of_face(faces, values, f, (#[trigger] row[k]).0)
}

/// `x` is the value at a corner of face `f`.
pub open spec fn value_of_face(faces: Seq<Seq<u32>>, values: Seq<u32>, f: int, x: u32) -> bool {
    exists|c: int| 0 <= c < faces[f].len() && #[trigger] values[row_start(faces, f) + c] == x
}

/// No weight of a row is negative, and the weights sum to one.
pub open spec fn is_mean<S>(val: spec_fn(S) -> real, row: Seq<(u32, S)>) -> bool {
    &&& forall|k: int| 0 <= k < row.len() ==> val((#[trigger] row[k]).1) >= 0 as real
    &&& total(val, row) == 1 as real
}

/// A row is a mean of values of one face.
pub open spec fn mean_of_face<S>(
    val: spec_fn(S) -> real,
    faces: Seq<Seq<u32>>,
    values: Seq<u32>,
    row: Seq<(u32, S)>,
) -> bool {
    is_mean(val, row) && exists|f: int| #[trigger] reads_face(faces, values, f, row)
}

proof fn lemma_even_mean<S: Scalar>(val: spec_fn(S) -> real, row: Seq<(u32, S)>, n: int)
    requires
        reads_exactly(val),
        0 < n <= u32::MAX,
        row.len() == n,
        forall|k: int| 0 <= k < row.len() ==> (#[trigger] row[k]).1 == S::ratio_of(1, n as u32),
    ensures
        is_mean(val, row),
{
    let w = S::ratio_of(1, n as u32);
    lemma_uniform(val, row, w);
    let r = n as real;
    assert(val(w) == (1int as real) / r);
    assert(r * ((1int as real) / r) == 1 as real && (1int as real) / r >= 0 as real) by (nonlinear_arith)
        requires
            r > 0 as real,
    ;
    assert forall|k: int| 0 <= k < row.len() implies val((#[trigger] row[k]).1) >= 0 as real by {
        assert(row[k].1 == w);
    }
}

proof fn lemma_copy_mean<S: Scalar>(val: spec_fn(S) -> real, faces: Seq<Seq<u32>>, values: Seq<u32>, f: int, x: u32)
    requires
        reads_exactly(val),
        0 <= f < faces.len(),
        value_of_face(faces, values, f, x),
    ensures
        mean_of_face(val, faces, values, identity_row::<S>(x)),
{
    lemma_identity(val, x);
    lemma_one::<S>(val);
    let row = identity_row::<S>(x);
    assert(row[0].1 == one_of::<S>());
    assert(reads_face(faces, values, f, row));
}

proof fn lemma_pair_mean<S: Scalar>(
    val: spec_fn(S) -> real,
    faces: Seq<Seq<u32>>,
    values: Seq<u32>,
    f: int,
    a: u32,
    b: u32,
)
    requires
        reads_exactly(val),
        0 <= f < faces.len(),
        value_of_face(faces, values, f, a),
        value_of_face(faces, values, f, b),
    ensures
        mean_of_face(val, faces, values, midpoint_row::<S>((a, b))),
{
    let row = midpoint_row::<S>((a, b));
    lemma_even_mean(val, row, 2);
    assert(reads_face(faces, values, f, row));
}

proof fn lemma_face_mean<S: Scalar>(val: spec_fn(S) -> real, faces: Seq<Seq<u32>>, values: Seq<u32>, f: int)
    requires
        reads_exactly(val),
        0 <= f < faces.len(),
        0 < faces[f].len() <= u32::MAX,
    ensures
        mean_of_face(val, faces, values, face_value_row::<S>(faces, values, f)),
{
    let row = face_value_row::<S>(faces, values, f);
    lemma_even_mean(val, row, faces[f].len() as int);
    assert forall|k: int| 0 <= k < row.len() implies value_of_face(faces, values, f, (#[trigger] row[k]).0) by {
        assert(values[row_start(faces, f) + k] == row[k].0);
    }
    assert(reads_face(faces, values, f, row));
}

/// What a refined vertex was made from belongs to face `home`, or is a face.
pub open spec fn belongs(faces: Seq<Seq<u32>>, edges: Seq<EdgeKey>, origin: VertexOrigin, home: int) -> bool {
    match origin {
        VertexOrigin::Vertex(v) => faces[home].contains(v),
        VertexOrigin::Edge(e) => faces[home].contains(edges[e as int].0) || faces[home].contains(edges[e as int].1),
        VertexOrigin::Face(f) => f < faces.len(),
    }
}

/// Where a vertex is a corner of a face, there is a first such corner.
proof fn lemma_first_corner(face: Seq<u32>, v: u32, c: int)
    requires
        0 <= c < face.len(),
        face[c] == v,
    ensures
        exists|p: int| is_corner(face, v, p),
    decreases c,
{
    if exists|p: int| 0 <= p < c && #[trigger] face[p] == v {
        lemma_first_corner(face, v, choose|p: int| 0 <= p < c && #[trigger] face[p] == v);
    } else {
        assert(is_corner(face, v, c));
    }
}

proof fn lemma_value_in_face(faces: Seq<Seq<u32>>, values: Seq<u32>, f: int, v: u32)
    ensures
        value_in_face(faces, values, f, v) is Some <==> faces[f].contains(v),
        value_in_face(faces, values, f, v) is Some ==> value_of_face(
            faces,
            values,
            f,
            value_in_face(faces, values, f, v)->Some_0,
        ),
{
    lemma_corner_at_vertex(faces[f], v);
    if faces[f].contains(v) {
        lemma_first_corner(faces[f], v, faces[f].index_of(v));
    }
    if let Some(c) = corner_at_vertex(faces[f], v) {
        assert(values[row_start(faces, f) + c] == value_in_face(faces, values, f, v)->Some_0);
    }
}

/// In the linear mode a refined value is a mean of values of one face, where the
/// vertex was made from something of its parent face.
pub proof fn linear_values_are_means<S: Scalar>(
    val: spec_fn(S) -> real,
    faces: Seq<Seq<u32>>,
    values: Seq<u32>,
    edges: Seq<EdgeKey>,
    origin: VertexOrigin,
    home: int,
)
    requires
        reads_exactly(val),
        0 <= home < faces.len(),
        forall|f: int| 0 <= f < faces.len() ==> 0 < (#[trigger] faces[f]).len() <= u32::MAX,
        belongs(faces, edges, origin, home),
    ensures
        mean_of_face(val, faces, values, linear_row::<S>(faces, values, edges, origin, home)),
{
    match origin {
        VertexOrigin::Vertex(v) => {
            lemma_value_in_face(faces, values, home, v);
            lemma_copy_mean(val, faces, values, home, value_in_face(faces, values, home, v)->Some_0);
        },
        VertexOrigin::Edge(e) => {
            let (a, b) = edges[e as int];
            lemma_value_in_face(faces, values, home, a);
            lemma_value_in_face(faces, values, home, b);
            match (value_in_face(faces, values, home, a), value_in_face(faces, values, home, b)) {
                (Some(x), Some(y)) => {
                    lemma_pair_mean::<S>(val, faces, values, home, x, y);
                    assert(edge_value_row::<S>(faces, values, (a, b), home) =~= midpoint_row::<S>((x, y)));
                },
                (Some(x), None) => {
                    lemma_copy_mean(val, faces, values, home, x);
                },
                (None, Some(y)) => {
                    lemma_copy_mean(val, faces, values, home, y);
                },
                (None, None) => {},
            }
        },
        VertexOrigin::Face(f) => {
            assert(0 < faces[f as int].len() <= u32::MAX);
            lemma_face_mean::<S>(val, faces, values, f as int);
        },
    }
}

/// In the linear mode of the Catmull-Clark scheme every refined value is a mean of
/// values of one face.
#[verifier::rlimit(60)]
pub proof fn catmull_clark_linear_values_are_means<S: Scalar>(
    val: spec_fn(S) -> real,
    level: LevelData<S>,
    values: Seq<u32>,
    i: int,
)
    requires
        reads_exactly(val),
        level.wf(),
        0 <= i < cc_linear_rows(level, values).len(),
    ensures
        mean_of_face(val, level.topo.faces@, values, cc_linear_rows(level, values)[i]),
{
    let faces = level.topo.faces@;
    let rows = Seq::new(faces.len(), |f: int| face_value_rows::<S>(faces, values, level.face_selected@, f));
    let (f, k) = lemma_flat_locate(rows, i);
    crate::csr::lemma_row_within_flat(faces, f);
    assert(faces[f].len() >= 3);
    let n = faces[f].len() as int;
    let start = row_start(faces, f);
    if level.face_selected@[f] {
        let quads = Seq::new(faces[f].len(), |c: int| quad_value_rows::<S>(faces, values, f, c));
        let (c, m) = lemma_flat_locate(quads, k);
        let own = values[start + c];
        assert(value_of_face(faces, values, f, own));
        let p = prev_corner(c, n);
        let q = next_corner(c, n);
        assert(values[start + p] == values[start + p] && 0 <= p < n);
        assert(values[start + q] == values[start + q] && 0 <= q < n);
        assert(value_of_face(faces, values, f, values[start + p]));
        assert(value_of_face(faces, values, f, values[start + q]));
        lemma_face_mean::<S>(val, faces, values, f);
        lemma_pair_mean::<S>(val, faces, values, f, values[start + p], own);
        lemma_copy_mean::<S>(val, faces, values, f, own);
        lemma_pair_mean::<S>(val, faces, values, f, own, values[start + q]);
        assert(quads[c][m] == rows[f][k]);
    } else {
        assert(value_of_face(faces, values, f, values[start + k]));
        lemma_copy_mean::<S>(val, faces, values, f, values[start + k]);
    }
}

/// The corners of child `j` of a triangle belong to it.
proof fn lemma_loop_corner(p: LoopParent, sel: Seq<bool>, f: int, j: int, k: int)
    requires
        p.refined_vertex_count() <= u32::MAX,
        0 <= f < p.faces.len(),
        0 <= j < loop_children(p, sel, f).len(),
        0 <= k < loop_children(p, sel, f)[j].len(),
        all_below(p.faces[f], p.vertex_count as int),
        sel[f] ==> p.faces[f].len() == 3 && forall|c: int|
            0 <= c < 3 ==> (#[trigger] p.face_edges[f][c]) < p.edges.len() && p.edges[p.face_edges[f][c] as int]
                == face_keys(p.faces[f])[c],
    ensures
        loop_children(p, sel, f)[j][k] < loop_origins(p).len(),
        belongs(p.faces, p.edges, loop_origins(p)[loop_children(p, sel, f)[j][k] as int], f),
{
    let face = p.faces[f];
    let cv = loop_children(p, sel, f)[j][k];
    if sel[f] {
        let fe = p.face_edges[f];
        if j < 3 && k == 0 {
            assert(face[j] < p.vertex_count);
            assert(cv == p.edges.len() + face[j]);
            assert(face.contains(face[j]));
        } else {
            let c: int = if j == 3 {
                k
            } else if k == 1 {
                j
            } else {
                prev_corner(j, 3)
            };
            assert(cv == fe[c]);
            let d = next_corner(c, 3);
            assert(face_keys(face)[c] == edge_key_of(face[c], face[d]));
            assert(face.contains(face[c]) && face.contains(face[d]));
        }
    } else {
        assert(face[k] < p.vertex_count);
        assert(cv == p.edges.len() + face[k]);
        assert(face.contains(face[k]));
    }
}

/// What the corners of the faces of a Loop refinement were made from belongs to the
/// faces that they lie in.
#[verifier::rlimit(60)]
proof fn lemma_loop_belongs<S: Scalar>(
    options: SchemeOptions,
    boundary_crease: S,
    parent: LevelData<S>,
    child: LevelData<S>,
    q: int,
    k: int,
)
    requires
        loop_wf(parent),
        loop_refines(parent, options, boundary_crease, child),
        0 <= q < child.topo.faces@.len(),
        0 <= k < child.topo.faces@[q].len(),
    ensures
        child.lineage.face_parent@[q] < parent.topo.faces@.len(),
        belongs(
            parent.topo.faces@,
            parent.topo.edges(),
            child.lineage.vertex_origin@[child.topo.faces@[q][k] as int],
            child.lineage.face_parent@[q] as int,
        ),
{
    let p = loop_parent_of(parent.topo, parent.n());
    let sel = parent.face_selected@;
    let rows = loop_child_rows(p, sel);
    assert(child.topo.faces@ == flat(rows) && child.lineage.face_parent@ == corner_faces(rows)
        && child.lineage.vertex_origin@ == loop_origins(p) && p.refined_vertex_count() <= u32::MAX);
    assert(p.faces.len() <= u32::MAX);
    let (f, j) = lemma_flat_locate(rows, q);
    lemma_same_starts(rows, owner_rows(rows), f);
    lemma_flat_at(owner_rows(rows), f, j);
    assert(corner_faces(rows)[q] == f as u32);
    assert(all_below(p.faces[f], p.vertex_count as int));
    assert(sel[f] ==> p.faces[f].len() == 3 && forall|c: int|
        0 <= c < 3 ==> (#[trigger] p.face_edges[f][c]) < p.edges.len() && p.edges[p.face_edges[f][c] as int]
            == face_keys(p.faces[f])[c]) by {
        if sel[f] {
            assert(parent.topo.faces@[f].len() == 3);
            assert(parent.topo.face_edges@[f].len() == 3);
            assert(all_below(parent.topo.face_edges@[f], parent.topo.edges().len() as int));
            assert forall|c: int| 0 <= c < 3 implies (#[trigger] p.face_edges[f][c]) < p.edges.len()
                && p.edges[p.face_edges[f][c] as int] == face_keys(p.faces[f])[c] by {
                assert(parent.topo.edges()[parent.topo.face_edges@[f][c] as int] == face_keys(
                    parent.topo.faces@[f],
                )[c]);
            }
        }
    }
    lemma_loop_corner(p, sel, f, j, k);
}

/// In the linear mode of the Loop scheme every refined value is a mean of values of
/// one face.
pub proof fn loop_linear_values_are_means<S: Scalar>(
    val: spec_fn(S) -> real,
    options: SchemeOptions,
    boundary_crease: S,
    parent: LevelData<S>,
    child: LevelData<S>,
    values: Seq<u32>,
    q: int,
    k: int,
)
    requires
        reads_exactly(val),
        loop_wf(parent),
        loop_refines(parent, options, boundary_crease, child),
        0 <= q < child.topo.faces@.len(),
        0 <= k < child.topo.faces@[q].len(),
    ensures
        mean_of_face(
            val,
            parent.topo.faces@,
            values,
            linear_row::<S>(
                parent.topo.faces@,
                values,
                parent.topo.edges(),
                child.lineage.vertex_origin@[child.topo.faces@[q][k] as int],
                child.lineage.face_parent@[q] as int,
            ),
        ),
{
    lemma_loop_belongs(options, boundary_crease, parent, child, q, k);
    assert forall|f: int| 0 <= f < parent.topo.faces@.len() implies 0 < (#[trigger] parent.topo.faces@[f]).len()
        <= u32::MAX by {
        crate::csr::lemma_row_within_flat(parent.topo.faces@, f);
    }
    linear_values_are_means(
        val,
        parent.topo.faces@,
        values,
        parent.topo.edges(),
        child.lineage.vertex_origin@[child.topo.faces@[q][k] as int],
        child.lineage.face_parent@[q] as int,
    );
}

/// In the linear mode of the Doo-Sabin scheme every refined value is the value of
/// the corner that the refined vertex is.
pub proof fn doo_sabin_linear_values_are_copies<S: Scalar>(
    val: spec_fn(S) -> real,
    faces: Seq<Seq<u32>>,
    child_verts: Seq<u32>,
    values: Seq<u32>,
    i: int,
)
    requires
        reads_exactly(val),
        0 <= i < child_verts.len(),
        child_verts[i] < flat(faces).len(),
    ensures
        ds_linear_rows::<S>(child_verts, values)[i] == identity_row::<S>(values[child_verts[i] as int]),
        mean_of_face(val, faces, values, ds_linear_rows::<S>(child_verts, values)[i]),
{
    let cv = child_verts[i] as int;
    let (f, c) = lemma_flat_locate(faces, cv);
    assert(values[row_start(faces, f) + c] == values[cv]);
    assert(value_of_face(faces, values, f, values[cv]));
    lemma_copy_mean::<S>(val, faces, values, f, values[cv]);
}

/// From the second level on a channel has a value of its own at each corner, so
/// every edge between two faces is a seam and nothing is smoothed across it.
pub proof fn values_of_their_own_make_seams(faces: Seq<Seq<u32>>, edge: EdgeKey)
    requires
        faces.len() <= u32::MAX,
        flat(faces).len() <= u32::MAX,
        meeting(faces, edge).len() >= 2 ==> meeting(faces, edge)[0] != meeting(faces, edge)[1],
    ensures
        is_seam(faces, numbers(flat(faces).len()), edge),
{
    reveal(is_seam);
    let values = numbers(flat(faces).len());
    let fs = meeting(faces, edge);
    if fs.len() >= 2 {
        let keys = corner_keys(faces);
        let owners = corner_faces(faces);
        lemma_corner_counts(faces);
        let n = keys.len() as int;
        assert(keys.take(n) =~= keys);
        assert(owners.take(n) =~= owners);
        lemma_meeting(faces, keys, owners, edge, n, 0);
        lemma_meeting(faces, keys, owners, edge, n, 1);
        let a = fs[0] as int;
        let b = fs[1] as int;
        lemma_value_in_face(faces, values, a, edge.0);
        lemma_value_in_face(faces, values, b, edge.0);
        lemma_corner_at_vertex(faces[a], edge.0);
        lemma_corner_at_vertex(faces[b], edge.0);
        let c = corner_at_vertex(faces[a], edge.0)->Some_0;
        let d = corner_at_vertex(faces[b], edge.0)->Some_0;
        lemma_flat_row(faces, a);
        lemma_flat_row(faces, b);
        if a < b {
            lemma_row_start_monotone(faces, a + 1, b);
        } else {
            lemma_row_start_monotone(faces, b + 1, a);
        }
        assert(values[row_start(faces, a) + c] == (row_start(faces, a) + c) as u32);
        assert(values[row_start(faces, b) + d] == (row_start(faces, b) + d) as u32);
    }
}

} // verus!
