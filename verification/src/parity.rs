//! Channels that carry the vertices themselves.

use crate::connectivity::{
    corner_faces, corner_keys, edge_key_of, face_keys, key_rows, lemma_flat_at, next_corner, owner_rows,
};
use crate::doo_sabin::face_varying::{ds_smooth_row, own_value, smooth_rows_stay_in_their_face};
use crate::face_varying::{
    at_key, chart_value, child_fits, is_seam, meeting, remapped, seam_ends, seam_vertex_row, seams_of, smooth_rows,
    smoothing_of, value_in_face, vertex_channel_follows_vertices, vertex_channel_has_no_inner_seams,
};
use crate::hashing::EdgeKey;
use crate::incidence::lemma_flat_locate;
use crate::level::LevelData;
use crate::options::FaceVaryingInterpolation;
use crate::output::VertexOrigin;
use crate::rows::{flat, row_start};
use crate::scalar::{one_of, Scalar};
use crate::sharpness::{crease_row, decremented, infinite_of, positive, sharp_list, sharp_row};
use crate::stencil::{accumulated, first_entry, merged};
use crate::unity::value;
use crate::weights::{lemma_one, reads_exactly};
use vstd::prelude::*;

verus! {

/// No edge of a face is on a boundary.
pub open spec fn closed_faces(faces: Seq<Seq<u32>>, edges: Seq<EdgeKey>) -> bool {
    forall|e: int| 0 <= e < edges.len() ==> meeting(faces, #[trigger] edges[e]).len() >= 2
}

/// The faces that meet at an edge have both its ends.
pub(crate) proof fn lemma_meeting(
    faces: Seq<Seq<u32>>,
    keys: Seq<EdgeKey>,
    owners: Seq<u32>,
    key: EdgeKey,
    n: int,
    k: int,
)
    requires
        0 <= n <= keys.len(),
        keys == corner_keys(faces),
        owners == corner_faces(faces),
        keys.len() == owners.len(),
        faces.len() <= u32::MAX,
        0 <= k < at_key(keys.take(n), owners.take(n), key).len(),
    ensures
        ({
            let f = at_key(keys.take(n), owners.take(n), key)[k] as int;
            0 <= f < faces.len() && faces[f].contains(key.0) && faces[f].contains(key.1)
        }),
    decreases n,
{
    let a = keys.take(n);
    let b = owners.take(n);
    assert(a.drop_last() =~= keys.take(n - 1));
    assert(b.drop_last() =~= owners.take(n - 1));
    let front = at_key(a.drop_last(), b.drop_last(), key);
    if k < front.len() {
        lemma_meeting(faces, keys, owners, key, n - 1, k);
    } else {
        let rows = key_rows(faces);
        let (f, c) = lemma_flat_locate(rows, n - 1);
        assert(rows[f] == face_keys(faces[f]));
        let m = faces[f].len() as int;
        let d = next_corner(c, m);
        assert(keys[n - 1] == edge_key_of(faces[f][c], faces[f][d]));
        assert(faces[f].contains(faces[f][c]) && faces[f].contains(faces[f][d]));
        crate::connectivity::lemma_same_starts(rows, owner_rows(faces), f);
        lemma_flat_at(owner_rows(faces), f, c);
        assert(owners[n - 1] == f as u32);
    }
}

/// In a closed mesh the channel of the vertices has no seams.
pub proof fn closed_vertex_channel_has_no_seams(faces: Seq<Seq<u32>>, edges: Seq<EdgeKey>, e: int)
    requires
        faces.len() <= u32::MAX,
        closed_faces(faces, edges),
        0 <= e < edges.len(),
    ensures
        !is_seam(faces, flat(faces), edges[e]),
{
    let keys = corner_keys(faces);
    let owners = corner_faces(faces);
    crate::connectivity::lemma_corner_counts(faces);
    let n = keys.len() as int;
    assert(keys.take(n) =~= keys);
    assert(owners.take(n) =~= owners);
    assert(meeting(faces, edges[e]).len() >= 2);
    assert forall|k: int| 0 <= k < 2 implies (#[trigger] meeting(faces, edges[e])[k]) < faces.len()
        && faces[meeting(faces, edges[e])[k] as int].contains(edges[e].0) && faces[meeting(
        faces,
        edges[e],
    )[k] as int].contains(edges[e].1) by {
        lemma_meeting(faces, keys, owners, edges[e], n, k);
    }
    vertex_channel_has_no_inner_seams(faces, edges[e]);
}

proof fn lemma_no_seam_ends(edges: Seq<EdgeKey>, seams: Seq<bool>, v: u32)
    requires
        seams.len() == edges.len(),
        forall|e: int| 0 <= e < seams.len() ==> !(#[trigger] seams[e]),
    ensures
        seam_ends(edges, seams, v).len() == 0,
    decreases edges.len(),
{
    if edges.len() > 0 {
        assert(!seams[seams.len() - 1]);
        let front = seams.drop_last();
        assert forall|e: int| 0 <= e < front.len() implies !(#[trigger] front[e]) by {
            assert(!seams[e]);
        }
        lemma_no_seam_ends(edges.drop_last(), front, v);
    }
}

/// On a closed mesh a smooth channel that carries the vertices themselves is
/// refined as the vertices are: every refined corner gets the stencil of its
/// vertex.
pub proof fn closed_vertex_channel_follows_vertices<S: Scalar>(
    parent: LevelData<S>,
    child: LevelData<S>,
    rows: Seq<Seq<(u32, S)>>,
    mode: FaceVaryingInterpolation,
    f: int,
    k: int,
)
    requires
        parent.wf(),
        child_fits(parent, child, rows.len()),
        closed_faces(parent.topo.faces@, parent.topo.edges()),
        0 <= f < child.topo.faces@.len(),
        0 <= k < child.topo.faces@[f].len(),
    ensures
        smooth_rows(parent, child, flat(parent.topo.faces@), rows, mode)[row_start(child.topo.faces@, f) + k]
            == remapped(rows[child.topo.faces@[f][k] as int], |u: u32| u),
{
    let faces = parent.topo.faces@;
    let edges = parent.topo.edges();
    let values = flat(faces);
    let m = smoothing_of(parent, values, rows, mode);
    let cv = child.topo.faces@[f][k] as int;
    let home = child.lineage.face_parent@[f] as int;
    let origin = child.lineage.vertex_origin@[cv];
    let row = |cv: int, home: int| m.row(child.lineage.vertex_origin@[cv], cv, home);
    let lists = Seq::new(
        child.topo.faces@.len(),
        |f: int|
            Seq::new(
                child.topo.faces@[f].len(),
                |k: int| row(child.topo.faces@[f][k] as int, child.lineage.face_parent@[f] as int),
            ),
    );
    lemma_flat_at(lists, f, k);
    crate::connectivity::lemma_same_starts(lists, child.topo.faces@, f);
    assert(lists[f][k] == m.row(origin, cv, home));
    assert(m.seams() == seams_of(faces, values, edges));
    assert forall|e: int| 0 <= e < m.seams().len() implies !(#[trigger] m.seams()[e]) by {
        closed_vertex_channel_has_no_seams(faces, edges, e);
    }
    assert(child.topo.faces@[f].len() >= 3);
    assert(child.topo.faces@[f][k] < child.n());
    assert(child.lineage.face_parent@[f] < faces.len());
    match origin {
        VertexOrigin::Vertex(v) => {
            lemma_no_seam_ends(edges, m.seams(), v);
        },
        _ => {},
    }
    vertex_channel_follows_vertices(m, origin, cv, home);
}

// ---------------------------------------------------------------------------
// Values
// ---------------------------------------------------------------------------
proof fn lemma_value_updated<S: Scalar>(
    val: spec_fn(S) -> real,
    x: spec_fn(u32) -> real,
    row: Seq<(u32, S)>,
    p: int,
    w: S,
)
    requires
        reads_exactly(val),
        0 <= p < row.len(),
    ensures
        value(val, x, row.update(p, (row[p].0, S::plus_of(row[p].1, w)))) == value(val, x, row) + val(w) * x(row[p].0),
    decreases row.len(),
{
    let more = row.update(p, (row[p].0, S::plus_of(row[p].1, w)));
    let front = row.drop_last();
    let z = x(row[p].0);
    let a = val(row[p].1);
    let b = val(w);
    if p == row.len() - 1 {
        assert(more.drop_last() =~= front);
        assert(val(S::plus_of(row[p].1, w)) == a + b);
        assert((a + b) * z == a * z + b * z) by (nonlinear_arith);
    } else {
        assert(more.drop_last() =~= front.update(p, (front[p].0, S::plus_of(front[p].1, w))));
        lemma_value_updated(val, x, front, p, w);
    }
}

pub(crate) proof fn lemma_value_accumulated<S: Scalar>(
    val: spec_fn(S) -> real,
    x: spec_fn(u32) -> real,
    row: Seq<(u32, S)>,
    i: u32,
    w: S,
)
    requires
        reads_exactly(val),
    ensures
        value(val, x, accumulated(row, i, w)) == value(val, x, row) + val(w) * x(i),
{
    if exists|p: int| first_entry(row, i, p) {
        let p = choose|p: int| first_entry(row, i, p);
        lemma_value_updated(val, x, row, p, w);
    } else {
        assert(row.push((i, w)).drop_last() =~= row);
    }
}

/// A remapped row gives of the new indices what the row gives of the old ones,
/// unless arithmetic rounds.
pub proof fn remapped_rows_keep_their_value<S: Scalar>(
    val: spec_fn(S) -> real,
    x: spec_fn(u32) -> real,
    y: spec_fn(u32) -> real,
    row: Seq<(u32, S)>,
    map: spec_fn(u32) -> u32,
)
    requires
        reads_exactly(val),
        forall|k: int| 0 <= k < row.len() ==> y(map((#[trigger] row[k]).0)) == x(row[k].0),
    ensures
        value(val, y, remapped(row, map)) == value(val, x, row),
    decreases row.len(),
{
    if row.len() > 0 {
        let front = row.drop_last();
        let (u, w) = row.last();
        assert forall|k: int| 0 <= k < front.len() implies y(map((#[trigger] front[k]).0)) == x(front[k].0) by {
            assert(front[k] == row[k]);
        }
        assert(y(map(row[row.len() - 1].0)) == x(row[row.len() - 1].0));
        remapped_rows_keep_their_value(val, x, y, front, map);
        lemma_one::<S>(val);
        let one = one_of::<S>();
        let src = seq![(map(u), one)];
        let before = remapped(front, map);
        assert(src.drop_last() =~= Seq::<(u32, S)>::empty());
        assert(merged(before, src.drop_last(), w) == before);
        assert(remapped(row, map) == accumulated(before, map(u), S::times_of(w, one)));
        lemma_value_accumulated(val, y, before, map(u), S::times_of(w, one));
        let a = val(w);
        assert(val(S::times_of(w, one)) == a * (1 as real));
        assert(a * (1 as real) == a) by (nonlinear_arith);
    }
}

/// In the Doo-Sabin scheme a channel without seams is refined as the vertices are:
/// where the value at each corner of a face stands for the vertex there, a smooth
/// row over vertices of the face gives what the stencil of the vertex gives.
pub proof fn doo_sabin_channel_follows_vertices<S: Scalar>(
    val: spec_fn(S) -> real,
    x: spec_fn(u32) -> real,
    y: spec_fn(u32) -> real,
    faces: Seq<Seq<u32>>,
    values: Seq<u32>,
    rows: Seq<Seq<(u32, S)>>,
    cv: int,
)
    requires
        reads_exactly(val),
        faces.len() <= u32::MAX,
        flat(faces).len() <= values.len(),
        0 <= cv < flat(faces).len(),
        forall|i: int| 0 <= i < flat(faces).len() ==> y(#[trigger] values[i]) == x(flat(faces)[i]),
        forall|k: int|
            0 <= k < rows[cv].len() ==> faces[corner_faces(faces)[cv] as int].contains((#[trigger] rows[cv][k]).0),
    ensures
        value(val, y, ds_smooth_row(faces, values, rows, cv)) == value(val, x, rows[cv]),
{
    let f = corner_faces(faces)[cv] as int;
    let map = |u: u32| own_value(faces, values, f, u);
    crate::connectivity::lemma_corner_counts(faces);
    let (g, c) = lemma_flat_locate(owner_rows(faces), cv);
    assert(0 <= f < faces.len());
    let row = rows[cv];
    assert forall|k: int| 0 <= k < row.len() implies y(map((#[trigger] row[k]).0)) == x(row[k].0) by {
        let u = row[k].0;
        smooth_rows_stay_in_their_face(faces, values, f, u);
        let c = choose|c: int|
            0 <= c < faces[f].len() && faces[f][c] == u && #[trigger] values[row_start(faces, f) + c] == own_value(
                faces,
                values,
                f,
                u,
            );
        lemma_flat_at(faces, f, c);
        assert(y(values[row_start(faces, f) + c]) == x(flat(faces)[row_start(faces, f) + c]));
    }
    remapped_rows_keep_their_value(val, x, y, row, map);
}

/// In the Doo-Sabin scheme a smooth channel that carries the vertices themselves is
/// refined as the vertices are.
pub proof fn doo_sabin_vertex_channel_follows_vertices<S: Scalar>(
    val: spec_fn(S) -> real,
    x: spec_fn(u32) -> real,
    faces: Seq<Seq<u32>>,
    rows: Seq<Seq<(u32, S)>>,
    cv: int,
)
    requires
        reads_exactly(val),
        faces.len() <= u32::MAX,
        0 <= cv < flat(faces).len(),
    ensures
        value(val, x, ds_smooth_row(faces, flat(faces), rows, cv)) == value(val, x, rows[cv]),
{
    let f = corner_faces(faces)[cv] as int;
    let values = flat(faces);
    let map = |u: u32| own_value(faces, values, f, u);
    crate::connectivity::lemma_corner_counts(faces);
    let (g, c) = lemma_flat_locate(owner_rows(faces), cv);
    assert(0 <= f < faces.len());
    let row = rows[cv];
    assert forall|k: int| 0 <= k < row.len() implies x(map((#[trigger] row[k]).0)) == x(row[k].0) by {
        let u = row[k].0;
        crate::rules::lemma_corner_at_vertex(faces[f], u);
        if let Some(c) = crate::rules::corner_at_vertex(faces[f], u) {
            lemma_flat_at(faces, f, c);
        }
    }
    remapped_rows_keep_their_value(val, x, x, row, map);
}

// ---------------------------------------------------------------------------
// Seams and creases
// ---------------------------------------------------------------------------
proof fn lemma_value_appended<S: Scalar>(
    val: spec_fn(S) -> real,
    x: spec_fn(u32) -> real,
    row: Seq<(u32, S)>,
    i: u32,
    w: S,
)
    requires
        reads_exactly(val),
    ensures
        value(val, x, merged(row, seq![(i, w)], one_of())) == value(val, x, row) + val(w) * x(i),
{
    lemma_one::<S>(val);
    let one = one_of::<S>();
    let src = seq![(i, w)];
    assert(src.drop_last() =~= Seq::<(u32, S)>::empty());
    assert(merged(row, src.drop_last(), one) == row);
    assert(merged(row, src, one) == accumulated(row, i, S::times_of(one, w)));
    lemma_value_accumulated(val, x, row, i, S::times_of(one, w));
    let a = val(w);
    assert(val(S::times_of(one, w)) == (1 as real) * a);
    assert((1 as real) * a == a) by (nonlinear_arith);
}

/// Where two seams meet, a smooth channel follows them as the surface follows a
/// crease: if every value stands for the vertex it was found at, the row of the
/// channel gives what the crease rule gives of the vertices.
pub proof fn seams_are_smoothed_as_creases<S: Scalar>(
    val: spec_fn(S) -> real,
    x: spec_fn(u32) -> real,
    y: spec_fn(u32) -> real,
    faces: Seq<Seq<u32>>,
    values: Seq<u32>,
    edges: Seq<EdgeKey>,
    ends: Seq<u32>,
    home: int,
    v: u32,
)
    requires
        reads_exactly(val),
        ends.len() == 2,
        value_in_face(faces, values, home, v) is Some,
        chart_value(faces, values, edges, ends[0], home) is Some,
        chart_value(faces, values, edges, ends[1], home) is Some,
        y(value_in_face(faces, values, home, v)->Some_0) == x(v),
        y(chart_value(faces, values, edges, ends[0], home)->Some_0) == x(ends[0]),
        y(chart_value(faces, values, edges, ends[1], home)->Some_0) == x(ends[1]),
    ensures
        value(
            val,
            y,
            seam_vertex_row::<S>(faces, values, edges, ends, home, v, FaceVaryingInterpolation::Smooth),
        ) == value(val, x, crease_row::<S>(v, ends[0], ends[1])),
{
    let own = value_in_face(faces, values, home, v)->Some_0;
    let a = chart_value(faces, values, edges, ends[0], home)->Some_0;
    let b = chart_value(faces, values, edges, ends[1], home)->Some_0;
    let most = S::ratio_of(3, 4);
    let eighth = S::ratio_of(1, 8);
    let six = S::ratio_of(6, 8);
    let r0 = Seq::<(u32, S)>::empty();
    let r1 = merged(r0, seq![(own, most)], one_of());
    let r2 = merged(r1, seq![(a, eighth)], one_of());
    lemma_value_appended(val, y, r0, own, most);
    lemma_value_appended(val, y, r1, a, eighth);
    lemma_value_appended(val, y, r2, b, eighth);
    let row = crease_row::<S>(v, ends[0], ends[1]);
    let two = row.drop_last();
    let one = two.drop_last();
    assert(two =~= seq![(v, six), (ends[0], eighth)]);
    assert(one =~= seq![(v, six)]);
    assert(one.drop_last() =~= Seq::<(u32, S)>::empty());
    assert(value(val, x, one.drop_last()) == 0 as real);
    assert(value(val, x, one) == val(six) * x(v));
    assert(value(val, x, two) == value(val, x, one) + val(eighth) * x(ends[0]));
    assert(value(val, x, row) == value(val, x, two) + val(eighth) * x(ends[1]));
    assert(val(most) == (3int as real) / (4int as real));
    assert(val(six) == (6int as real) / (8int as real));
    assert(val(most) == val(six));
}

/// A vertex between two edges that stay sharp for good follows the crease rule.
pub proof fn lasting_creases_give_the_crease_rule<S: Scalar>(
    v: u32,
    smooth: Seq<(u32, S)>,
    original: Seq<(u32, S)>,
    corner: S,
    neighbors: Seq<(u32, S)>,
)
    requires
        neighbors.len() == 2,
        positive(infinite_of::<S>()),
        !positive(corner),
        !positive(decremented(corner)),
        positive(neighbors[0].1) && S::at_most_of(infinite_of(), neighbors[0].1),
        positive(neighbors[1].1) && S::at_most_of(infinite_of(), neighbors[1].1),
    ensures
        sharp_row(v, smooth, original, corner, neighbors) == crease_row::<S>(v, neighbors[0].0, neighbors[1].0),
{
    let one = neighbors.drop_last();
    let none = one.drop_last();
    assert(none =~= Seq::<(u32, S)>::empty());
    assert forall|next: bool| #[trigger] sharp_list(neighbors, next) == seq![neighbors[0].0, neighbors[1].0] by {
        assert(sharp_list(none, next) =~= Seq::<u32>::empty());
        assert(sharp_list(one, next) =~= seq![neighbors[0].0]);
        assert(sharp_list(neighbors, next) =~= seq![neighbors[0].0, neighbors[1].0]);
    }
    let now = sharp_list(neighbors, false);
    assert(now.first() == neighbors[0].0 && now.last() == neighbors[1].0);
    assert(sharp_list(neighbors, true).len() == 2);
}

} // verus!
