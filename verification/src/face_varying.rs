//! Stencils for data that differs from face to face around a vertex.

use crate::connectivity::{
    corner_faces, corner_keys, edge_key, face_keys, lemma_corner, lemma_corner_counts, owner_rows, owners_of, pairs,
};
use crate::csr::{starts_of, CsrVec};
use crate::hashing::{edge_map_get, edge_map_insert, edge_map_new, EdgeKey, EdgeMap};
use crate::incidence::{lemma_flat_locate, Topology};
use crate::level::LevelData;
use crate::options::FaceVaryingInterpolation;
use crate::output::VertexOrigin;
use crate::rows::{flat, lemma_flat_row, lemma_flat_take_next, row_start, views};
use crate::rules::{corner_at_vertex, corner_of, lemma_corner_at_vertex};
use crate::scalar::{one, one_of, Scalar};
use crate::stencil::{identity_entry, identity_row, merge, merged};
use crate::topology::all_below;
use vstd::prelude::*;

verus! {

// ---------------------------------------------------------------------------
// Values in faces
// ---------------------------------------------------------------------------
/// The value of vertex `v` in face `f`.
pub open spec fn value_in_face(faces: Seq<Seq<u32>>, values: Seq<u32>, f: int, v: u32) -> Option<u32> {
    match corner_at_vertex(faces[f], v) {
        Some(c) => Some(values[row_start(faces, f) + c]),
        None => None,
    }
}

/// A mesh with the values of a channel at its corners.
pub struct Corners<'a> {
    pub faces: &'a CsrVec,
    pub starts: &'a [u32],
    pub values: &'a [u32],
}

impl<'a> Corners<'a> {
    /// There is a value for each corner.
    #[verifier::opaque]
    pub open spec fn wf(self) -> bool {
        &&& self.faces.packed()
        &&& self.faces@.len() <= u32::MAX
        &&& flat(self.faces@).len() < u32::MAX
        &&& flat(self.faces@).len() <= self.values@.len()
        &&& self.starts@.len() == self.faces@.len() + 1
        &&& forall|f: int| 0 <= f <= self.faces@.len() ==> self.starts@[f] == #[trigger] row_start(self.faces@, f)
    }

    /// The value of vertex `v` in face `f`.
    pub(crate) fn fvar_in_face(&self, f: usize, v: u32) -> (r: Option<u32>)
        requires
            self.wf(),
            f < self.faces@.len(),
        ensures
            r == value_in_face(self.faces@, self.values@, f as int, v),
    {
        reveal(Corners::wf);
        match corner_of(self.faces.row(f), v) {
            Some(c) => {
                proof {
                    crate::connectivity::lemma_flat_at(self.faces@, f as int, c as int);
                    assert(self.starts@[f as int] == row_start(self.faces@, f as int));
                }
                Some(self.values[self.starts[f] as usize + c])
            },
            None => None,
        }
    }
}

// ---------------------------------------------------------------------------
// Seams
// ---------------------------------------------------------------------------
/// The faces of the corners that lie on the edge `key`.
pub open spec fn at_key(keys: Seq<EdgeKey>, owners: Seq<u32>, key: EdgeKey) -> Seq<u32>
    decreases keys.len(),
{
    if keys.len() == 0 {
        Seq::empty()
    } else {
        let front = at_key(keys.drop_last(), owners.drop_last(), key);
        if keys.last() == key {
            front.push(owners.last())
        } else {
            front
        }
    }
}

/// The faces that meet at an edge, once per corner.
pub open spec fn meeting(faces: Seq<Seq<u32>>, key: EdgeKey) -> Seq<u32> {
    at_key(corner_keys(faces), corner_faces(faces), key)
}

/// An edge is a seam if only one face is at it, or if the values of its ends
/// differ between its first two faces.
#[verifier::opaque]
pub open spec fn is_seam(faces: Seq<Seq<u32>>, values: Seq<u32>, edge: EdgeKey) -> bool {
    let fs = meeting(faces, edge);
    !(fs.len() >= 2 && value_in_face(faces, values, fs[0] as int, edge.0) == value_in_face(
        faces,
        values,
        fs[1] as int,
        edge.0,
    ) && value_in_face(faces, values, fs[0] as int, edge.1) == value_in_face(
        faces,
        values,
        fs[1] as int,
        edge.1,
    ))
}

pub open spec fn seams_of(faces: Seq<Seq<u32>>, values: Seq<u32>, edges: Seq<EdgeKey>) -> Seq<bool> {
    edges.map_values(|e: EdgeKey| is_seam(faces, values, e))
}

proof fn lemma_at_key(keys: Seq<EdgeKey>, owners: Seq<u32>, key: EdgeKey, n: int)
    requires
        keys.len() == owners.len(),
        all_below(owners, n),
    ensures
        all_below(at_key(keys, owners, key), n),
        at_key(keys, owners, key).len() <= keys.len(),
    decreases keys.len(),
{
    if keys.len() > 0 {
        assert(all_below(owners.drop_last(), n)) by {
            assert forall|k: int| 0 <= k < owners.drop_last().len() implies (#[trigger] owners.drop_last()[k]) < n by {
                assert(owners[k] < n);
            }
        }
        lemma_at_key(keys.drop_last(), owners.drop_last(), key, n);
        assert(owners[owners.len() - 1] < n);
    }
}

pub proof fn lemma_owners_below(faces: Seq<Seq<u32>>)
    requires
        faces.len() <= u32::MAX,
    ensures
        all_below(corner_faces(faces), faces.len() as int),
{
    let owners = corner_faces(faces);
    assert forall|i: int| 0 <= i < owners.len() implies (#[trigger] owners[i]) < faces.len() by {
        let (f, c) = lemma_flat_locate(owner_rows(faces), i);
    }
}

/// For each edge, the faces that meet at it, under the number that the key
/// table gives it.
fn faces_by_key<S: Scalar>(topo: &Topology<S>, Ghost(n): Ghost<nat>) -> (r: Vec<Vec<u32>>)
    requires
        topo.sound(n),
    ensures
        r@.len() == topo.edges().len(),
        forall|k: EdgeKey| #[trigger]
            topo.edge_key_to_index@.contains_key(k) ==> r@[topo.edge_key_to_index@[k] as int]@ == meeting(
                topo.faces@,
                k,
            ),
{
    let ghost faces = topo.faces@;
    let ghost keys = corner_keys(faces);
    let ghost owners = corner_faces(faces);
    let ghost table = topo.edge_key_to_index@;
    let ghost edges = topo.edges();
    let mut rows: Vec<Vec<u32>> = Vec::new();
    let mut e: usize = 0;
    while e < topo.edge_vertices.len()
        invariant
            e <= topo.edge_vertices@.len(),
            rows@.len() == e,
            forall|j: int| 0 <= j < e ==> (#[trigger] rows@[j])@ == Seq::<u32>::empty(),
        decreases topo.edge_vertices@.len() - e,
    {
        rows.push(Vec::new());
        assert(rows@[e as int]@ =~= Seq::<u32>::empty());
        e += 1;
    }
    proof {
        lemma_corner_counts(faces);
        assert(keys.take(0) =~= Seq::<EdgeKey>::empty());
        assert(owners.take(0) =~= Seq::<u32>::empty());
        assert(faces.take(0) =~= Seq::<Seq<u32>>::empty());
    }
    let ghost mut p: int = 0;
    let mut f: usize = 0;
    while f < topo.faces.len()
        invariant
            topo.sound(n),
            faces == topo.faces@,
            keys == corner_keys(faces),
            owners == corner_faces(faces),
            table == topo.edge_key_to_index@,
            edges == topo.edges(),
            f <= faces.len(),
            p == row_start(faces, f as int),
            rows@.len() == edges.len(),
            forall|k: EdgeKey| #[trigger]
                table.contains_key(k) ==> rows@[table[k] as int]@ == at_key(keys.take(p), owners.take(p), k),
        decreases faces.len() - f,
    {
        let face: &[u32] = topo.faces.row(f);
        assert(faces[f as int].len() >= 3);
        assert(topo.face_edges@[f as int].len() == faces[f as int].len());
        let mut c: usize = 0;
        while c < face.len()
            invariant
                faces == topo.faces@,
                keys == corner_keys(faces),
                owners == corner_faces(faces),
                table == topo.edge_key_to_index@,
                edges == topo.edges(),
                crate::connectivity::key_table(edges, table),
                f < faces.len() <= u32::MAX,
                face@ == faces[f as int],
                face@.len() >= 3,
                forall|c: int|
                    0 <= c < face@.len() ==> (#[trigger] topo.face_edges@[f as int][c]) < edges.len()
                        && edges[topo.face_edges@[f as int][c] as int] == face_keys(face@)[c],
                c <= face@.len(),
                p == row_start(faces, f as int) + c,
                rows@.len() == edges.len(),
                forall|k: EdgeKey| #[trigger]
                    table.contains_key(k) ==> rows@[table[k] as int]@ == at_key(keys.take(p), owners.take(p), k),
            decreases face@.len() - c,
        {
            let a: u32 = face[c];
            let b: u32 = if c + 1 == face.len() {
                face[0]
            } else {
                face[c + 1]
            };
            let key: EdgeKey = edge_key(a, b);
            proof {
                lemma_corner(faces, f as int, c as int);
                let id = topo.face_edges@[f as int][c as int] as int;
                assert(edges[id] == key);
                assert(table.contains_key(edges[id]));
                assert(keys[p] == key);
                assert(owners[p] == f as u32);
                assert(keys.take(p + 1).drop_last() =~= keys.take(p));
                assert(owners.take(p + 1).drop_last() =~= owners.take(p));
            }
            match edge_map_get(&topo.edge_key_to_index, key) {
                Some(at) => {
                    let ghost before = rows@;
                    rows[at].push(f as u32);
                    proof {
                        assert forall|k: EdgeKey| #[trigger] table.contains_key(k) implies rows@[table[k] as int]@
                            == at_key(keys.take(p + 1), owners.take(p + 1), k) by {
                            assert(before[table[k] as int]@ == at_key(keys.take(p), owners.take(p), k));
                            if k != key {
                                assert(edges[table[k] as int] == k);
                                assert(edges[at as int] == key);
                            }
                        }
                    }
                },
                None => {},
            }
            proof {
                p = p + 1;
            }
            c += 1;
        }
        proof {
            lemma_flat_row(faces, f as int);
        }
        f += 1;
    }
    proof {
        assert(faces.take(f as int) =~= faces);
        assert(keys.take(p) =~= keys);
        assert(owners.take(p) =~= owners);
    }
    rows
}

/// The faces that meet at each edge.
fn meeting_rows<S: Scalar>(topo: &Topology<S>, Ghost(n): Ghost<nat>) -> (r: Vec<Vec<u32>>)
    requires
        topo.sound(n),
    ensures
        r@.len() == topo.edges().len(),
        forall|e: int| 0 <= e < r@.len() ==> (#[trigger] r@[e])@ == meeting(topo.faces@, topo.edges()[e]),
{
    let rows: Vec<Vec<u32>> = faces_by_key(topo, Ghost(n));
    let mut out: Vec<Vec<u32>> = Vec::new();
    let mut e: usize = 0;
    while e < topo.edge_vertices.len()
        invariant
            topo.sound(n),
            e <= topo.edges().len(),
            rows@.len() == topo.edges().len(),
            forall|k: EdgeKey| #[trigger]
                topo.edge_key_to_index@.contains_key(k) ==> rows@[topo.edge_key_to_index@[k] as int]@ == meeting(
                    topo.faces@,
                    k,
                ),
            out@.len() == e,
            forall|j: int| 0 <= j < e ==> (#[trigger] out@[j])@ == meeting(topo.faces@, topo.edges()[j]),
        decreases topo.edges().len() - e,
    {
        let ghost edge = topo.edges()[e as int];
        assert(edge.0 < edge.1);
        assert(topo.edge_key_to_index@.contains_key(edge));
        let key: EdgeKey = (topo.edge_vertices[e][0], topo.edge_vertices[e][1]);
        assert(key == edge);
        let row: Vec<u32> = match edge_map_get(&topo.edge_key_to_index, key) {
            Some(at) => crate::csr::copied(&rows[at]),
            None => Vec::new(),
        };
        out.push(row);
        e += 1;
    }
    out
}

/// Whether an edge with the given faces is a seam.
fn seam_at(corners: &Corners, fs: &[u32], v0: u32, v1: u32) -> (r: bool)
    requires
        corners.wf(),
        fs@ == meeting(corners.faces@, (v0, v1)),
    ensures
        r == is_seam(corners.faces@, corners.values@, (v0, v1)),
{
    reveal(Corners::wf);
    reveal(is_seam);
    if fs.len() < 2 {
        return true;
    }
    proof {
        let faces = corners.faces@;
        lemma_owners_below(faces);
        lemma_corner_counts(faces);
        lemma_at_key(corner_keys(faces), corner_faces(faces), (v0, v1), faces.len() as int);
        assert(fs@[0] < faces.len() && fs@[1] < faces.len());
    }
    let f0: usize = fs[0] as usize;
    let f1: usize = fs[1] as usize;
    let same_0: bool = same_value(corners.fvar_in_face(f0, v0), corners.fvar_in_face(f1, v0));
    let same_1: bool = same_value(corners.fvar_in_face(f0, v1), corners.fvar_in_face(f1, v1));
    !(same_0 && same_1)
}

/// Which edges are seams.
pub(crate) fn detect_seams(
    edges: &[[u32; 2]],
    meetings: &[Vec<u32>],
    corners: &Corners,
) -> (r: Vec<bool>)
    requires
        corners.wf(),
        meetings@.len() == edges@.len(),
        forall|e: int|
            0 <= e < edges@.len() ==> (#[trigger] meetings@[e])@ == meeting(corners.faces@, pairs(edges@)[e]),
    ensures
        r@ == seams_of(corners.faces@, corners.values@, pairs(edges@)),
{
    let ghost faces = corners.faces@;
    let ghost values = corners.values@;
    let ghost pe = pairs(edges@);
    let mut out: Vec<bool> = Vec::new();
    let mut e: usize = 0;
    while e < edges.len()
        invariant
            e <= edges.len(),
            corners.wf(),
            faces == corners.faces@,
            values == corners.values@,
            pe == pairs(edges@),
            meetings@.len() == edges@.len(),
            forall|e: int| 0 <= e < edges@.len() ==> (#[trigger] meetings@[e])@ == meeting(faces, pe[e]),
            out@.len() == e,
            forall|j: int| 0 <= j < e ==> #[trigger] out@[j] == is_seam(faces, values, pe[j]),
        decreases edges.len() - e,
    {
        let fs: &Vec<u32> = &meetings[e];
        let v0: u32 = edges[e][0];
        let v1: u32 = edges[e][1];
        proof {
            assert(pe[e as int] == (v0, v1));
            assert(fs@ == meeting(faces, pe[e as int]));
        }
        out.push(seam_at(corners, fs, v0, v1));
        e += 1;
    }
    assert(out@ =~= seams_of(faces, values, pe));
    out
}

fn same_value(a: Option<u32>, b: Option<u32>) -> (r: bool)
    ensures
        r == (a == b),
{
    match (a, b) {
        (Some(x), Some(y)) => x == y,
        (None, None) => true,
        _ => false,
    }
}

// ---------------------------------------------------------------------------
// Charts
// ---------------------------------------------------------------------------
/// One of the first `k` edges joins faces `a` and `b`: it is no seam, and they
/// are the two faces at it.
pub open spec fn joined(
    faces: Seq<Seq<u32>>,
    values: Seq<u32>,
    edges: Seq<EdgeKey>,
    k: int,
    a: int,
    b: int,
) -> bool {
    exists|e: int| #[trigger] joins(faces, values, edges, e, a, b) && 0 <= e < k
}

/// Edge `e` joins faces `a` and `b`.
pub open spec fn joins(
    faces: Seq<Seq<u32>>,
    values: Seq<u32>,
    edges: Seq<EdgeKey>,
    e: int,
    a: int,
    b: int,
) -> bool {
    let fs = meeting(faces, edges[e]);
    &&& fs.len() == 2
    &&& !is_seam(faces, values, edges[e])
    &&& (fs[0] == a && fs[1] == b) || (fs[0] == b && fs[1] == a)
}

/// A path of faces, each joined to the next by one of the first `k` edges.
pub open spec fn is_path(
    faces: Seq<Seq<u32>>,
    values: Seq<u32>,
    edges: Seq<EdgeKey>,
    k: int,
    path: Seq<int>,
    a: int,
    b: int,
) -> bool {
    &&& path.len() > 0
    &&& path[0] == a
    &&& path.last() == b
    &&& forall|i: int|
        #![trigger path[i]]
        0 <= i < path.len() - 1 ==> joined(faces, values, edges, k, path[i], path[i + 1])
}

/// Faces `a` and `b` are connected across the first `k` edges.
pub open spec fn connected(
    faces: Seq<Seq<u32>>,
    values: Seq<u32>,
    edges: Seq<EdgeKey>,
    k: int,
    a: int,
    b: int,
) -> bool {
    exists|path: Seq<int>| #[trigger] is_path(faces, values, edges, k, path, a, b)
}

/// Faces `a` and `b` lie in one chart: they are connected without crossing a
/// seam.
pub open spec fn same_chart(faces: Seq<Seq<u32>>, values: Seq<u32>, edges: Seq<EdgeKey>, a: int, b: int) -> bool {
    connected(faces, values, edges, edges.len() as int, a, b)
}

/// A forest of parent links: `rep` is the root of each node, and `rank` grows
/// along the links, up to `top`.
spec fn forest(uf: Seq<usize>, rep: Seq<int>, rank: Seq<int>, top: int) -> bool {
    &&& rep.len() == uf.len()
    &&& rank.len() == uf.len()
    &&& forall|i: int|
        0 <= i < uf.len() ==> (#[trigger] uf[i]) < uf.len() && rep[uf[i] as int] == rep[i] && (uf[i] == i <==> rep[i]
            == i) && (uf[i] != i ==> rank[i] < rank[uf[i] as int]) && rank[i] <= top && 0 <= rep[i] < uf.len()
            && rep[rep[i]] == rep[i]
}

/// The root of a node; halves the path to it.
fn uf_find(uf: &mut Vec<usize>, start: usize, Ghost(rep): Ghost<Seq<int>>, Ghost(rank): Ghost<Seq<int>>, Ghost(
    top,
): Ghost<int>) -> (r: usize)
    requires
        forest(old(uf)@, rep, rank, top),
        start < old(uf)@.len(),
    ensures
        forest(final(uf)@, rep, rank, top),
        final(uf)@.len() == old(uf)@.len(),
        r == rep[start as int],
{
    let mut x: usize = start;
    assert(rep[uf@[x as int] as int] == rep[x as int]);
    while uf[x] != x
        invariant
            forest(uf@, rep, rank, top),
            uf@.len() == old(uf)@.len(),
            x < uf@.len(),
            start < uf@.len(),
            rep[x as int] == rep[start as int],
        decreases top - rank[x as int],
    {
        let ghost before = uf@;
        let parent: usize = uf[x];
        assert(parent < uf@.len() && rep[parent as int] == rep[x as int]);
        let grand: usize = uf[parent];
        assert(grand < uf@.len() && rep[grand as int] == rep[parent as int]);
        assert(before[parent as int] == grand);
        uf[x] = grand;
        assert(forest(uf@, rep, rank, top)) by {
            assert forall|i: int| 0 <= i < uf@.len() implies (#[trigger] uf@[i]) < uf@.len() && rep[uf@[i] as int]
                == rep[i] && (uf@[i] == i <==> rep[i] == i) && (uf@[i] != i ==> rank[i] < rank[uf@[i] as int])
                && rank[i] <= top && 0 <= rep[i] < uf@.len() && rep[rep[i]] == rep[i] by {
                assert(before[i] < before.len());
            }
        }
        assert(before[grand as int] < before.len());
        x = grand;
    }
    assert(uf@[x as int] == x);
    x
}

proof fn lemma_joined_next(faces: Seq<Seq<u32>>, values: Seq<u32>, edges: Seq<EdgeKey>, k: int, a: int, b: int)
    requires
        0 <= k,
    ensures
        joined(faces, values, edges, k + 1, a, b) <==> joined(faces, values, edges, k, a, b) || joins(
            faces,
            values,
            edges,
            k,
            a,
            b,
        ),
{
    if joined(faces, values, edges, k + 1, a, b) {
        let e = choose|e: int| #[trigger] joins(faces, values, edges, e, a, b) && 0 <= e < k + 1;
        if e < k {
            assert(joins(faces, values, edges, e, a, b) && 0 <= e < k);
        }
    }
    if joined(faces, values, edges, k, a, b) {
        let e = choose|e: int| #[trigger] joins(faces, values, edges, e, a, b) && 0 <= e < k;
        assert(joins(faces, values, edges, e, a, b) && 0 <= e < k + 1);
    }
}

/// The classes of `rep` are the connected faces.
spec fn classes(
    faces: Seq<Seq<u32>>,
    values: Seq<u32>,
    edges: Seq<EdgeKey>,
    k: int,
    rep: Seq<int>,
) -> bool {
    forall|a: int, b: int|
        0 <= a < rep.len() && 0 <= b < rep.len() ==> (#[trigger] rep[a] == #[trigger] rep[b] <==> connected(
            faces,
            values,
            edges,
            k,
            a,
            b,
        ))
}

proof fn lemma_path_monotone(
    faces: Seq<Seq<u32>>,
    values: Seq<u32>,
    edges: Seq<EdgeKey>,
    k: int,
    a: int,
    b: int,
)
    requires
        0 <= k,
        connected(faces, values, edges, k, a, b),
    ensures
        connected(faces, values, edges, k + 1, a, b),
{
    let path = choose|path: Seq<int>| #[trigger] is_path(faces, values, edges, k, path, a, b);
    assert forall|i: int| #![trigger path[i]] 0 <= i < path.len() - 1 implies joined(
        faces,
        values,
        edges,
        k + 1,
        path[i],
        path[i + 1],
    ) by {
        lemma_joined_next(faces, values, edges, k, path[i], path[i + 1]);
    }
    assert(is_path(faces, values, edges, k + 1, path, a, b));
}

/// Two paths and a link between them.
proof fn lemma_path_link(
    faces: Seq<Seq<u32>>,
    values: Seq<u32>,
    edges: Seq<EdgeKey>,
    k: int,
    a: int,
    x: int,
    y: int,
    b: int,
)
    requires
        connected(faces, values, edges, k, a, x),
        joined(faces, values, edges, k, x, y),
        connected(faces, values, edges, k, y, b),
    ensures
        connected(faces, values, edges, k, a, b),
{
    let p = choose|path: Seq<int>| #[trigger] is_path(faces, values, edges, k, path, a, x);
    let q = choose|path: Seq<int>| #[trigger] is_path(faces, values, edges, k, path, y, b);
    let path = p + q;
    assert forall|i: int| #![trigger path[i]] 0 <= i < path.len() - 1 implies joined(
        faces,
        values,
        edges,
        k,
        path[i],
        path[i + 1],
    ) by {
        if i < p.len() - 1 {
            assert(path[i] == p[i] && path[i + 1] == p[i + 1]);
            assert(joined(faces, values, edges, k, p[i], p[i + 1]));
        } else if i == p.len() - 1 {
            assert(path[i] == x && path[i + 1] == y);
        } else {
            let j = i - p.len();
            assert(path[i] == q[j] && path[i + 1] == q[j + 1]);
            assert(joined(faces, values, edges, k, q[j], q[j + 1]));
        }
    }
    assert(is_path(faces, values, edges, k, path, a, b));
}

/// The ends of a path are in one class if every link is inside a class.
proof fn lemma_path_class(
    faces: Seq<Seq<u32>>,
    values: Seq<u32>,
    edges: Seq<EdgeKey>,
    k: int,
    rep: Seq<int>,
    path: Seq<int>,
    a: int,
    b: int,
)
    requires
        is_path(faces, values, edges, k, path, a, b),
        forall|x: int, y: int| #[trigger] joined(faces, values, edges, k, x, y) ==> rep[x] == rep[y],
    ensures
        rep[a] == rep[b],
    decreases path.len(),
{
    if path.len() > 1 {
        let front = path.drop_last();
        assert forall|i: int| #![trigger front[i]] 0 <= i < front.len() - 1 implies joined(
            faces,
            values,
            edges,
            k,
            front[i],
            front[i + 1],
        ) by {
            assert(front[i] == path[i] && front[i + 1] == path[i + 1]);
            assert(joined(faces, values, edges, k, path[i], path[i + 1]));
        }
        let x = path[path.len() - 2];
        assert(is_path(faces, values, edges, k, front, a, x));
        lemma_path_class(faces, values, edges, k, rep, front, a, x);
        assert(joined(faces, values, edges, k, path[path.len() - 2], path[path.len() - 2 + 1]));
    }
}

/// One more edge that joins nothing new leaves the classes as they are.
proof fn lemma_classes_same(faces: Seq<Seq<u32>>, values: Seq<u32>, edges: Seq<EdgeKey>, k: int, rep: Seq<int>)
    requires
        0 <= k,
        classes(faces, values, edges, k, rep),
        forall|x: int, y: int| #[trigger]
            joins(faces, values, edges, k, x, y) ==> 0 <= x < rep.len() && 0 <= y < rep.len() && rep[x] == rep[y],
        forall|x: int, y: int| #[trigger]
            joined(faces, values, edges, k, x, y) ==> 0 <= x < rep.len() && 0 <= y < rep.len(),
    ensures
        classes(faces, values, edges, k + 1, rep),
{
    lemma_joined_in_class(faces, values, edges, k, rep);
    assert forall|x: int, y: int| #[trigger] joined(faces, values, edges, k + 1, x, y) implies rep[x] == rep[y] by {
        lemma_joined_next(faces, values, edges, k, x, y);
        if joined(faces, values, edges, k, x, y) {
        } else {
            assert(joins(faces, values, edges, k, x, y));
        }
    }
    assert forall|a: int, b: int| 0 <= a < rep.len() && 0 <= b < rep.len() implies (#[trigger] rep[a]
        == #[trigger] rep[b] <==> connected(faces, values, edges, k + 1, a, b)) by {
        if rep[a] == rep[b] {
            lemma_path_monotone(faces, values, edges, k, a, b);
        }
        if connected(faces, values, edges, k + 1, a, b) {
            let path = choose|path: Seq<int>| #[trigger] is_path(faces, values, edges, k + 1, path, a, b);
            lemma_path_class(faces, values, edges, k + 1, rep, path, a, b);
        }
    }
}

/// Joined faces are in one class.
proof fn lemma_joined_in_class(faces: Seq<Seq<u32>>, values: Seq<u32>, edges: Seq<EdgeKey>, k: int, rep: Seq<int>)
    requires
        classes(faces, values, edges, k, rep),
        forall|x: int, y: int| #[trigger]
            joined(faces, values, edges, k, x, y) ==> 0 <= x < rep.len() && 0 <= y < rep.len(),
    ensures
        forall|x: int, y: int| #[trigger] joined(faces, values, edges, k, x, y) ==> rep[x] == rep[y],
{
    assert forall|x: int, y: int| #[trigger] joined(faces, values, edges, k, x, y) implies rep[x] == rep[y] by {
        let path = seq![x, y];
        assert(is_path(faces, values, edges, k, path, x, y)) by {
            assert forall|i: int| #![trigger path[i]] 0 <= i < path.len() - 1 implies joined(
                faces,
                values,
                edges,
                k,
                path[i],
                path[i + 1],
            ) by {
                assert(i == 0);
            }
        }
        assert(connected(faces, values, edges, k, x, y));
    }
}

/// One more edge merges the classes of the two faces it joins.
proof fn lemma_classes_merge(
    faces: Seq<Seq<u32>>,
    values: Seq<u32>,
    edges: Seq<EdgeKey>,
    k: int,
    rep: Seq<int>,
    next: Seq<int>,
    a: int,
    b: int,
)
    requires
        0 <= k,
        classes(faces, values, edges, k, rep),
        0 <= a < rep.len(),
        0 <= b < rep.len(),
        joins(faces, values, edges, k, a, b),
        next.len() == rep.len(),
        forall|i: int|
            0 <= i < rep.len() ==> #[trigger] next[i] == (if rep[i] == rep[a] {
                rep[b]
            } else {
                rep[i]
            }),
        forall|x: int, y: int| #[trigger]
            joined(faces, values, edges, k, x, y) ==> 0 <= x < rep.len() && 0 <= y < rep.len(),
    ensures
        classes(faces, values, edges, k + 1, next),
{
    lemma_joined_in_class(faces, values, edges, k, rep);
    assert forall|x: int, y: int| #[trigger] joined(faces, values, edges, k + 1, x, y) implies next[x] == next[y] by {
        lemma_joined_next(faces, values, edges, k, x, y);
        if joined(faces, values, edges, k, x, y) {
            assert(rep[x] == rep[y]);
        } else {
            assert(joins(faces, values, edges, k, x, y));
            assert((x == a && y == b) || (x == b && y == a));
        }
    }
    assert(joins(faces, values, edges, k, b, a));
    lemma_joined_next(faces, values, edges, k, a, b);
    lemma_joined_next(faces, values, edges, k, b, a);
    assert forall|x: int, y: int| 0 <= x < next.len() && 0 <= y < next.len() implies (#[trigger] next[x]
        == #[trigger] next[y] <==> connected(faces, values, edges, k + 1, x, y)) by {
        assert(rep[x] == rep[y] <==> connected(faces, values, edges, k, x, y));
        assert(rep[x] == rep[a] <==> connected(faces, values, edges, k, x, a));
        assert(rep[x] == rep[b] <==> connected(faces, values, edges, k, x, b));
        assert(rep[a] == rep[y] <==> connected(faces, values, edges, k, a, y));
        assert(rep[b] == rep[y] <==> connected(faces, values, edges, k, b, y));
        if next[x] == next[y] {
            if rep[x] == rep[y] {
                lemma_path_monotone(faces, values, edges, k, x, y);
            } else if rep[x] == rep[a] {
                lemma_path_monotone(faces, values, edges, k, x, a);
                lemma_path_monotone(faces, values, edges, k, b, y);
                lemma_path_link(faces, values, edges, k + 1, x, a, b, y);
            } else {
                lemma_path_monotone(faces, values, edges, k, x, b);
                lemma_path_monotone(faces, values, edges, k, a, y);
                lemma_path_link(faces, values, edges, k + 1, x, b, a, y);
            }
        }
        if connected(faces, values, edges, k + 1, x, y) {
            let path = choose|path: Seq<int>| #[trigger] is_path(faces, values, edges, k + 1, path, x, y);
            lemma_path_class(faces, values, edges, k + 1, next, path, x, y);
        }
    }
}

proof fn lemma_no_edges(faces: Seq<Seq<u32>>, values: Seq<u32>, edges: Seq<EdgeKey>, a: int, b: int)
    ensures
        connected(faces, values, edges, 0, a, b) <==> a == b,
{
    if a == b {
        assert(is_path(faces, values, edges, 0, seq![a], a, b));
    }
    if connected(faces, values, edges, 0, a, b) {
        let path = choose|path: Seq<int>| #[trigger] is_path(faces, values, edges, 0, path, a, b);
        if path.len() > 1 {
            assert(joined(faces, values, edges, 0, path[0int], path[0int + 1]));
        }
    }
}

/// The faces that edges join are faces of the mesh.
proof fn lemma_joined_range(faces: Seq<Seq<u32>>, values: Seq<u32>, edges: Seq<EdgeKey>)
    requires
        faces.len() <= u32::MAX,
    ensures
        forall|e: int, x: int, y: int| #[trigger]
            joins(faces, values, edges, e, x, y) ==> 0 <= x < faces.len() && 0 <= y < faces.len(),
        forall|k: int, x: int, y: int| #[trigger]
            joined(faces, values, edges, k, x, y) ==> 0 <= x < faces.len() && 0 <= y < faces.len(),
{
    lemma_owners_below(faces);
    lemma_corner_counts(faces);
    assert forall|e: int, x: int, y: int| #[trigger] joins(faces, values, edges, e, x, y) implies 0 <= x
        < faces.len() && 0 <= y < faces.len() by {
        lemma_at_key(corner_keys(faces), corner_faces(faces), edges[e], faces.len() as int);
        let fs = meeting(faces, edges[e]);
        assert(fs[0] < faces.len() && fs[1] < faces.len());
    }
    assert forall|k: int, x: int, y: int| #[trigger] joined(faces, values, edges, k, x, y) implies 0 <= x
        < faces.len() && 0 <= y < faces.len() by {
        let e = choose|e: int| #[trigger] joins(faces, values, edges, e, x, y) && 0 <= e < k;
        assert(joins(faces, values, edges, e, x, y));
    }
}

/// A number for the chart of each face.
fn face_islands(edges: &[[u32; 2]], meetings: &[Vec<u32>], seams: &[bool], corners: &Corners) -> (r: Vec<u32>)
    requires
        corners.wf(),
        meetings@.len() == edges@.len(),
        forall|e: int|
            0 <= e < edges@.len() ==> (#[trigger] meetings@[e])@ == meeting(corners.faces@, pairs(edges@)[e]),
        seams@ == seams_of(corners.faces@, corners.values@, pairs(edges@)),
    ensures
        r@.len() == corners.faces@.len(),
        forall|a: int, b: int|
            0 <= a < r@.len() && 0 <= b < r@.len() ==> (#[trigger] r@[a] == #[trigger] r@[b] <==> same_chart(
                corners.faces@,
                corners.values@,
                pairs(edges@),
                a,
                b,
            )),
{
    reveal(Corners::wf);
    let ghost faces = corners.faces@;
    let ghost values = corners.values@;
    let ghost pe = pairs(edges@);
    let count: usize = corners.faces.len();
    let mut uf: Vec<usize> = Vec::new();
    let mut i: usize = 0;
    while i < count
        invariant
            i <= count,
            uf@.len() == i,
            forall|j: int| 0 <= j < i ==> (#[trigger] uf@[j]) == j,
        decreases count - i,
    {
        uf.push(i);
        i += 1;
    }
    let ghost mut rep: Seq<int> = Seq::new(count as nat, |j: int| j);
    let ghost mut rank: Seq<int> = Seq::new(count as nat, |j: int| 0int);
    let ghost mut top: int = 0;
    proof {
        lemma_joined_range(faces, values, pe);
        assert(classes(faces, values, pe, 0, rep)) by {
            assert forall|a: int, b: int| 0 <= a < rep.len() && 0 <= b < rep.len() implies (#[trigger] rep[a]
                == #[trigger] rep[b] <==> connected(faces, values, pe, 0, a, b)) by {
                lemma_no_edges(faces, values, pe, a, b);
            }
        }
    }
    let mut e: usize = 0;
    while e < edges.len()
        invariant
            e <= edges.len(),
            corners.wf(),
            faces == corners.faces@,
            values == corners.values@,
            pe == pairs(edges@),
            meetings@.len() == edges@.len(),
            forall|e: int| 0 <= e < edges@.len() ==> (#[trigger] meetings@[e])@ == meeting(faces, pe[e]),
            seams@ == seams_of(faces, values, pe),
            count == faces.len(),
            uf@.len() == count,
            forest(uf@, rep, rank, top),
            classes(faces, values, pe, e as int, rep),
            forall|e: int, x: int, y: int| #[trigger]
                joins(faces, values, pe, e, x, y) ==> 0 <= x < faces.len() && 0 <= y < faces.len(),
            forall|k: int, x: int, y: int| #[trigger]
                joined(faces, values, pe, k, x, y) ==> 0 <= x < faces.len() && 0 <= y < faces.len(),
        decreases edges.len() - e,
    {
        let fs: &Vec<u32> = &meetings[e];
        assert(fs@ == meeting(faces, pe[e as int]));
        assert(seams@[e as int] == is_seam(faces, values, pe[e as int]));
        let mut merged_classes: bool = false;
        if fs.len() == 2 && !seams[e] {
            let ghost a = fs@[0] as int;
            let ghost b = fs@[1] as int;
            assert(joins(faces, values, pe, e as int, a, b));
            let ra: usize = uf_find(&mut uf, fs[0] as usize, Ghost(rep), Ghost(rank), Ghost(top));
            let rb: usize = uf_find(&mut uf, fs[1] as usize, Ghost(rep), Ghost(rank), Ghost(top));
            if ra != rb {
                let ghost before = uf@;
                let ghost next = Seq::new(
                    count as nat,
                    |j: int|
                        if rep[j] == rep[a] {
                            rep[b]
                        } else {
                            rep[j]
                        },
                );
                assert(before[a] < before.len() && before[b] < before.len());
                assert(rep[rep[a]] == rep[a] && rep[rep[b]] == rep[b]);
                uf[ra] = rb;
                proof {
                    lemma_classes_merge(faces, values, pe, e as int, rep, next, a, b);
                    let rank2 = rank.update(rb as int, top + 1);
                    assert(forest(uf@, next, rank2, top + 1)) by {
                        assert forall|j: int| 0 <= j < uf@.len() implies (#[trigger] uf@[j]) < uf@.len()
                            && next[uf@[j] as int] == next[j] && (uf@[j] == j <==> next[j] == j) && (uf@[j] != j
                            ==> rank2[j] < rank2[uf@[j] as int]) && rank2[j] <= top + 1 && 0 <= next[j] < uf@.len()
                            && next[next[j]] == next[j] by {
                            assert(before[j] < before.len());
                            assert(before[ra as int] < before.len());
                            assert(before[rb as int] < before.len());
                        }
                    }
                    rep = next;
                    rank = rank2;
                    top = top + 1;
                }
                merged_classes = true;
            } else {
                proof {
                    assert forall|x: int, y: int| #[trigger] joins(faces, values, pe, e as int, x, y) implies 0 <= x
                        < rep.len() && 0 <= y < rep.len() && rep[x] == rep[y] by {
                        assert((x == a && y == b) || (x == b && y == a));
                    }
                }
            }
        }
        if !merged_classes {
            proof {
                assert forall|x: int, y: int| #[trigger] joins(faces, values, pe, e as int, x, y) implies 0 <= x
                    < rep.len() && 0 <= y < rep.len() && rep[x] == rep[y] by {
                    if fs@.len() == 2 && !seams@[e as int] {
                    }
                }
                lemma_classes_same(faces, values, pe, e as int, rep);
            }
        }
        e += 1;
    }
    let mut out: Vec<u32> = Vec::new();
    let mut f: usize = 0;
    while f < count
        invariant
            f <= count,
            count <= u32::MAX,
            uf@.len() == count,
            forest(uf@, rep, rank, top),
            out@.len() == f,
            forall|j: int| 0 <= j < f ==> (#[trigger] out@[j]) as int == rep[j],
        decreases count - f,
    {
        assert(uf@[f as int] < count);
        let root: usize = uf_find(&mut uf, f, Ghost(rep), Ghost(rank), Ghost(top));
        out.push(root as u32);
        f += 1;
    }
    assert forall|a: int, b: int| 0 <= a < out@.len() && 0 <= b < out@.len() implies (#[trigger] out@[a]
        == #[trigger] out@[b] <==> same_chart(faces, values, pe, a, b)) by {
        assert(out@[a] as int == rep[a] && out@[b] as int == rep[b]);
        assert(rep[a] == rep[b] <==> connected(faces, values, pe, pe.len() as int, a, b));
    }
    out
}

// ---------------------------------------------------------------------------
// Values in charts
// ---------------------------------------------------------------------------
/// The first of the first `n` corners that is at vertex `v` in a face whose
/// chart has number `chart`.
pub open spec fn first_in_island(
    verts: Seq<u32>,
    owners: Seq<u32>,
    islands: Seq<u32>,
    n: int,
    v: u32,
    chart: u32,
) -> Option<int>
    decreases n,
{
    if n <= 0 {
        None
    } else {
        match first_in_island(verts, owners, islands, n - 1, v, chart) {
            Some(p) => Some(p),
            None => if verts[n - 1] == v && islands[owners[n - 1] as int] == chart {
                Some(n - 1)
            } else {
                None
            },
        }
    }
}

/// What a table holds for a key.
pub open spec fn looked_up<V>(table: Map<EdgeKey, V>, k: EdgeKey) -> Option<V> {
    if table.contains_key(k) {
        Some(table[k])
    } else {
        None
    }
}

/// The value of a vertex in a chart, among the first `n` corners.
pub open spec fn island_value(
    verts: Seq<u32>,
    owners: Seq<u32>,
    islands: Seq<u32>,
    values: Seq<u32>,
    n: int,
    k: EdgeKey,
) -> Option<u32> {
    match first_in_island(verts, owners, islands, n, k.0, k.1) {
        Some(p) => Some(values[p]),
        None => None,
    }
}

/// The first of the first `n` corners that is at vertex `v` in the chart of
/// face `home`.
pub open spec fn first_in_chart(
    faces: Seq<Seq<u32>>,
    values: Seq<u32>,
    edges: Seq<EdgeKey>,
    n: int,
    v: u32,
    home: int,
) -> Option<int>
    decreases n,
{
    if n <= 0 {
        None
    } else {
        match first_in_chart(faces, values, edges, n - 1, v, home) {
            Some(p) => Some(p),
            None => if flat(faces)[n - 1] == v && same_chart(
                faces,
                values,
                edges,
                corner_faces(faces)[n - 1] as int,
                home,
            ) {
                Some(n - 1)
            } else {
                None
            },
        }
    }
}

/// The value of vertex `v` in the chart of face `home`.
pub open spec fn chart_value(
    faces: Seq<Seq<u32>>,
    values: Seq<u32>,
    edges: Seq<EdgeKey>,
    v: u32,
    home: int,
) -> Option<u32> {
    match first_in_chart(faces, values, edges, flat(faces).len() as int, v, home) {
        Some(p) => Some(values[p]),
        None => None,
    }
}

/// The value of each vertex in each chart that it borders.
fn island_values(verts: &[u32], owners: &[u32], islands: &[u32], values: &[u32]) -> (r: EdgeMap<u32>)
    requires
        owners@.len() == verts@.len(),
        verts@.len() <= values@.len(),
        all_below(owners@, islands@.len() as int),
    ensures
        forall|k: EdgeKey|
            #[trigger] looked_up(r@, k) == island_value(
                verts@,
                owners@,
                islands@,
                values@,
                verts@.len() as int,
                k,
            ),
{
    let mut table: EdgeMap<u32> = edge_map_new();
    let mut p: usize = 0;
    while p < verts.len()
        invariant
            p <= verts@.len(),
            owners@.len() == verts@.len(),
            verts@.len() <= values@.len(),
            all_below(owners@, islands@.len() as int),
            forall|k: EdgeKey|
                #[trigger] looked_up(table@, k) == island_value(verts@, owners@, islands@, values@, p as int, k),
        decreases verts@.len() - p,
    {
        assert(owners@[p as int] < islands@.len());
        let key: EdgeKey = (verts[p], islands[owners[p] as usize]);
        let ghost before = table@;
        match edge_map_get(&table, key) {
            Some(_) => {},
            None => {
                edge_map_insert(&mut table, key, values[p]);
            },
        }
        assert forall|k: EdgeKey|
            #[trigger] looked_up(table@, k) == island_value(verts@, owners@, islands@, values@, p + 1, k) by {
            assert(looked_up(before, k) == island_value(verts@, owners@, islands@, values@, p as int, k));
            assert(looked_up(before, key) == island_value(verts@, owners@, islands@, values@, p as int, key));
        }
        p += 1;
    }
    table
}

/// The charts of a mesh and the values of its vertices in them.
pub struct Islands {
    face_island: Vec<u32>,
    vert_chart_value: EdgeMap<u32>,
}

impl Islands {
    /// The tables are those of the charts of a mesh.
    #[verifier::opaque]
    pub closed spec fn of(self, faces: Seq<Seq<u32>>, values: Seq<u32>, edges: Seq<EdgeKey>) -> bool {
        let owners = corner_faces(faces);
        &&& self.face_island@.len() == faces.len()
        &&& forall|a: int, b: int|
            0 <= a < faces.len() && 0 <= b < faces.len() ==> (#[trigger] self.face_island@[a]
                == #[trigger] self.face_island@[b] <==> same_chart(faces, values, edges, a, b))
        &&& forall|k: EdgeKey|
            #[trigger] looked_up(self.vert_chart_value@, k) == island_value(
                flat(faces),
                owners,
                self.face_island@,
                values,
                flat(faces).len() as int,
                k,
            )
    }

    /// Charts of a mesh.
    fn build(edges: &[[u32; 2]], meetings: &[Vec<u32>], seams: &[bool], corners: &Corners) -> (r: Islands)
        requires
            corners.wf(),
            meetings@.len() == edges@.len(),
            forall|e: int|
                0 <= e < edges@.len() ==> (#[trigger] meetings@[e])@ == meeting(corners.faces@, pairs(edges@)[e]),
            seams@ == seams_of(corners.faces@, corners.values@, pairs(edges@)),
        ensures
            r.of(corners.faces@, corners.values@, pairs(edges@)),
    {
        reveal(Corners::wf);
        let face_island: Vec<u32> = face_islands(edges, meetings, seams, corners);
        let owners: Vec<u32> = owners_of(corners.faces);
        proof {
            lemma_corner_counts(corners.faces@);
            lemma_owners_below(corners.faces@);
        }
        let vert_chart_value: EdgeMap<u32> = island_values(
            corners.faces.flat_values(),
            &owners,
            &face_island,
            corners.values,
        );
        proof {
            reveal(Islands::of);
        }
        Islands { face_island, vert_chart_value }
    }

    /// The value of vertex `v` in the chart of face `home`.
    fn value_of(
        &self,
        v: u32,
        home: usize,
        Ghost(faces): Ghost<Seq<Seq<u32>>>,
        Ghost(values): Ghost<Seq<u32>>,
        Ghost(edges): Ghost<Seq<EdgeKey>>,
    ) -> (r: Option<u32>)
        requires
            self.of(faces, values, edges),
            faces.len() <= u32::MAX,
            home < faces.len(),
        ensures
            r == chart_value(faces, values, edges, v, home as int),
    {
        reveal(Islands::of);
        let chart: u32 = self.face_island[home];
        proof {
            lemma_corner_counts(faces);
            lemma_owners_below(faces);
            lemma_first_agrees(
                faces,
                values,
                edges,
                self.face_island@,
                flat(faces).len() as int,
                v,
                home as int,
            );
            assert(looked_up(self.vert_chart_value@, (v, chart)) == island_value(
                flat(faces),
                corner_faces(faces),
                self.face_island@,
                values,
                flat(faces).len() as int,
                (v, chart),
            ));
        }
        edge_map_get(&self.vert_chart_value, (v, chart))
    }
}

proof fn lemma_first_agrees(
    faces: Seq<Seq<u32>>,
    values: Seq<u32>,
    edges: Seq<EdgeKey>,
    islands: Seq<u32>,
    n: int,
    v: u32,
    home: int,
)
    requires
        0 <= n <= flat(faces).len(),
        corner_faces(faces).len() == flat(faces).len(),
        all_below(corner_faces(faces), faces.len() as int),
        islands.len() == faces.len(),
        0 <= home < faces.len(),
        forall|a: int, b: int|
            0 <= a < faces.len() && 0 <= b < faces.len() ==> (#[trigger] islands[a] == #[trigger] islands[b]
                <==> same_chart(faces, values, edges, a, b)),
    ensures
        first_in_island(flat(faces), corner_faces(faces), islands, n, v, islands[home]) == first_in_chart(
            faces,
            values,
            edges,
            n,
            v,
            home,
        ),
    decreases n,
{
    if n > 0 {
        lemma_first_agrees(faces, values, edges, islands, n - 1, v, home);
        let f = corner_faces(faces)[n - 1] as int;
        assert(f < faces.len());
        assert(islands[f] == islands[home] <==> same_chart(faces, values, edges, f, home));
    }
}

// ---------------------------------------------------------------------------
// Rows
// ---------------------------------------------------------------------------
/// The value of `u` near face `home`: in its chart, else in the face itself,
/// else the number of the vertex.
pub open spec fn mapped_value(
    faces: Seq<Seq<u32>>,
    values: Seq<u32>,
    edges: Seq<EdgeKey>,
    home: int,
    u: u32,
) -> u32 {
    match chart_value(faces, values, edges, u, home) {
        Some(x) => x,
        None => match value_in_face(faces, values, home, u) {
            Some(x) => x,
            None => u,
        },
    }
}

/// A row of vertices as a row of values.
pub open spec fn remapped<S: Scalar>(row: Seq<(u32, S)>, value: spec_fn(u32) -> u32) -> Seq<(u32, S)>
    decreases row.len(),
{
    if row.len() == 0 {
        Seq::empty()
    } else {
        merged(
            remapped(row.drop_last(), value),
            seq![(value(row.last().0), one_of::<S>())],
            row.last().1,
        )
    }
}

/// Halfway between the ends of an edge, as face `home` sees them.
pub open spec fn edge_value_row<S: Scalar>(
    faces: Seq<Seq<u32>>,
    values: Seq<u32>,
    edge: EdgeKey,
    home: int,
) -> Seq<(u32, S)> {
    match (value_in_face(faces, values, home, edge.0), value_in_face(faces, values, home, edge.1)) {
        (Some(a), Some(b)) => seq![(a, S::ratio_of(1, 2)), (b, S::ratio_of(1, 2))],
        (Some(a), None) => identity_row::<S>(a),
        (None, Some(b)) => identity_row::<S>(b),
        (None, None) => identity_row::<S>(edge.0),
    }
}

fn edge_value_stencil<S: Scalar>(corners: &Corners, a: u32, b: u32, home: usize) -> (r: Vec<(u32, S)>)
    requires
        corners.wf(),
        home < corners.faces@.len(),
    ensures
        r@ == edge_value_row::<S>(corners.faces@, corners.values@, (a, b), home as int),
{
    match (corners.fvar_in_face(home, a), corners.fvar_in_face(home, b)) {
        (Some(x), Some(y)) => {
            let mut row: Vec<(u32, S)> = Vec::new();
            row.push((x, S::ratio(1, 2)));
            row.push((y, S::ratio(1, 2)));
            assert(row@ =~= seq![(x, S::ratio_of(1, 2)), (y, S::ratio_of(1, 2))]);
            row
        },
        (Some(x), None) => identity_entry(x),
        (None, Some(y)) => identity_entry(y),
        (None, None) => identity_entry(a),
    }
}

/// The mean of the values of a face.
pub open spec fn face_value_row<S: Scalar>(faces: Seq<Seq<u32>>, values: Seq<u32>, f: int) -> Seq<(u32, S)> {
    Seq::new(
        faces[f].len(),
        |k: int| (values[row_start(faces, f) + k], S::ratio_of(1, faces[f].len() as u32)),
    )
}

pub(crate) fn face_value_stencil<S: Scalar>(corners: &Corners, f: usize) -> (r: Vec<(u32, S)>)
    requires
        corners.wf(),
        f < corners.faces@.len(),
        corners.faces@[f as int].len() > 0,
    ensures
        r@ == face_value_row::<S>(corners.faces@, corners.values@, f as int),
{
    reveal(Corners::wf);
    let ghost all = face_value_row::<S>(corners.faces@, corners.values@, f as int);
    let n: usize = corners.faces.row_len(f);
    proof {
        lemma_flat_row(corners.faces@, f as int);
        assert(corners.starts@[f as int] == row_start(corners.faces@, f as int));
    }
    let start: usize = corners.starts[f] as usize;
    let total: usize = corners.values.len();
    let w: S = S::ratio(1, n as u32);
    let mut row: Vec<(u32, S)> = Vec::new();
    let mut k: usize = 0;
    while k < n
        invariant
            k <= n,
            f < corners.faces@.len(),
            n == corners.faces@[f as int].len(),
            start == row_start(corners.faces@, f as int),
            start + n <= total,
            total == corners.values@.len(),
            n <= u32::MAX,
            w == S::ratio_of(1, n as u32),
            all == face_value_row::<S>(corners.faces@, corners.values@, f as int),
            row@ == all.take(k as int),
        decreases n - k,
    {
        row.push((corners.values[start + k], w));
        k += 1;
        assert(row@ =~= all.take(k as int));
    }
    assert(row@ =~= all);
    row
}

/// How often a value is used.
pub open spec fn uses(values: Seq<u32>, x: u32) -> nat
    decreases values.len(),
{
    if values.len() == 0 {
        0
    } else {
        uses(values.drop_last(), x) + if values.last() == x {
            1nat
        } else {
            0
        }
    }
}

/// The other ends of the seams at `v`.
pub open spec fn seam_ends(edges: Seq<EdgeKey>, seams: Seq<bool>, v: u32) -> Seq<u32>
    decreases edges.len(),
{
    if edges.len() == 0 {
        Seq::empty()
    } else {
        let front = seam_ends(edges.drop_last(), seams.drop_last(), v);
        let e = edges.last();
        if !seams.last() {
            front
        } else {
            let first = if e.0 == v {
                front.push(e.1)
            } else {
                front
            };
            if e.1 == v {
                first.push(e.0)
            } else {
                first
            }
        }
    }
}

/// Some edge at `v` is a seam.
pub open spec fn touches_seam(edges: Seq<EdgeKey>, seams: Seq<bool>, v: u32) -> bool {
    exists|e: int| 0 <= e < edges.len() && seams[e] && ((#[trigger] edges[e]).0 == v || edges[e].1 == v)
}

/// A vertex touches a seam exactly if there are other ends of seams at it.
pub proof fn seam_vertices_have_seam_ends(edges: Seq<EdgeKey>, seams: Seq<bool>, v: u32)
    requires
        seams.len() == edges.len(),
    ensures
        touches_seam(edges, seams, v) <==> seam_ends(edges, seams, v).len() > 0,
    decreases edges.len(),
{
    if edges.len() > 0 {
        let n = edges.len() - 1;
        let fe = edges.drop_last();
        let fs = seams.drop_last();
        seam_vertices_have_seam_ends(fe, fs, v);
        if touches_seam(fe, fs, v) {
            let e = choose|e: int| 0 <= e < fe.len() && fs[e] && ((#[trigger] fe[e]).0 == v || fe[e].1 == v);
            assert(edges[e] == fe[e] && seams[e] == fs[e]);
        }
        if touches_seam(edges, seams, v) {
            let e = choose|e: int|
                0 <= e < edges.len() && seams[e] && ((#[trigger] edges[e]).0 == v || edges[e].1 == v);
            if e < n {
                assert(edges[e] == fe[e] && seams[e] == fs[e]);
            }
        }
        assert(edges[n] == edges.last() && seams[n] == seams.last());
    }
}

/// The row of a vertex on a seam, as face `home` sees it: pinned, or along the
/// seam if exactly two seams meet there.
pub open spec fn seam_vertex_row<S: Scalar>(
    faces: Seq<Seq<u32>>,
    values: Seq<u32>,
    edges: Seq<EdgeKey>,
    ends: Seq<u32>,
    home: int,
    v: u32,
    mode: FaceVaryingInterpolation,
) -> Seq<(u32, S)> {
    let own = match value_in_face(faces, values, home, v) {
        Some(x) => x,
        None => v,
    };
    let pin = identity_row::<S>(own);
    let curve = match (
        chart_value(faces, values, edges, ends[0], home),
        chart_value(faces, values, edges, ends[1], home),
    ) {
        (Some(a), Some(b)) => if ends.len() == 2 {
            merged(
                merged(
                    merged(Seq::empty(), seq![(own, S::ratio_of(3, 4))], one_of()),
                    seq![(a, S::ratio_of(1, 8))],
                    one_of(),
                ),
                seq![(b, S::ratio_of(1, 8))],
                one_of(),
            )
        } else {
            pin
        },
        _ => pin,
    };
    match mode {
        FaceVaryingInterpolation::Linear => pin,
        FaceVaryingInterpolation::SmoothWithLinearBoundaries => pin,
        FaceVaryingInterpolation::SmoothWithLinearCorners => if uses(values, own) <= 1 {
            pin
        } else {
            curve
        },
        FaceVaryingInterpolation::Smooth => curve,
    }
}

/// What a smooth row is made from.
pub struct Smoothing<S> {
    pub faces: Seq<Seq<u32>>,
    pub values: Seq<u32>,
    pub edges: Seq<EdgeKey>,
    /// The stencils of the vertices.
    pub rows: Seq<Seq<(u32, S)>>,
    pub mode: FaceVaryingInterpolation,
}

impl<S: Scalar> Smoothing<S> {
    pub open spec fn seams(self) -> Seq<bool> {
        seams_of(self.faces, self.values, self.edges)
    }

    /// The stencil of vertex `cv` as values near face `home`.
    pub open spec fn remap(self, cv: int, home: int) -> Seq<(u32, S)> {
        remapped(
            self.rows[cv],
            |u: u32| mapped_value(self.faces, self.values, self.edges, home, u),
        )
    }

    /// The row of a corner at refined vertex `cv`, in a face whose parent is
    /// `home`.
    pub open spec fn row(self, origin: VertexOrigin, cv: int, home: int) -> Seq<(u32, S)> {
        match origin {
            VertexOrigin::Edge(e) => if self.seams()[e as int] {
                edge_value_row::<S>(self.faces, self.values, self.edges[e as int], home)
            } else {
                self.remap(cv, home)
            },
            VertexOrigin::Vertex(v) => {
                let ends = seam_ends(self.edges, self.seams(), v);
                if ends.len() > 0 {
                    seam_vertex_row::<S>(self.faces, self.values, self.edges, ends, home, v, self.mode)
                } else {
                    self.remap(cv, home)
                }
            },
            VertexOrigin::Face(f) => self.remap(cv, f as int),
        }
    }
}

/// The row of each corner of a refined mesh.
pub open spec fn corner_rows<S: Scalar>(
    faces: Seq<Seq<u32>>,
    parents: Seq<u32>,
    row: spec_fn(int, int) -> Seq<(u32, S)>,
) -> Seq<Seq<(u32, S)>> {
    flat(
        Seq::new(
            faces.len(),
            |f: int| Seq::new(faces[f].len(), |k: int| row(faces[f][k] as int, parents[f] as int)),
        ),
    )
}

fn count_uses(values: &[u32], x: u32) -> (r: usize)
    ensures
        r == uses(values@, x),
{
    let mut count: usize = 0;
    let mut i: usize = 0;
    assert(values@.take(0) =~= Seq::<u32>::empty());
    while i < values.len()
        invariant
            i <= values.len(),
            count == uses(values@.take(i as int), x),
            count <= i,
        decreases values.len() - i,
    {
        assert(values@.take(i + 1).drop_last() =~= values@.take(i as int));
        if values[i] == x {
            count += 1;
        }
        i += 1;
    }
    assert(values@.take(i as int) =~= values@);
    count
}

fn collect_seam_ends(edges: &[[u32; 2]], seams: &[bool], v: u32) -> (r: Vec<u32>)
    requires
        edges@.len() == seams@.len(),
    ensures
        r@ == seam_ends(pairs(edges@), seams@, v),
{
    let ghost pe = pairs(edges@);
    let mut out: Vec<u32> = Vec::new();
    let mut e: usize = 0;
    assert(pe.take(0) =~= Seq::<EdgeKey>::empty());
    while e < edges.len()
        invariant
            e <= edges.len(),
            edges@.len() == seams@.len(),
            pe == pairs(edges@),
            out@ == seam_ends(pe.take(e as int), seams@.take(e as int), v),
        decreases edges.len() - e,
    {
        let a: u32 = edges[e][0];
        let b: u32 = edges[e][1];
        assert(pe[e as int] == (a, b));
        assert(pe.take(e + 1).drop_last() =~= pe.take(e as int));
        assert(seams@.take(e + 1).drop_last() =~= seams@.take(e as int));
        if seams[e] {
            if a == v {
                out.push(b);
            }
            if b == v {
                out.push(a);
            }
        }
        e += 1;
    }
    assert(pe.take(e as int) =~= pe);
    assert(seams@.take(e as int) =~= seams@);
    out
}

/// The tables that smooth rows are made with.
struct SmoothTables<'a, S> {
    corners: Corners<'a>,
    edges: &'a [[u32; 2]],
    seams: Vec<bool>,
    islands: Islands,
    rows: &'a [Vec<(u32, S)>],
    mode: FaceVaryingInterpolation,
}

impl<'a, S: Scalar> SmoothTables<'a, S> {
    spec fn model(self) -> Smoothing<S> {
        Smoothing {
            faces: self.corners.faces@,
            values: self.corners.values@,
            edges: pairs(self.edges@),
            rows: views(self.rows@),
            mode: self.mode,
        }
    }

    spec fn wf(self) -> bool {
        &&& self.corners.wf()
        &&& self.seams@ == self.model().seams()
        &&& self.islands.of(self.corners.faces@, self.corners.values@, pairs(self.edges@))
    }

    fn value_of(&self, v: u32, home: usize) -> (r: Option<u32>)
        requires
            self.wf(),
            home < self.corners.faces@.len(),
        ensures
            r == chart_value(self.model().faces, self.model().values, self.model().edges, v, home as int),
    {
        reveal(Corners::wf);
        self.islands.value_of(
            v,
            home,
            Ghost(self.model().faces),
            Ghost(self.model().values),
            Ghost(self.model().edges),
        )
    }

    fn remap(&self, cv: usize, home: usize) -> (r: Vec<(u32, S)>)
        requires
            self.wf(),
            cv < self.rows@.len(),
            home < self.corners.faces@.len(),
        ensures
            r@ == self.model().remap(cv as int, home as int),
    {
        let ghost m = self.model();
        let ghost value = |u: u32| mapped_value(m.faces, m.values, m.edges, home as int, u);
        let row: &Vec<(u32, S)> = &self.rows[cv];
        assert(row@ == m.rows[cv as int]);
        let mut out: Vec<(u32, S)> = Vec::new();
        let mut k: usize = 0;
        assert(row@.take(0) =~= Seq::<(u32, S)>::empty());
        while k < row.len()
            invariant
                k <= row.len(),
                self.wf(),
                home < self.corners.faces@.len(),
                m == self.model(),
                value == (|u: u32| mapped_value(m.faces, m.values, m.edges, home as int, u)),
                out@ == remapped(row@.take(k as int), value),
            decreases row.len() - k,
        {
            let (u, w) = row[k];
            let x: u32 = match self.value_of(u, home) {
                Some(x) => x,
                None => match self.corners.fvar_in_face(home, u) {
                    Some(x) => x,
                    None => u,
                },
            };
            assert(x == value(u));
            assert(row@.take(k + 1).drop_last() =~= row@.take(k as int));
            merge(&mut out, &[(x, one::<S>())], w);
            assert([(x, one_of::<S>())]@ =~= seq![(x, one_of::<S>())]);
            k += 1;
        }
        assert(row@.take(k as int) =~= row@);
        out
    }

    fn seam_vertex(&self, ends: &[u32], home: usize, v: u32) -> (r: Vec<(u32, S)>)
        requires
            self.wf(),
            home < self.corners.faces@.len(),
        ensures
            r@ == seam_vertex_row::<S>(
                self.model().faces,
                self.model().values,
                self.model().edges,
                ends@,
                home as int,
                v,
                self.mode,
            ),
    {
        let own: u32 = match self.corners.fvar_in_face(home, v) {
            Some(x) => x,
            None => v,
        };
        let pinned: bool = match self.mode {
            FaceVaryingInterpolation::Linear => true,
            FaceVaryingInterpolation::SmoothWithLinearBoundaries => true,
            FaceVaryingInterpolation::SmoothWithLinearCorners => count_uses(self.corners.values, own) <= 1,
            FaceVaryingInterpolation::Smooth => false,
        };
        if pinned || ends.len() != 2 {
            return identity_entry(own);
        }
        match (self.value_of(ends[0], home), self.value_of(ends[1], home)) {
            (Some(a), Some(b)) => {
                let mut row: Vec<(u32, S)> = Vec::new();
                merge(&mut row, &[(own, S::ratio(3, 4))], one());
                merge(&mut row, &[(a, S::ratio(1, 8))], one());
                merge(&mut row, &[(b, S::ratio(1, 8))], one());
                assert([(own, S::ratio_of(3, 4))]@ =~= seq![(own, S::ratio_of(3, 4))]);
                assert([(a, S::ratio_of(1, 8))]@ =~= seq![(a, S::ratio_of(1, 8))]);
                assert([(b, S::ratio_of(1, 8))]@ =~= seq![(b, S::ratio_of(1, 8))]);
                row
            },
            _ => identity_entry(own),
        }
    }

    fn row(&self, origin: VertexOrigin, cv: usize, home: usize) -> (r: Vec<(u32, S)>)
        requires
            self.wf(),
            cv < self.rows@.len(),
            home < self.corners.faces@.len(),
            match origin {
                VertexOrigin::Edge(e) => e < self.edges@.len(),
                VertexOrigin::Vertex(v) => true,
                VertexOrigin::Face(f) => f < self.corners.faces@.len(),
            },
        ensures
            r@ == self.model().row(origin, cv as int, home as int),
    {
        match origin {
            VertexOrigin::Edge(e) => {
                assert(pairs(self.edges@)[e as int] == (self.edges@[e as int]@[0], self.edges@[e as int]@[1]));
                if self.seams[e as usize] {
                    let a: u32 = self.edges[e as usize][0];
                    let b: u32 = self.edges[e as usize][1];
                    edge_value_stencil(&self.corners, a, b, home)
                } else {
                    self.remap(cv, home)
                }
            },
            VertexOrigin::Vertex(v) => {
                let ends: Vec<u32> = collect_seam_ends(self.edges, &self.seams, v);
                if ends.len() > 0 {
                    self.seam_vertex(&ends, home, v)
                } else {
                    self.remap(cv, home)
                }
            },
            VertexOrigin::Face(f) => self.remap(cv, f as usize),
        }
    }
}

/// The origins of refined vertices are elements of the parent.
pub open spec fn origins_fit(origins: Seq<VertexOrigin>, faces: nat, edges: nat) -> bool {
    forall|i: int|
        0 <= i < origins.len() ==> match #[trigger] origins[i] {
            VertexOrigin::Edge(e) => e < edges,
            VertexOrigin::Vertex(v) => true,
            VertexOrigin::Face(f) => f < faces,
        }
}

/// The parts of a refined mesh that face-varying rows need.
pub open spec fn child_fits<S: Scalar>(parent: LevelData<S>, child: LevelData<S>, rows: nat) -> bool {
    &&& child.wf()
    &&& child.lineage.face_parent@.len() == child.topo.faces@.len()
    &&& all_below(child.lineage.face_parent@, parent.topo.faces@.len() as int)
    &&& child.lineage.vertex_origin@.len() == child.n()
    &&& origins_fit(child.lineage.vertex_origin@, parent.topo.faces@.len(), parent.topo.edges().len())
    &&& rows == child.n()
}

/// The smoothing of a level.
pub open spec fn smoothing_of<S: Scalar>(
    parent: LevelData<S>,
    values: Seq<u32>,
    rows: Seq<Seq<(u32, S)>>,
    mode: FaceVaryingInterpolation,
) -> Smoothing<S> {
    Smoothing { faces: parent.topo.faces@, values, edges: parent.topo.edges(), rows, mode }
}

/// The rows of the smooth modes.
pub open spec fn smooth_rows<S: Scalar>(
    parent: LevelData<S>,
    child: LevelData<S>,
    values: Seq<u32>,
    rows: Seq<Seq<(u32, S)>>,
    mode: FaceVaryingInterpolation,
) -> Seq<Seq<(u32, S)>> {
    let m = smoothing_of(parent, values, rows, mode);
    corner_rows(
        child.topo.faces@,
        child.lineage.face_parent@,
        |cv: int, home: int| m.row(child.lineage.vertex_origin@[cv], cv, home),
    )
}

/// The rows of the linear mode, by the origins of the refined vertices.
pub open spec fn linear_row<S: Scalar>(
    faces: Seq<Seq<u32>>,
    values: Seq<u32>,
    edges: Seq<EdgeKey>,
    origin: VertexOrigin,
    home: int,
) -> Seq<(u32, S)> {
    match origin {
        VertexOrigin::Vertex(v) => identity_row::<S>(
            match value_in_face(faces, values, home, v) {
                Some(x) => x,
                None => v,
            },
        ),
        VertexOrigin::Edge(e) => edge_value_row::<S>(faces, values, edges[e as int], home),
        VertexOrigin::Face(f) => face_value_row::<S>(faces, values, f as int),
    }
}

pub open spec fn linear_rows<S: Scalar>(
    parent: LevelData<S>,
    child: LevelData<S>,
    values: Seq<u32>,
) -> Seq<Seq<(u32, S)>> {
    corner_rows(
        child.topo.faces@,
        child.lineage.face_parent@,
        |cv: int, home: int|
            linear_row::<S>(
                parent.topo.faces@,
                values,
                parent.topo.edges(),
                child.lineage.vertex_origin@[cv],
                home,
            ),
    )
}

fn linear_stencil<S: Scalar>(corners: &Corners, edges: &[[u32; 2]], origin: VertexOrigin, home: usize) -> (r: Vec<
    (u32, S),
>)
    requires
        corners.wf(),
        home < corners.faces@.len(),
        forall|f: int| 0 <= f < corners.faces@.len() ==> (#[trigger] corners.faces@[f]).len() > 0,
        match origin {
            VertexOrigin::Edge(e) => e < edges@.len(),
            VertexOrigin::Vertex(v) => true,
            VertexOrigin::Face(f) => f < corners.faces@.len(),
        },
    ensures
        r@ == linear_row::<S>(corners.faces@, corners.values@, pairs(edges@), origin, home as int),
{
    match origin {
        VertexOrigin::Vertex(v) => {
            let x: u32 = match corners.fvar_in_face(home, v) {
                Some(x) => x,
                None => v,
            };
            identity_entry(x)
        },
        VertexOrigin::Edge(e) => {
            assert(pairs(edges@)[e as int] == (edges@[e as int]@[0], edges@[e as int]@[1]));
            edge_value_stencil(corners, edges[e as usize][0], edges[e as usize][1], home)
        },
        VertexOrigin::Face(f) => face_value_stencil(corners, f as usize),
    }
}

/// The stencils of the linear mode, by the origins of the refined vertices.
pub(crate) fn all_linear_via_origin<S: Scalar>(
    parent: &LevelData<S>,
    child: &LevelData<S>,
    values: &[u32],
) -> (r: Vec<Vec<(u32, S)>>)
    requires
        parent.wf(),
        child_fits(*parent, *child, child.n()),
        flat(parent.topo.faces@).len() <= values@.len(),
    ensures
        views(r@) == linear_rows(*parent, *child, values@),
{
    reveal(Corners::wf);
    let starts: Vec<u32> = starts_of(&parent.topo.faces);
    let corners = Corners { faces: &parent.topo.faces, starts: starts.as_slice(), values };
    let ghost row = |cv: int, home: int|
        linear_row::<S>(
            parent.topo.faces@,
            values@,
            parent.topo.edges(),
            child.lineage.vertex_origin@[cv],
            home,
        );
    let ghost faces = child.topo.faces@;
    let ghost parents = child.lineage.face_parent@;
    let ghost all = Seq::new(
        faces.len(),
        |f: int| Seq::new(faces[f].len(), |k: int| row(faces[f][k] as int, parents[f] as int)),
    );
    let mut out: Vec<Vec<(u32, S)>> = Vec::new();
    assert(all.take(0) =~= Seq::<Seq<Seq<(u32, S)>>>::empty());
    assert(views(out@) =~= flat(all.take(0)));
    assert forall|f: int| 0 <= f < corners.faces@.len() implies (#[trigger] corners.faces@[f]).len() > 0 by {
        assert(parent.topo.faces@[f].len() >= 3);
    }
    let mut cf: usize = 0;
    while cf < child.topo.faces.len()
        invariant
            cf <= faces.len(),
            parent.wf(),
            child_fits(*parent, *child, child.n()),
            corners.wf(),
            corners.faces@ == parent.topo.faces@,
            corners.values@ == values@,
            forall|f: int| 0 <= f < corners.faces@.len() ==> (#[trigger] corners.faces@[f]).len() > 0,
            faces == child.topo.faces@,
            parents == child.lineage.face_parent@,
            row == (|cv: int, home: int|
                linear_row::<S>(
                    parent.topo.faces@,
                    values@,
                    parent.topo.edges(),
                    child.lineage.vertex_origin@[cv],
                    home,
                )),
            all == Seq::new(
                faces.len(),
                |f: int| Seq::new(faces[f].len(), |k: int| row(faces[f][k] as int, parents[f] as int)),
            ),
            views(out@) == flat(all.take(cf as int)),
        decreases faces.len() - cf,
    {
        assert(parents[cf as int] < parent.topo.faces@.len());
        assert(faces[cf as int].len() >= 3 && all_below(faces[cf as int], child.n() as int));
        let home: usize = child.lineage.face_parent[cf] as usize;
        let face: &[u32] = child.topo.faces.row(cf);
        let ghost before = views(out@);
        let mut k: usize = 0;
        assert(before + all[cf as int].take(0) =~= before);
        while k < face.len()
            invariant
                cf < faces.len(),
                k <= face.len(),
                face@ == faces[cf as int],
                all_below(face@, child.lineage.vertex_origin@.len() as int),
                origins_fit(
                    child.lineage.vertex_origin@,
                    parent.topo.faces@.len(),
                    parent.topo.edges().len(),
                ),
                home == parents[cf as int],
                home < parent.topo.faces@.len(),
                corners.wf(),
                corners.faces@ == parent.topo.faces@,
                corners.values@ == values@,
                forall|f: int| 0 <= f < corners.faces@.len() ==> (#[trigger] corners.faces@[f]).len() > 0,
                row == (|cv: int, home: int|
                    linear_row::<S>(
                        parent.topo.faces@,
                        values@,
                        parent.topo.edges(),
                        child.lineage.vertex_origin@[cv],
                        home,
                    )),
                all == Seq::new(
                    faces.len(),
                    |f: int| Seq::new(faces[f].len(), |k: int| row(faces[f][k] as int, parents[f] as int)),
                ),
                views(out@) == before + all[cf as int].take(k as int),
            decreases face.len() - k,
        {
            assert(face@[k as int] < child.lineage.vertex_origin@.len());
            let origin: VertexOrigin = child.lineage.vertex_origin[face[k] as usize];
            assert(origin == child.lineage.vertex_origin@[face@[k as int] as int]);
            let stencil: Vec<(u32, S)> = linear_stencil(&corners, &parent.topo.edge_vertices, origin, home);
            assert(stencil@ == all[cf as int][k as int]);
            let ghost vb = views(out@);
            out.push(stencil);
            assert(views(out@) =~= vb.push(stencil@));
            k += 1;
            assert(views(out@) =~= before + all[cf as int].take(k as int));
        }
        assert(all[cf as int].take(k as int) =~= all[cf as int]);
        proof {
            lemma_flat_take_next(all, cf as int);
        }
        cf += 1;
    }
    assert(all.take(cf as int) =~= all);
    out
}

/// The stencils of the smooth modes.
pub(crate) fn smooth_modes<S: Scalar>(
    parent: &LevelData<S>,
    child: &LevelData<S>,
    rows: &[Vec<(u32, S)>],
    values: &[u32],
    mode: FaceVaryingInterpolation,
) -> (r: Vec<Vec<(u32, S)>>)
    requires
        parent.wf(),
        child_fits(*parent, *child, rows@.len()),
        flat(parent.topo.faces@).len() <= values@.len(),
    ensures
        views(r@) == smooth_rows(*parent, *child, values@, views(rows@), mode),
{
    reveal(Corners::wf);
    let starts: Vec<u32> = starts_of(&parent.topo.faces);
    let corners = Corners { faces: &parent.topo.faces, starts: starts.as_slice(), values };
    let meetings: Vec<Vec<u32>> = meeting_rows(&parent.topo, Ghost(parent.n()));
    let seams: Vec<bool> = detect_seams(&parent.topo.edge_vertices, &meetings, &corners);
    let islands: Islands = Islands::build(&parent.topo.edge_vertices, &meetings, &seams, &corners);
    let tables = SmoothTables { corners, edges: parent.topo.edge_vertices.as_slice(), seams, islands, rows, mode };
    smooth_corners(&tables, child, Ghost(*parent))
}

fn smooth_corners<S: Scalar>(tables: &SmoothTables<S>, child: &LevelData<S>, Ghost(parent): Ghost<LevelData<S>>) -> (r:
    Vec<Vec<(u32, S)>>)
    requires
        tables.wf(),
        child_fits(parent, *child, tables.rows@.len()),
        tables.model() == smoothing_of(parent, tables.corners.values@, views(tables.rows@), tables.mode),
    ensures
        views(r@) == smooth_rows(parent, *child, tables.corners.values@, views(tables.rows@), tables.mode),
{
    let ghost m = tables.model();
    let ghost row = |cv: int, home: int| m.row(child.lineage.vertex_origin@[cv], cv, home);
    let ghost faces = child.topo.faces@;
    let ghost parents = child.lineage.face_parent@;
    let ghost all = Seq::new(
        faces.len(),
        |f: int| Seq::new(faces[f].len(), |k: int| row(faces[f][k] as int, parents[f] as int)),
    );
    let mut out: Vec<Vec<(u32, S)>> = Vec::new();
    assert(all.take(0) =~= Seq::<Seq<Seq<(u32, S)>>>::empty());
    assert(views(out@) =~= flat(all.take(0)));
    let mut cf: usize = 0;
    while cf < child.topo.faces.len()
        invariant
            cf <= faces.len(),
            tables.wf(),
            m == tables.model(),
            m == smoothing_of(parent, tables.corners.values@, views(tables.rows@), tables.mode),
            child_fits(parent, *child, tables.rows@.len()),
            faces == child.topo.faces@,
            parents == child.lineage.face_parent@,
            row == (|cv: int, home: int| m.row(child.lineage.vertex_origin@[cv], cv, home)),
            all == Seq::new(
                faces.len(),
                |f: int| Seq::new(faces[f].len(), |k: int| row(faces[f][k] as int, parents[f] as int)),
            ),
            views(out@) == flat(all.take(cf as int)),
        decreases faces.len() - cf,
    {
        assert(parents[cf as int] < parent.topo.faces@.len());
        assert(faces[cf as int].len() >= 3 && all_below(faces[cf as int], child.n() as int));
        let home: usize = child.lineage.face_parent[cf] as usize;
        let face: &[u32] = child.topo.faces.row(cf);
        let ghost before = views(out@);
        let mut k: usize = 0;
        assert(before + all[cf as int].take(0) =~= before);
        while k < face.len()
            invariant
                cf < faces.len(),
                k <= face.len(),
                face@ == faces[cf as int],
                all_below(face@, child.lineage.vertex_origin@.len() as int),
                child.lineage.vertex_origin@.len() == tables.rows@.len(),
                origins_fit(child.lineage.vertex_origin@, tables.corners.faces@.len(), tables.edges@.len()),
                home == parents[cf as int],
                home < tables.corners.faces@.len(),
                tables.wf(),
                m == tables.model(),
                row == (|cv: int, home: int| m.row(child.lineage.vertex_origin@[cv], cv, home)),
                all == Seq::new(
                    faces.len(),
                    |f: int| Seq::new(faces[f].len(), |k: int| row(faces[f][k] as int, parents[f] as int)),
                ),
                views(out@) == before + all[cf as int].take(k as int),
            decreases face.len() - k,
        {
            assert(face@[k as int] < child.lineage.vertex_origin@.len());
            let cv: usize = face[k] as usize;
            let origin: VertexOrigin = child.lineage.vertex_origin[cv];
            assert(origin == child.lineage.vertex_origin@[cv as int]);
            let stencil: Vec<(u32, S)> = tables.row(origin, cv, home);
            assert(stencil@ == all[cf as int][k as int]);
            let ghost vb = views(out@);
            out.push(stencil);
            assert(views(out@) =~= vb.push(stencil@));
            k += 1;
            assert(views(out@) =~= before + all[cf as int].take(k as int));
        }
        assert(all[cf as int].take(k as int) =~= all[cf as int]);
        proof {
            lemma_flat_take_next(all, cf as int);
        }
        cf += 1;
    }
    assert(all.take(cf as int) =~= all);
    out
}

/// The value of each corner, one after the other.
pub(crate) fn identity_values(count: u32) -> (r: Vec<u32>)
    ensures
        r@ == crate::sqrt3::refine::numbers(count as nat),
{
    let mut out: Vec<u32> = Vec::new();
    let mut i: u32 = 0;
    while i < count
        invariant
            i <= count,
            out@ == crate::sqrt3::refine::numbers(count as nat).take(i as int),
        decreases count - i,
    {
        out.push(i);
        i += 1;
        assert(out@ =~= crate::sqrt3::refine::numbers(count as nat).take(i as int));
    }
    assert(out@ =~= crate::sqrt3::refine::numbers(count as nat));
    out
}

// ---------------------------------------------------------------------------
// Laws
// ---------------------------------------------------------------------------
/// A channel that carries the vertices themselves has no seam but where fewer
/// than two faces meet.
pub proof fn vertex_channel_has_no_inner_seams(faces: Seq<Seq<u32>>, edge: EdgeKey)
    requires
        meeting(faces, edge).len() >= 2,
        forall|k: int| 0 <= k < 2 ==> (#[trigger] meeting(faces, edge)[k]) < faces.len() && faces[meeting(
            faces,
            edge,
        )[k] as int].contains(edge.0) && faces[meeting(faces, edge)[k] as int].contains(edge.1),
    ensures
        !is_seam(faces, flat(faces), edge),
{
    reveal(is_seam);
    let fs = meeting(faces, edge);
    assert(fs[0] < faces.len() && fs[1] < faces.len());
    lemma_vertex_value(faces, fs[0] as int, edge.0);
    lemma_vertex_value(faces, fs[1] as int, edge.0);
    lemma_vertex_value(faces, fs[0] as int, edge.1);
    lemma_vertex_value(faces, fs[1] as int, edge.1);
    lemma_has_corner(faces[fs[0] as int], edge.0);
    lemma_has_corner(faces[fs[1] as int], edge.0);
    lemma_has_corner(faces[fs[0] as int], edge.1);
    lemma_has_corner(faces[fs[1] as int], edge.1);
}

pub proof fn lemma_has_corner(face: Seq<u32>, v: u32)
    requires
        face.contains(v),
    ensures
        corner_at_vertex(face, v) is Some,
{
    let k = face.index_of(v);
    lemma_first_corner(face, v, k);
}

proof fn lemma_first_corner(face: Seq<u32>, v: u32, k: int)
    requires
        0 <= k < face.len(),
        face[k] == v,
    ensures
        exists|p: int| crate::rules::is_corner(face, v, p),
    decreases k,
{
    if exists|q: int| 0 <= q < k && face[q] == v {
        let q = choose|q: int| 0 <= q < k && face[q] == v;
        lemma_first_corner(face, v, q);
    } else {
        assert(crate::rules::is_corner(face, v, k));
    }
}

/// In a channel that carries the vertices themselves, the value of a vertex is
/// the vertex.
proof fn lemma_vertex_value(faces: Seq<Seq<u32>>, f: int, v: u32)
    requires
        0 <= f < faces.len(),
    ensures
        value_in_face(faces, flat(faces), f, v) is Some ==> value_in_face(faces, flat(faces), f, v) == Some(v),
{
    lemma_corner_at_vertex(faces[f], v);
    if let Some(c) = corner_at_vertex(faces[f], v) {
        crate::connectivity::lemma_flat_at(faces, f, c);
    }
}

proof fn lemma_first_is_vertex(
    faces: Seq<Seq<u32>>,
    values: Seq<u32>,
    edges: Seq<EdgeKey>,
    n: int,
    v: u32,
    home: int,
)
    ensures
        match first_in_chart(faces, values, edges, n, v, home) {
            Some(p) => 0 <= p < n && flat(faces)[p] == v,
            None => true,
        },
    decreases n,
{
    if n > 0 {
        lemma_first_is_vertex(faces, values, edges, n - 1, v, home);
    }
}

/// A channel that carries the vertices themselves is smoothed as the vertices
/// are: away from the seams every corner gets the stencil of its vertex.
pub proof fn vertex_channel_follows_vertices<S: Scalar>(m: Smoothing<S>, origin: VertexOrigin, cv: int, home: int)
    requires
        m.values == flat(m.faces),
        0 <= home < m.faces.len(),
        match origin {
            VertexOrigin::Edge(e) => !m.seams()[e as int],
            VertexOrigin::Vertex(v) => seam_ends(m.edges, m.seams(), v).len() == 0,
            VertexOrigin::Face(f) => f < m.faces.len(),
        },
    ensures
        m.row(origin, cv, home) == remapped(m.rows[cv], |u: u32| u),
{
    let at = match origin {
        VertexOrigin::Face(f) => f as int,
        _ => home,
    };
    let value = |u: u32| mapped_value(m.faces, m.values, m.edges, at, u);
    assert forall|u: u32| #[trigger] value(u) == u by {
        lemma_first_is_vertex(m.faces, m.values, m.edges, flat(m.faces).len() as int, u, at);
        lemma_vertex_value(m.faces, at, u);
    }
    lemma_remapped_same(m.rows[cv], value, |u: u32| u);
}

proof fn lemma_remapped_same<S: Scalar>(row: Seq<(u32, S)>, a: spec_fn(u32) -> u32, b: spec_fn(u32) -> u32)
    requires
        forall|u: u32| #[trigger] a(u) == b(u),
    ensures
        remapped(row, a) == remapped(row, b),
    decreases row.len(),
{
    if row.len() > 0 {
        lemma_remapped_same(row.drop_last(), a, b);
        assert(a(row.last().0) == b(row.last().0));
    }
}

/// Near a seam a smooth row reads values of its own chart, or of its own face,
/// or where neither has one the number of the vertex.
pub proof fn smooth_values_stay_in_their_chart(
    faces: Seq<Seq<u32>>,
    values: Seq<u32>,
    edges: Seq<EdgeKey>,
    home: int,
    u: u32,
)
    ensures
        ({
            let x = mapped_value(faces, values, edges, home, u);
            ||| exists|p: int|
                0 <= p < flat(faces).len() && #[trigger] values[p] == x && flat(faces)[p] == u && same_chart(
                    faces,
                    values,
                    edges,
                    corner_faces(faces)[p] as int,
                    home,
                )
            ||| value_in_face(faces, values, home, u) == Some(x)
            ||| x == u
        }),
{
    lemma_first_in_its_chart(faces, values, edges, flat(faces).len() as int, u, home);
    match first_in_chart(faces, values, edges, flat(faces).len() as int, u, home) {
        Some(p) => {
            assert(values[p] == mapped_value(faces, values, edges, home, u));
        },
        None => {},
    }
}

proof fn lemma_first_in_its_chart(
    faces: Seq<Seq<u32>>,
    values: Seq<u32>,
    edges: Seq<EdgeKey>,
    n: int,
    v: u32,
    home: int,
)
    ensures
        match first_in_chart(faces, values, edges, n, v, home) {
            Some(p) => 0 <= p < n && flat(faces)[p] == v && same_chart(
                faces,
                values,
                edges,
                corner_faces(faces)[p] as int,
                home,
            ),
            None => true,
        },
    decreases n,
{
    if n > 0 {
        lemma_first_in_its_chart(faces, values, edges, n - 1, v, home);
    }
}

} // verus!
