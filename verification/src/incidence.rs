//! From the buffers of a mesh to its incidence tables.

use crate::connectivity::{
    corner_faces, corner_keys, distinct, edge_key, edge_key_of, edge_tables, end_edges, end_points, face_keys,
    has_item, incident, key_label, key_labels, key_rows, key_table, lemma_corner, lemma_corner_counts, lemma_distinct,
    lemma_flat_at, lemma_incident, lemma_key_label_injective, lemma_listed, lemma_rows_within_flat, lemma_same_starts,
    listed, next_corner, owner_rows, pairs, vertex_edge_lists, vertex_edges_of, vertex_face_lists, vertex_faces_of,
    EdgeAccum,
};
use crate::csr::CsrVec;
use crate::hashing::{edge_map_get, edge_map_insert, edge_map_new, row_lists, EdgeKey, EdgeMap};
use crate::rows::{flat, lemma_flat_push, lemma_flat_row, lemma_flat_take_next, row_start, views};
use crate::scalar::{zero, zero_of, Scalar};
use crate::topology::{all_below, check_all_below, count_sum, lemma_count_sum_monotone, Mesh};
use vstd::prelude::*;

verus! {

/// Why the buffers of a mesh have no incidence tables.
#[derive(Debug, Clone, Copy, PartialEq, Eq, Structural)]
pub enum MeshFault {
    NoVertices,
    ShortFace,
    Underflow,
    MissingVertex,
    TrailingData,
    DegenerateEdge,
    NonManifoldEdge,
    /// The tables would not fit 32-bit offsets.
    TooLarge,
}

/// Incidence tables of a mesh.
pub struct Topology<S> {
    /// Vertices of each face.
    pub faces: CsrVec,
    /// For each corner of each face, the edge to the next corner.
    pub face_edges: CsrVec,
    pub edge_vertices: Vec<[u32; 2]>,
    pub edge_faces: CsrVec,
    pub vertex_edges: CsrVec,
    pub vertex_faces: CsrVec,
    pub edge_key_to_index: EdgeMap<usize>,
    pub edge_creases: Vec<S>,
    pub edge_is_boundary: Vec<bool>,
    pub vertex_is_boundary: Vec<bool>,
}

/// A uniformly refined mesh and its tables.
pub struct RefinedUniform<S> {
    pub face_vertex_counts: Vec<u32>,
    pub face_vertex_indices: Vec<u32>,
    pub face_parent: Vec<u32>,
    pub topology: Topology<S>,
}

// ---------------------------------------------------------------------------
// Decoding faces
// ---------------------------------------------------------------------------
/// Where face `f` starts in the index buffer.
pub open spec fn face_start(counts: Seq<u32>, f: int) -> int {
    count_sum(counts.take(f))
}

/// The vertices of each face.
pub open spec fn decoded(counts: Seq<u32>, indices: Seq<u32>) -> Seq<Seq<u32>> {
    Seq::new(
        counts.len(),
        |f: int| indices.subrange(face_start(counts, f), face_start(counts, f) + counts[f]),
    )
}

/// What is wrong with face `f`.
pub open spec fn face_fault(counts: Seq<u32>, indices: Seq<u32>, n: int, f: int) -> Option<MeshFault> {
    if counts[f] < 3 {
        Some(MeshFault::ShortFace)
    } else if face_start(counts, f) + counts[f] > indices.len() {
        Some(MeshFault::Underflow)
    } else if !all_below(decoded(counts, indices)[f], n) {
        Some(MeshFault::MissingVertex)
    } else {
        None
    }
}

/// The first fault among the first `k` faces.
pub open spec fn first_face_fault(counts: Seq<u32>, indices: Seq<u32>, n: int, k: int) -> Option<MeshFault>
    decreases k,
{
    if k <= 0 {
        None
    } else {
        match first_face_fault(counts, indices, n, k - 1) {
            Some(fault) => Some(fault),
            None => face_fault(counts, indices, n, k - 1),
        }
    }
}

pub open spec fn decode_fault(
    counts: Seq<u32>,
    indices: Seq<u32>,
    n: int,
    trailing_is_fault: bool,
) -> Option<MeshFault> {
    match first_face_fault(counts, indices, n, counts.len() as int) {
        Some(fault) => Some(fault),
        None => if trailing_is_fault && count_sum(counts) != indices.len() {
            Some(MeshFault::TrailingData)
        } else {
            None
        },
    }
}

proof fn lemma_first_face_fault(counts: Seq<u32>, indices: Seq<u32>, n: int, j: int, k: int)
    requires
        0 <= j <= k,
        first_face_fault(counts, indices, n, j) is Some,
    ensures
        first_face_fault(counts, indices, n, k) == first_face_fault(counts, indices, n, j),
    decreases k,
{
    if j < k {
        lemma_first_face_fault(counts, indices, n, j, k - 1);
    }
}

/// Without a fault every face is sound.
pub proof fn lemma_no_face_fault(counts: Seq<u32>, indices: Seq<u32>, n: int, k: int)
    requires
        first_face_fault(counts, indices, n, k) is None,
    ensures
        forall|f: int| 0 <= f < k ==> #[trigger] face_fault(counts, indices, n, f) is None,
    decreases k,
{
    if k > 0 {
        lemma_no_face_fault(counts, indices, n, k - 1);
        assert forall|f: int| 0 <= f < k implies #[trigger] face_fault(counts, indices, n, f) is None by {
            if f < k - 1 {
            }
        }
    }
}

/// The faces lie one after the other in the index buffer.
pub proof fn lemma_decoded_flat(counts: Seq<u32>, indices: Seq<u32>, k: int)
    requires
        0 <= k <= counts.len(),
        forall|f: int|
            0 <= f < k ==> #[trigger] face_start(counts, f) + counts[f] <= indices.len(),
    ensures
        0 <= face_start(counts, k),
        k > 0 ==> face_start(counts, k) <= indices.len(),
        row_start(decoded(counts, indices), k) == face_start(counts, k),
        flat(decoded(counts, indices).take(k)) == indices.take(face_start(counts, k)),
    decreases k,
{
    let faces = decoded(counts, indices);
    lemma_count_sum_monotone(counts, 0, k);
    assert(counts.take(0) =~= Seq::<u32>::empty());
    if k > 0 {
        lemma_decoded_flat(counts, indices, k - 1);
        assert(counts.take(k).drop_last() =~= counts.take(k - 1));
        lemma_flat_take_next(faces, k - 1);
        assert(face_start(counts, k - 1) + counts[k - 1] <= indices.len());
        assert(flat(faces.take(k)) =~= indices.take(face_start(counts, k)));
    } else {
        assert(faces.take(0) =~= Seq::<Seq<u32>>::empty());
        assert(flat(faces.take(0)) =~= indices.take(0));
    }
}

/// Cuts the index buffer into faces.
pub fn decode_faces(
    counts: &[u32],
    indices: &[u32],
    vertex_count: u32,
    trailing_is_fault: bool,
) -> (r: Result<Vec<Vec<u32>>, MeshFault>)
    ensures
        match r {
            Ok(faces) => decode_fault(counts@, indices@, vertex_count as int, trailing_is_fault) is None && views(
                faces@,
            ) == decoded(counts@, indices@),
            Err(fault) => decode_fault(counts@, indices@, vertex_count as int, trailing_is_fault) == Some(fault),
        },
{
    let ghost n = vertex_count as int;
    let ghost all = decoded(counts@, indices@);
    let mut faces: Vec<Vec<u32>> = Vec::new();
    let mut offset: usize = 0;
    let mut f: usize = 0;
    assert(counts@.take(0) =~= Seq::<u32>::empty());
    assert(views(faces@) =~= all.take(0));
    while f < counts.len()
        invariant
            f <= counts.len(),
            n == vertex_count,
            all == decoded(counts@, indices@),
            offset == face_start(counts@, f as int),
            offset <= indices.len(),
            first_face_fault(counts@, indices@, n, f as int) is None,
            views(faces@) == all.take(f as int),
        decreases counts.len() - f,
    {
        let count: usize = counts[f] as usize;
        assert(counts@.take(f + 1).drop_last() =~= counts@.take(f as int));
        proof {
            if first_face_fault(counts@, indices@, n, f + 1) is Some {
                lemma_first_face_fault(counts@, indices@, n, f + 1, counts@.len() as int);
            }
            assert(first_face_fault(counts@, indices@, n, f + 1) == face_fault(counts@, indices@, n, f as int));
        }
        if count < 3 {
            return Err(MeshFault::ShortFace);
        }
        if count > indices.len() - offset {
            return Err(MeshFault::Underflow);
        }
        let mut face: Vec<u32> = Vec::new();
        let mut c: usize = 0;
        while c < count
            invariant
                c <= count,
                offset + count <= indices.len(),
                face@ == indices@.subrange(offset as int, offset + c),
            decreases count - c,
        {
            face.push(indices[offset + c]);
            c += 1;
            assert(face@ =~= indices@.subrange(offset as int, offset + c));
        }
        assert(face@ == all[f as int]);
        if !check_all_below(&face, vertex_count) {
            return Err(MeshFault::MissingVertex);
        }
        let ghost before = views(faces@);
        faces.push(face);
        assert(views(faces@) =~= before.push(all[f as int]));
        offset += count;
        f += 1;
        assert(views(faces@) =~= all.take(f as int));
    }
    assert(counts@.take(f as int) =~= counts@);
    assert(all.take(f as int) =~= all);
    if trailing_is_fault && offset != indices.len() {
        return Err(MeshFault::TrailingData);
    }
    Ok(faces)
}

// ---------------------------------------------------------------------------
// Corner faults
// ---------------------------------------------------------------------------
/// What is wrong with the corner at place `p` of the stream: its edge has one
/// end point only, or two other faces already.
pub open spec fn corner_fault(keys: Seq<EdgeKey>, owners: Seq<u32>, p: int) -> Option<MeshFault> {
    if keys[p].0 == keys[p].1 {
        Some(MeshFault::DegenerateEdge)
    } else {
        let seen = incident(key_labels(keys).take(p), owners.take(p), key_label(keys[p]));
        if !seen.contains(owners[p]) && seen.len() >= 2 {
            Some(MeshFault::NonManifoldEdge)
        } else {
            None
        }
    }
}

/// The first fault among the first `p` corners.
pub open spec fn first_corner_fault(keys: Seq<EdgeKey>, owners: Seq<u32>, p: int) -> Option<MeshFault>
    decreases p,
{
    if p <= 0 {
        None
    } else {
        match first_corner_fault(keys, owners, p - 1) {
            Some(fault) => Some(fault),
            None => corner_fault(keys, owners, p - 1),
        }
    }
}

proof fn lemma_first_corner_fault(keys: Seq<EdgeKey>, owners: Seq<u32>, j: int, k: int)
    requires
        0 <= j <= k,
        first_corner_fault(keys, owners, j) is Some,
    ensures
        first_corner_fault(keys, owners, k) == first_corner_fault(keys, owners, j),
    decreases k,
{
    if j < k {
        lemma_first_corner_fault(keys, owners, j, k - 1);
    }
}

pub proof fn lemma_no_corner_fault(keys: Seq<EdgeKey>, owners: Seq<u32>, k: int)
    requires
        first_corner_fault(keys, owners, k) is None,
    ensures
        forall|p: int| 0 <= p < k ==> #[trigger] corner_fault(keys, owners, p) is None,
    decreases k,
{
    if k > 0 {
        lemma_no_corner_fault(keys, owners, k - 1);
        assert forall|p: int| 0 <= p < k implies #[trigger] corner_fault(keys, owners, p) is None by {
            if p < k - 1 {
            }
        }
    }
}

/// What is wrong with the edges of a list of faces.
pub open spec fn edge_fault(faces: Seq<Seq<u32>>) -> Option<MeshFault> {
    let keys = corner_keys(faces);
    if flat(faces).len() >= u32::MAX {
        Some(MeshFault::TooLarge)
    } else {
        match first_corner_fault(keys, corner_faces(faces), keys.len() as int) {
            Some(fault) => Some(fault),
            None => if 2 * distinct(key_labels(keys)).len() > u32::MAX {
                Some(MeshFault::TooLarge)
            } else {
                None
            },
        }
    }
}

/// The first fault of a mesh, in the order of the checks.
pub open spec fn mesh_fault(
    counts: Seq<u32>,
    indices: Seq<u32>,
    vertex_count: int,
    trailing_is_fault: bool,
) -> Option<MeshFault> {
    if vertex_count == 0 {
        Some(MeshFault::NoVertices)
    } else {
        match decode_fault(counts, indices, vertex_count, trailing_is_fault) {
            Some(fault) => Some(fault),
            None => edge_fault(decoded(counts, indices)),
        }
    }
}

// ---------------------------------------------------------------------------
// Creases
// ---------------------------------------------------------------------------
/// How two creases on the same edge are told apart.
#[derive(Debug, Clone, Copy, PartialEq, Eq, Structural)]
pub enum CreaseTie {
    /// The later one counts if the earlier one is less.
    Greater,
    /// The scalar type's own maximum.
    Maximum,
}

pub open spec fn tied<S: Scalar>(tie: CreaseTie, earlier: S, later: S) -> S {
    match tie {
        CreaseTie::Greater => if S::less_of(earlier, later) {
            later
        } else {
            earlier
        },
        CreaseTie::Maximum => S::larger_of(earlier, later),
    }
}

/// The crease that the first `k` given edges put on an edge.
pub open spec fn given_crease<S: Scalar>(
    tie: CreaseTie,
    edges: Seq<EdgeKey>,
    creases: Seq<S>,
    k: int,
    key: EdgeKey,
) -> Option<S>
    decreases k,
{
    if k <= 0 {
        None
    } else {
        let before = given_crease(tie, edges, creases, k - 1, key);
        if edge_key_of(edges[k - 1].0, edges[k - 1].1) == key {
            match before {
                None => Some(creases[k - 1]),
                Some(earlier) => Some(tied(tie, earlier, creases[k - 1])),
            }
        } else {
            before
        }
    }
}

/// Number of given edges that have a crease.
pub open spec fn given_count(edges: nat, creases: nat) -> int {
    if edges <= creases {
        edges as int
    } else {
        creases as int
    }
}

/// The crease of each edge: the one given for it, or none.
pub open spec fn edge_crease_list<S: Scalar>(
    tie: CreaseTie,
    given: Seq<EdgeKey>,
    creases: Seq<S>,
    edges: Seq<EdgeKey>,
) -> Seq<S> {
    Seq::new(
        edges.len(),
        |e: int|
            match given_crease(tie, given, creases, given_count(given.len(), creases.len()), edges[e]) {
                Some(crease) => crease,
                None => zero_of::<S>(),
            },
    )
}

/// Looks up the crease of each edge among the given ones.
pub fn edge_creases_of<S: Scalar>(
    tie: CreaseTie,
    given: &[[u32; 2]],
    creases: &[S],
    edges: &[[u32; 2]],
) -> (r: Vec<S>)
    requires
        forall|e: int| 0 <= e < edges@.len() ==> (#[trigger] pairs(edges@)[e]).0 <= pairs(edges@)[e].1,
    ensures
        r@ == edge_crease_list(tie, pairs(given@), creases@, pairs(edges@)),
{
    let ghost pg = pairs(given@);
    let count: usize = if given.len() <= creases.len() {
        given.len()
    } else {
        creases.len()
    };
    let mut source: EdgeMap<S> = edge_map_new();
    let mut k: usize = 0;
    while k < count
        invariant
            k <= count,
            count <= given.len(),
            count <= creases.len(),
            pg == pairs(given@),
            forall|key: EdgeKey|
                given_crease(tie, pg, creases@, k as int, key) == (if #[trigger] source@.contains_key(key) {
                    Some(source@[key])
                } else {
                    None
                }),
        decreases count - k,
    {
        let key: EdgeKey = edge_key(given[k][0], given[k][1]);
        assert(pg[k as int] == (given@[k as int]@[0], given@[k as int]@[1]));
        let crease: S = creases[k];
        let ghost before = source@;
        let value: S = match edge_map_get(&source, key) {
            None => crease,
            Some(earlier) => match tie {
                CreaseTie::Greater => if earlier.less(crease) {
                    crease
                } else {
                    earlier
                },
                CreaseTie::Maximum => earlier.larger(crease),
            },
        };
        edge_map_insert(&mut source, key, value);
        assert forall|q: EdgeKey|
            given_crease(tie, pg, creases@, k + 1, q) == (if #[trigger] source@.contains_key(q) {
                Some(source@[q])
            } else {
                None
            }) by {
            assert(given_crease(tie, pg, creases@, k as int, q) == (if before.contains_key(q) {
                Some(before[q])
            } else {
                None
            }));
        }
        k += 1;
    }
    let ghost all = edge_crease_list(tie, pg, creases@, pairs(edges@));
    let mut out: Vec<S> = Vec::new();
    let mut e: usize = 0;
    while e < edges.len()
        invariant
            e <= edges.len(),
            forall|e: int| 0 <= e < edges@.len() ==> (#[trigger] pairs(edges@)[e]).0 <= pairs(edges@)[e].1,
            count == given_count(pg.len(), creases@.len()),
            forall|key: EdgeKey|
                given_crease(tie, pg, creases@, count as int, key) == (if #[trigger] source@.contains_key(key) {
                    Some(source@[key])
                } else {
                    None
                }),
            all == edge_crease_list(tie, pg, creases@, pairs(edges@)),
            out@ == all.take(e as int),
        decreases edges.len() - e,
    {
        let key: EdgeKey = edge_key(edges[e][0], edges[e][1]);
        assert(pairs(edges@)[e as int] == (edges@[e as int]@[0], edges@[e as int]@[1]));
        assert(key == pairs(edges@)[e as int]);
        let value: S = match edge_map_get(&source, key) {
            Some(crease) => crease,
            None => zero::<S>(),
        };
        out.push(value);
        e += 1;
        assert(out@ =~= all.take(e as int));
    }
    assert(all.take(e as int) =~= all);
    out
}

// ---------------------------------------------------------------------------
// Boundaries
// ---------------------------------------------------------------------------
/// An edge with fewer than two faces is on the boundary.
pub open spec fn boundary_edges(edge_faces: Seq<Seq<u32>>) -> Seq<bool> {
    edge_faces.map_values(|row: Seq<u32>| row.len() < 2)
}

pub open spec fn any_flagged(list: Seq<u32>, flags: Seq<bool>) -> bool {
    exists|k: int| 0 <= k < list.len() && flags[#[trigger] list[k] as int]
}

/// A vertex of a boundary edge is on the boundary.
pub open spec fn boundary_vertices(vertex_edges: Seq<Seq<u32>>, edge_is_boundary: Seq<bool>) -> Seq<bool> {
    vertex_edges.map_values(|row: Seq<u32>| any_flagged(row, edge_is_boundary))
}

pub(crate) fn check_any_flagged(list: &[u32], flags: &[bool]) -> (r: bool)
    requires
        all_below(list@, flags@.len() as int),
    ensures
        r == any_flagged(list@, flags@),
{
    let mut k: usize = 0;
    while k < list.len()
        invariant
            k <= list.len(),
            all_below(list@, flags@.len() as int),
            forall|j: int| 0 <= j < k ==> !flags@[#[trigger] list@[j] as int],
        decreases list.len() - k,
    {
        assert(list@[k as int] < flags@.len());
        if flags[list[k] as usize] {
            assert(flags@[list@[k as int] as int]);
            return true;
        }
        k += 1;
    }
    false
}

pub(crate) fn boundary_edges_of(edge_faces: &CsrVec) -> (r: Vec<bool>)
    requires
        edge_faces.wf(),
    ensures
        r@ == boundary_edges(edge_faces@),
{
    let mut out: Vec<bool> = Vec::new();
    let mut e: usize = 0;
    while e < edge_faces.len()
        invariant
            e <= edge_faces@.len(),
            edge_faces.wf(),
            out@ == boundary_edges(edge_faces@).take(e as int),
        decreases edge_faces@.len() - e,
    {
        out.push(edge_faces.row_len(e) < 2);
        e += 1;
        assert(out@ =~= boundary_edges(edge_faces@).take(e as int));
    }
    assert(out@ =~= boundary_edges(edge_faces@));
    out
}

pub(crate) fn boundary_vertices_of(vertex_edges: &CsrVec, edge_is_boundary: &[bool]) -> (r: Vec<bool>)
    requires
        vertex_edges.wf(),
        forall|v: int|
            0 <= v < vertex_edges@.len() ==> all_below(#[trigger] vertex_edges@[v], edge_is_boundary@.len() as int),
    ensures
        r@ == boundary_vertices(vertex_edges@, edge_is_boundary@),
{
    let mut out: Vec<bool> = Vec::new();
    let mut v: usize = 0;
    while v < vertex_edges.len()
        invariant
            v <= vertex_edges@.len(),
            vertex_edges.wf(),
            forall|v: int|
                0 <= v < vertex_edges@.len() ==> all_below(
                    #[trigger] vertex_edges@[v],
                    edge_is_boundary@.len() as int,
                ),
            out@ == boundary_vertices(vertex_edges@, edge_is_boundary@).take(v as int),
        decreases vertex_edges@.len() - v,
    {
        assert(all_below(vertex_edges@[v as int], edge_is_boundary@.len() as int));
        out.push(check_any_flagged(vertex_edges.row(v), edge_is_boundary));
        v += 1;
        assert(out@ =~= boundary_vertices(vertex_edges@, edge_is_boundary@).take(v as int));
    }
    assert(out@ =~= boundary_vertices(vertex_edges@, edge_is_boundary@));
    out
}

// ---------------------------------------------------------------------------
// What the tables say
// ---------------------------------------------------------------------------
impl<S: Scalar> Topology<S> {
    /// End points of the edges.
    pub open spec fn edges(self) -> Seq<EdgeKey> {
        pairs(self.edge_vertices@)
    }

    /// The tables are those of `faces` over `n` vertices, with corners on equal
    /// edges where their `labels` are equal.
    pub open spec fn describes(self, faces: Seq<Seq<u32>>, labels: Seq<int>, n: nat) -> bool {
        &&& self.describes_edges(faces, labels, n)
        &&& self.vertex_faces@ == vertex_face_lists(faces, n)
    }

    /// As `describes`, with nothing said of the faces around a vertex.
    pub open spec fn describes_edges(self, faces: Seq<Seq<u32>>, labels: Seq<int>, n: nat) -> bool {
        &&& self.faces.packed()
        &&& self.face_edges.packed()
        &&& self.edge_faces.packed()
        &&& self.vertex_edges.packed()
        &&& self.vertex_faces.packed()
        &&& self.faces@ == faces
        &&& self.face_edges@.len() == faces.len()
        &&& forall|f: int| 0 <= f < faces.len() ==> (#[trigger] self.face_edges@[f]).len() == faces[f].len()
        &&& edge_tables(
            self.edges(),
            flat(self.face_edges@),
            self.edge_faces@,
            labels,
            corner_keys(faces),
            corner_faces(faces),
        )
        &&& key_table(self.edges(), self.edge_key_to_index@)
        &&& self.vertex_edges@ == vertex_edge_lists(self.edges(), n)
        &&& self.edge_is_boundary@ == boundary_edges(self.edge_faces@)
        &&& self.vertex_is_boundary@ == boundary_vertices(self.vertex_edges@, self.edge_is_boundary@)
        &&& self.edge_creases@.len() == self.edges().len()
    }

    /// All indices are in range and the tables agree with each other.
    pub open spec fn sound(self, n: nat) -> bool {
        &&& n <= u32::MAX
        &&& self.faces@.len() <= u32::MAX
        &&& 2 * self.edges().len() <= u32::MAX
        &&& flat(self.faces@).len() < u32::MAX
        &&& self.faces.packed()
        &&& self.face_edges.packed()
        &&& self.edge_faces.packed()
        &&& self.vertex_edges.packed()
        &&& self.vertex_faces.packed()
        &&& self.face_edges@.len() == self.faces@.len()
        &&& forall|f: int|
            0 <= f < self.faces@.len() ==> (#[trigger] self.faces@[f]).len() >= 3 && all_below(
                self.faces@[f],
                n as int,
            )
        &&& forall|f: int|
            0 <= f < self.faces@.len() ==> (#[trigger] self.face_edges@[f]).len() == self.faces@[f].len()
                && all_below(self.face_edges@[f], self.edges().len() as int)
        &&& forall|f: int, c: int|
            #![trigger self.face_edges@[f][c]]
            0 <= f < self.faces@.len() && 0 <= c < self.faces@[f].len()
                ==> self.edges()[self.face_edges@[f][c] as int] == face_keys(self.faces@[f])[c]
        &&& forall|e: int|
            0 <= e < self.edges().len() ==> (#[trigger] self.edges()[e]).0 < self.edges()[e].1 && self.edges()[e].1
                < n
        &&& self.edge_faces@.len() == self.edges().len()
        &&& forall|e: int|
            0 <= e < self.edges().len() ==> (#[trigger] self.edge_faces@[e]).len() > 0 && all_below(
                self.edge_faces@[e],
                self.faces@.len() as int,
            )
        &&& self.vertex_edges@.len() == n
        &&& forall|v: int|
            0 <= v < n ==> all_below(#[trigger] self.vertex_edges@[v], self.edges().len() as int)
                && self.vertex_edges@[v].len() < u32::MAX
        &&& forall|v: int, k: int|
            #![trigger self.vertex_edges@[v][k]]
            0 <= v < n && 0 <= k < self.vertex_edges@[v].len() ==> {
                let e = self.edges()[self.vertex_edges@[v][k] as int];
                e.0 == v || e.1 == v
            }
        &&& self.vertex_faces@.len() == n
        &&& forall|v: int| 0 <= v < n ==> all_below(#[trigger] self.vertex_faces@[v], self.faces@.len() as int)
        &&& self.edge_is_boundary@ == boundary_edges(self.edge_faces@)
        &&& self.vertex_is_boundary@ == boundary_vertices(self.vertex_edges@, self.edge_is_boundary@)
        &&& self.edge_creases@.len() == self.edges().len()
        &&& key_table(self.edges(), self.edge_key_to_index@)
    }
}

/// The row and the place in it of an entry of the flat buffer.
pub proof fn lemma_flat_locate<A>(rows: Seq<Seq<A>>, p: int) -> (r: (int, int))
    requires
        0 <= p < flat(rows).len(),
    ensures
        0 <= r.0 < rows.len(),
        0 <= r.1 < rows[r.0].len(),
        p == row_start(rows, r.0) + r.1,
        flat(rows)[p] == rows[r.0][r.1],
    decreases rows.len(),
{
    let front = rows.drop_last();
    let last = rows.len() - 1;
    assert(rows.take(last) =~= front);
    if p < flat(front).len() {
        let r = lemma_flat_locate(front, p);
        assert(front.take(r.0) =~= rows.take(r.0));
        lemma_flat_at(rows, r.0, r.1);
        r
    } else {
        (last, p - flat(front).len())
    }
}

/// Each edge has a corner that lies on it.
pub proof fn lemma_edge_has_corner(
    edges: Seq<EdgeKey>,
    ids: Seq<u32>,
    edge_faces: Seq<Seq<u32>>,
    labels: Seq<int>,
    keys: Seq<EdgeKey>,
    owners: Seq<u32>,
    e: int,
) -> (c: int)
    requires
        edge_tables(edges, ids, edge_faces, labels, keys, owners),
        0 <= e < edges.len(),
    ensures
        0 <= c < ids.len(),
        ids[c] == e,
        keys[c] == edges[e],
        edge_faces[e].contains(owners[c]),
{
    let d = distinct(labels);
    lemma_distinct(labels);
    assert(d.contains(d[e]));
    assert(labels.contains(d[e]));
    let c = labels.index_of(d[e]);
    assert(ids[c] < edges.len() && d[ids[c] as int] == labels[c]);
    lemma_incident(labels, owners, d[e]);
    assert(edge_faces[e] == incident(labels, owners, d[e]));
    assert(labels[c] == d[e] && owners[c] == owners[c]);
    c
}

/// Tables of well-formed faces are sound.
#[verifier::rlimit(60)]
pub proof fn lemma_described_is_sound<S: Scalar>(
    t: Topology<S>,
    faces: Seq<Seq<u32>>,
    labels: Seq<int>,
    n: nat,
)
    requires
        t.describes(faces, labels, n),
        n <= u32::MAX,
        2 * t.edges().len() <= u32::MAX,
        flat(faces).len() < u32::MAX,
        forall|f: int|
            0 <= f < faces.len() ==> (#[trigger] faces[f]).len() >= 3 && all_below(faces[f], n as int),
        forall|p: int|
            0 <= p < corner_keys(faces).len() ==> (#[trigger] corner_keys(faces)[p]).0 != corner_keys(faces)[p].1,
    ensures
        t.sound(n),
{
    let edges = t.edges();
    let ids = flat(t.face_edges@);
    let keys = corner_keys(faces);
    let owners = corner_faces(faces);
    lemma_rows_within_flat(faces);
    lemma_corner_counts(faces);
    assert forall|f: int, c: int|
        #![trigger t.face_edges@[f][c]]
        0 <= f < faces.len() && 0 <= c < faces[f].len() implies t.face_edges@[f][c] < edges.len()
        && edges[t.face_edges@[f][c] as int] == face_keys(faces[f])[c] by {
        assert(t.face_edges@[f].len() == faces[f].len());
        lemma_flat_at(t.face_edges@, f, c);
        lemma_corner(faces, f, c);
        lemma_same_starts(t.face_edges@, faces, f);
        let p = row_start(faces, f) + c;
        assert(ids[p] < edges.len());
        assert(edges[ids[p] as int] == keys[p]);
    }
    assert forall|f: int| 0 <= f < faces.len() implies all_below(
        #[trigger] t.face_edges@[f],
        edges.len() as int,
    ) by {
        assert(t.face_edges@[f].len() == faces[f].len());
        assert forall|c: int| 0 <= c < t.face_edges@[f].len() implies (#[trigger] t.face_edges@[f][c]) < edges.len() by {}
    }
    assert forall|e: int| 0 <= e < edges.len() implies (#[trigger] edges[e]).0 < edges[e].1 && edges[e].1 < n
        && t.edge_faces@[e].len() > 0 by {
        let c = lemma_edge_has_corner(edges, ids, t.edge_faces@, labels, keys, owners, e);
        let (f, k) = lemma_flat_locate(key_rows(faces), c);
        assert(keys[c].0 != keys[c].1);
        assert(all_below(faces[f], n as int));
        let nk = next_corner(k, faces[f].len() as int);
        assert(faces[f][k] < n && faces[f][nk] < n);
    }
    assert forall|e: int| 0 <= e < edges.len() implies (#[trigger] t.edge_faces@[e]).len() > 0 && all_below(
        t.edge_faces@[e],
        faces.len() as int,
    ) by {
        assert(edges[e].1 < n);
        let row = t.edge_faces@[e];
        lemma_incident(labels, owners, distinct(labels)[e]);
        assert forall|k: int| 0 <= k < row.len() implies (#[trigger] row[k]) < faces.len() by {
            assert(row.contains(row[k]));
            let i = choose|i: int|
                0 <= i < labels.len() && #[trigger] labels[i] == distinct(labels)[e] && owners[i] == row[k];
            let (f, c) = lemma_flat_locate(owner_rows(faces), i);
        }
    }
    assert forall|v: int, k: int|
        #![trigger t.vertex_edges@[v][k]]
        0 <= v < n && 0 <= k < t.vertex_edges@[v].len() implies t.vertex_edges@[v][k] < edges.len() && ({
        let e = edges[t.vertex_edges@[v][k] as int];
        e.0 == v || e.1 == v
    }) by {
        let marks = end_points(edges);
        let items = end_edges(edges.len());
        lemma_listed(marks, items, v as u32);
        let l = listed(marks, items, v as u32);
        assert(t.vertex_edges@[v] == l);
        let i = choose|i: int| 0 <= i < marks.len() && #[trigger] marks[i] == v as u32 && items[i] == l[k];
        assert(0 <= i / 2 < edges.len());
    }
    assert forall|v: int| 0 <= v < n implies all_below(#[trigger] t.vertex_edges@[v], edges.len() as int)
        && t.vertex_edges@[v].len() < u32::MAX by {
        lemma_listed(end_points(edges), end_edges(edges.len()), v as u32);
        assert(t.vertex_edges@[v] == listed(end_points(edges), end_edges(edges.len()), v as u32));
        assert forall|k: int| 0 <= k < t.vertex_edges@[v].len() implies (#[trigger] t.vertex_edges@[v][k])
            < edges.len() by {}
    }
    assert forall|v: int| 0 <= v < n implies all_below(#[trigger] t.vertex_faces@[v], faces.len() as int) by {
        let marks = flat(faces);
        lemma_listed(marks, owners, v as u32);
        let l = listed(marks, owners, v as u32);
        assert(t.vertex_faces@[v] == l);
        assert forall|k: int| 0 <= k < l.len() implies (#[trigger] l[k]) < faces.len() by {
            let i = choose|i: int| 0 <= i < marks.len() && #[trigger] marks[i] == v as u32 && owners[i] == l[k];
            let (f, c) = lemma_flat_locate(owner_rows(faces), i);
        }
    }
}

// ---------------------------------------------------------------------------
// Building the tables
// ---------------------------------------------------------------------------
/// Turns finished edge tables into incidence tables.
pub(crate) fn assemble<S: Scalar>(
    accum: EdgeAccum,
    faces: CsrVec,
    face_edges: CsrVec,
    n: u32,
    edge_creases: Vec<S>,
    Ghost(labels): Ghost<Seq<int>>,
) -> (r: Topology<S>)
    requires
        accum.tracks(labels, corner_keys(faces@), corner_faces(faces@)),
        faces.packed(),
        face_edges.packed(),
        face_edges@.len() == faces@.len(),
        forall|f: int| 0 <= f < faces@.len() ==> (#[trigger] face_edges@[f]).len() == faces@[f].len(),
        flat(face_edges@) == accum.fe_values@,
        flat(faces@).len() < u32::MAX,
        2 * accum.edge_vertices@.len() <= u32::MAX,
        edge_creases@.len() == accum.edge_vertices@.len(),
        forall|f: int|
            0 <= f < faces@.len() ==> (#[trigger] faces@[f]).len() >= 3 && all_below(faces@[f], n as int),
        forall|p: int|
            0 <= p < corner_keys(faces@).len() ==> (#[trigger] corner_keys(faces@)[p]).0 != corner_keys(
                faces@,
            )[p].1,
    ensures
        r.describes(faces@, labels, n as nat),
        r.sound(n as nat),
        r.edges() == pairs(accum.edge_vertices@),
        r.edge_creases@ == edge_creases@,
{
    reveal(EdgeAccum::tracks);
    let ghost edges = pairs(accum.edge_vertices@);
    let ghost keys = corner_keys(faces@);
    let ghost owners = corner_faces(faces@);
    proof {
        lemma_rows_within_flat(faces@);
        lemma_corner_counts(faces@);
        assert forall|e: int| 0 <= e < edges.len() implies (#[trigger] edges[e]).0 < n && edges[e].1 < n by {
            let c = lemma_edge_has_corner(
                edges,
                accum.fe_values@,
                row_lists(accum.edge_faces@),
                labels,
                keys,
                owners,
                e,
            );
            let (f, k) = lemma_flat_locate(key_rows(faces@), c);
            let nk = next_corner(k, faces@[f].len() as int);
            assert(all_below(faces@[f], n as int));
            assert(faces@[f][k] < n && faces@[f][nk] < n);
        }
        assert forall|i: int| 0 <= i < flat(faces@).len() implies (#[trigger] flat(faces@)[i]) < n by {
            let (f, c) = lemma_flat_locate(faces@, i);
            assert(all_below(faces@[f], n as int));
        }
        lemma_incidences_fit(labels, owners);
    }
    let EdgeAccum { edge_vertices, edge_faces, edge_key_to_index, fe_values } = accum;
    assert(row_lists(edge_faces@) =~= incidence_rows(labels, owners));
    let edge_faces: CsrVec = CsrVec::from_rows(&edge_faces);
    let vertex_edges: CsrVec = vertex_edges_of(&edge_vertices, n as usize);
    let vertex_faces: CsrVec = vertex_faces_of(&faces, n as usize);
    let edge_is_boundary: Vec<bool> = boundary_edges_of(&edge_faces);
    proof {
        assert forall|v: int| 0 <= v < vertex_edges@.len() implies all_below(
            #[trigger] vertex_edges@[v],
            edges.len() as int,
        ) by {
            let marks = end_points(edges);
            let items = end_edges(edges.len());
            lemma_listed(marks, items, v as u32);
            let l = listed(marks, items, v as u32);
            assert forall|k: int| 0 <= k < l.len() implies (#[trigger] l[k]) < edges.len() by {
                let i = choose|i: int| 0 <= i < marks.len() && #[trigger] marks[i] == v as u32 && items[i] == l[k];
                assert(0 <= i / 2 < edges.len());
            }
        }
    }
    let vertex_is_boundary: Vec<bool> = boundary_vertices_of(&vertex_edges, &edge_is_boundary);
    let t = Topology {
        faces,
        face_edges,
        edge_vertices,
        edge_faces,
        vertex_edges,
        vertex_faces,
        edge_key_to_index,
        edge_creases,
        edge_is_boundary,
        vertex_is_boundary,
    };
    proof {
        lemma_described_is_sound(t, faces@, labels, n as nat);
    }
    t
}

/// The incidence lists of all labels.
pub open spec fn incidence_rows(labels: Seq<int>, owners: Seq<u32>) -> Seq<Seq<u32>> {
    Seq::new(distinct(labels).len(), |e: int| incident(labels, owners, distinct(labels)[e]))
}

/// Together the incidence lists have no more entries than there are corners.
pub proof fn lemma_incidences_fit(labels: Seq<int>, owners: Seq<u32>)
    requires
        labels.len() == owners.len(),
    ensures
        flat(incidence_rows(labels, owners)).len() <= labels.len(),
    decreases labels.len(),
{
    let rows = incidence_rows(labels, owners);
    if labels.len() == 0 {
        assert(rows =~= Seq::<Seq<u32>>::empty());
    } else {
        let fl = labels.drop_last();
        let fo = owners.drop_last();
        let x = labels.last();
        let before = incidence_rows(fl, fo);
        lemma_incidences_fit(fl, fo);
        lemma_distinct(fl);
        let d = distinct(fl);
        if d.contains(x) {
            let i = d.index_of(x);
            assert forall|e: int| 0 <= e < d.len() && e != i implies rows[e] == before[e] by {
                assert(d[e] != x);
            }
            if incident(fl, fo, x).contains(owners.last()) {
                assert(rows =~= before);
            } else {
                assert(rows =~= before.update(i, before[i].push(owners.last())));
                crate::rows::lemma_flat_len_grow(before, i, owners.last());
            }
        } else {
            lemma_incident(fl, fo, x);
            assert(!fl.contains(x));
            assert(incident(fl, fo, x) =~= Seq::<u32>::empty()) by {
                if incident(fl, fo, x).len() > 0 {
                    assert(incident(fl, fo, x).contains(incident(fl, fo, x)[0]));
                }
            }
            assert forall|e: int| 0 <= e < d.len() implies rows[e] == before[e] by {
                assert(d.contains(d[e]));
            }
            assert(rows =~= before.push(seq![owners.last()]));
            lemma_flat_push(before, seq![owners.last()]);
        }
    }
}

/// The incidence tables of a mesh.
pub fn build_topology_raw<S: Scalar>(
    mesh: &Mesh<S>,
    trailing_is_fault: bool,
    tie: CreaseTie,
) -> (r: Result<Topology<S>, MeshFault>)
    ensures
        ({
            let fault = mesh_fault(
                mesh.face_vertex_counts@,
                mesh.face_vertex_indices@,
                mesh.vertex_count as int,
                trailing_is_fault,
            );
            let faces = decoded(mesh.face_vertex_counts@, mesh.face_vertex_indices@);
            match r {
                Ok(t) => {
                    &&& fault is None
                    &&& t.describes(faces, key_labels(corner_keys(faces)), mesh.vertex_count as nat)
                    &&& t.sound(mesh.vertex_count as nat)
                    &&& t.edge_creases@ == edge_crease_list(
                        tie,
                        pairs(mesh.edge_vertices@),
                        mesh.edge_creases@,
                        t.edges(),
                    )
                },
                Err(x) => fault == Some(x),
            }
        }),
{
    if mesh.vertex_count == 0 {
        return Err(MeshFault::NoVertices);
    }
    let decoded_faces: Vec<Vec<u32>> = match decode_faces(
        &mesh.face_vertex_counts,
        &mesh.face_vertex_indices,
        mesh.vertex_count,
        trailing_is_fault,
    ) {
        Ok(faces) => faces,
        Err(fault) => {
            return Err(fault);
        },
    };
    let ghost faces = decoded(mesh.face_vertex_counts@, mesh.face_vertex_indices@);
    let ghost keys = corner_keys(faces);
    let ghost labels = key_labels(keys);
    let ghost owners = corner_faces(faces);
    let index_count: usize = mesh.face_vertex_indices.len();
    let mut corner_count: usize = 0;
    let mut i: usize = 0;
    assert(faces.take(0) =~= Seq::<Seq<u32>>::empty());
    proof {
        lemma_no_face_fault(
            mesh.face_vertex_counts@,
            mesh.face_vertex_indices@,
            mesh.vertex_count as int,
            faces.len() as int,
        );
        assert forall|f: int| 0 <= f < faces.len() implies (#[trigger] faces[f]).len() >= 3 && all_below(
            faces[f],
            mesh.vertex_count as int,
        ) by {
            assert(face_fault(
                mesh.face_vertex_counts@,
                mesh.face_vertex_indices@,
                mesh.vertex_count as int,
                f,
            ) is None);
            lemma_count_sum_monotone(mesh.face_vertex_counts@, 0, f);
            assert(mesh.face_vertex_counts@.take(0) =~= Seq::<u32>::empty());
        }
        lemma_corner_counts(faces);
        assert forall|f: int| 0 <= f < faces.len() implies #[trigger] face_start(mesh.face_vertex_counts@, f)
            + mesh.face_vertex_counts@[f] <= mesh.face_vertex_indices@.len() by {
            assert(face_fault(
                mesh.face_vertex_counts@,
                mesh.face_vertex_indices@,
                mesh.vertex_count as int,
                f,
            ) is None);
        }
        lemma_decoded_flat(mesh.face_vertex_counts@, mesh.face_vertex_indices@, faces.len() as int);
        assert(faces.take(faces.len() as int) =~= faces);
        assert(flat(faces).len() <= index_count);
    }
    while i < decoded_faces.len()
        invariant
            i <= decoded_faces.len(),
            views(decoded_faces@) == faces,
            corner_count == row_start(faces, i as int),
            flat(faces).len() <= usize::MAX,
        decreases decoded_faces.len() - i,
    {
        proof {
            lemma_flat_row(faces, i as int);
        }
        assert(decoded_faces@[i as int]@ == faces[i as int]);
        corner_count += decoded_faces[i].len();
        i += 1;
    }
    assert(faces.take(i as int) =~= faces);
    if corner_count >= u32::MAX as usize {
        return Err(MeshFault::TooLarge);
    }
    proof {
        lemma_rows_within_flat(faces);
    }
    let mut accum: EdgeAccum = EdgeAccum::new();
    let ghost mut p: int = 0;
    let mut f: usize = 0;
    assert(keys.take(0) =~= Seq::<EdgeKey>::empty());
    assert(labels.take(0) =~= Seq::<int>::empty());
    assert(owners.take(0) =~= Seq::<u32>::empty());
    while f < decoded_faces.len()
        invariant
            f <= decoded_faces.len(),
            views(decoded_faces@) == faces,
            faces.len() <= u32::MAX,
            flat(faces).len() < u32::MAX,
            keys == corner_keys(faces),
            labels == key_labels(keys),
            owners == corner_faces(faces),
            keys.len() == flat(faces).len(),
            owners.len() == flat(faces).len(),
            forall|f: int| 0 <= f < faces.len() ==> (#[trigger] faces[f]).len() >= 3,
            p == row_start(faces, f as int),
            p <= flat(faces).len(),
            accum.tracks(labels.take(p), keys.take(p), owners.take(p)),
            first_corner_fault(keys, owners, p) is None,
            mesh.vertex_count > 0,
            faces == decoded(mesh.face_vertex_counts@, mesh.face_vertex_indices@),
            decode_fault(
                mesh.face_vertex_counts@,
                mesh.face_vertex_indices@,
                mesh.vertex_count as int,
                trailing_is_fault,
            ) is None,
        decreases decoded_faces.len() - f,
    {
        let face: &Vec<u32> = &decoded_faces[f];
        assert(face@ == faces[f as int]);
        let count: usize = face.len();
        let mut c: usize = 0;
        while c < count
            invariant
                f < decoded_faces.len(),
                c <= count,
                count == face@.len(),
                face@ == faces[f as int],
                views(decoded_faces@) == faces,
                faces.len() <= u32::MAX,
                flat(faces).len() < u32::MAX,
                keys == corner_keys(faces),
                labels == key_labels(keys),
                owners == corner_faces(faces),
                keys.len() == flat(faces).len(),
                owners.len() == flat(faces).len(),
                p == row_start(faces, f as int) + c,
                p <= flat(faces).len(),
                accum.tracks(labels.take(p), keys.take(p), owners.take(p)),
                first_corner_fault(keys, owners, p) is None,
                mesh.vertex_count > 0,
                faces == decoded(mesh.face_vertex_counts@, mesh.face_vertex_indices@),
                decode_fault(
                    mesh.face_vertex_counts@,
                    mesh.face_vertex_indices@,
                    mesh.vertex_count as int,
                    trailing_is_fault,
                ) is None,
            decreases count - c,
        {
            proof {
                lemma_corner(faces, f as int, c as int);
                lemma_flat_row(faces, f as int);
                if first_corner_fault(keys, owners, p + 1) is Some {
                    lemma_first_corner_fault(keys, owners, p + 1, keys.len() as int);
                }
                assert(first_corner_fault(keys, owners, p + 1) == corner_fault(keys, owners, p));
            }
            let v0: u32 = face[c];
            let v1: u32 = if c + 1 == count {
                face[0]
            } else {
                face[c + 1]
            };
            let key: EdgeKey = edge_key(v0, v1);
            assert(key == keys[p]);
            if v0 == v1 {
                return Err(MeshFault::DegenerateEdge);
            }
            reveal(EdgeAccum::tracks);
            let ghost lt = labels.take(p);
            let ghost kt = keys.take(p);
            let ghost ot = owners.take(p);
            let found: Option<u32> = match edge_map_get(&accum.edge_key_to_index, key) {
                Some(e) => {
                    proof {
                        lemma_distinct(lt);
                        let cc = lemma_edge_has_corner(
                            pairs(accum.edge_vertices@),
                            accum.fe_values@,
                            row_lists(accum.edge_faces@),
                            lt,
                            kt,
                            ot,
                            e as int,
                        );
                        assert(accum.fe_values@[cc] == e);
                        assert(distinct(lt)[e as int] == lt[cc]);
                        assert(lt[cc] == key_label(kt[cc]));
                        assert(distinct(lt)[e as int] == key_label(key));
                        assert(row_lists(accum.edge_faces@)[e as int] == incident(lt, ot, key_label(key)));
                    }
                    let seen: &[u32] = accum.edge_faces[e].as_slice();
                    if !has_item(seen, f as u32) && seen.len() >= 2 {
                        assert(corner_fault(keys, owners, p) == Some(MeshFault::NonManifoldEdge));
                        return Err(MeshFault::NonManifoldEdge);
                    }
                    Some(e as u32)
                },
                None => {
                    proof {
                        lemma_distinct(lt);
                        if distinct(lt).contains(key_label(key)) {
                            let e = distinct(lt).index_of(key_label(key));
                            let cc = lemma_edge_has_corner(
                                pairs(accum.edge_vertices@),
                                accum.fe_values@,
                                row_lists(accum.edge_faces@),
                                lt,
                                kt,
                                ot,
                                e,
                            );
                            assert(accum.fe_values@[cc] == e);
                            assert(lt[cc] == key_label(kt[cc]));
                            lemma_key_label_injective(kt[cc], key);
                            assert(pairs(accum.edge_vertices@)[e] == key);
                        }
                        lemma_incident(lt, ot, key_label(key));
                        assert(incident(lt, ot, key_label(key)) =~= Seq::<u32>::empty()) by {
                            let l = incident(lt, ot, key_label(key));
                            if l.len() > 0 {
                                assert(l.contains(l[0]));
                                let q = choose|q: int|
                                    0 <= q < lt.len() && #[trigger] lt[q] == key_label(key) && ot[q] == l[0];
                                assert(lt.contains(key_label(key)));
                            }
                        }
                    }
                    None
                },
            };
            accum.edge(
                found,
                key,
                f as u32,
                Ghost(key_label(key)),
                Ghost(lt),
                Ghost(kt),
                Ghost(ot),
            );
            proof {
                assert(labels.take(p + 1) =~= lt.push(key_label(key)));
                assert(keys.take(p + 1) =~= kt.push(key));
                assert(owners.take(p + 1) =~= ot.push(f as u32));
                p = p + 1;
            }
            c += 1;
        }
        proof {
            lemma_flat_row(faces, f as int);
        }
        f += 1;
    }
    proof {
        reveal(EdgeAccum::tracks);
        assert(faces.take(f as int) =~= faces);
        assert(labels.take(p) =~= labels);
        assert(keys.take(p) =~= keys);
        assert(owners.take(p) =~= owners);
        lemma_no_corner_fault(keys, owners, keys.len() as int);
        assert forall|q: int| 0 <= q < keys.len() implies (#[trigger] keys[q]).0 != keys[q].1 by {
            assert(corner_fault(keys, owners, q) is None);
        }
    }
    if accum.edge_vertices.len() > (u32::MAX / 2) as usize {
        return Err(MeshFault::TooLarge);
    }
    let csr_faces: CsrVec = CsrVec::from_jagged_u32(&decoded_faces);
    let face_edges: CsrVec = csr_faces.with_values(&accum.fe_values);
    proof {
        assert forall|e: int| 0 <= e < accum.edge_vertices@.len() implies (#[trigger] pairs(
            accum.edge_vertices@,
        )[e]).0 <= pairs(accum.edge_vertices@)[e].1 by {
            let c = lemma_edge_has_corner(
                pairs(accum.edge_vertices@),
                accum.fe_values@,
                row_lists(accum.edge_faces@),
                labels,
                keys,
                owners,
                e,
            );
            let (f, k) = lemma_flat_locate(key_rows(faces), c);
        }
    }
    let edge_creases: Vec<S> = edge_creases_of(
        tie,
        &mesh.edge_vertices,
        &mesh.edge_creases,
        &accum.edge_vertices,
    );
    Ok(assemble(accum, csr_faces, face_edges, mesh.vertex_count, edge_creases, Ghost(labels)))
}

} // verus!
