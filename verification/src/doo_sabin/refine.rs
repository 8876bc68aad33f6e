//! One level of Doo-Sabin refinement: a face for each face, edge and vertex.

use super::topology::{build_topology, ds_describes, fault_error, fault_text};
use crate::connectivity::{
    corner_faces, edge_key, edge_key_of, lemma_flat_at, next_corner, owners_of, pairs, prev_corner,
};
use crate::csr::{copied, lemma_row_within_flat, starts_of, CsrVec};
use crate::error::KernelError;
use crate::hashing::{edge_map_get, EdgeKey};
use crate::incidence::{edge_fault, lemma_flat_locate, mesh_fault, MeshFault, Topology};
use crate::level::{
    adjacency_from_topology, adjacency_of, compute_edge_data, corner_counts, effective_creases, hand_down, inherit,
    lemma_proper_faces_fault, no_parents, nothing_inherited, pack_faces, selected_edges, Inherited, LevelData,
};
use crate::options::SchemeOptions;
use crate::output::{LineageMaps, VertexOrigin};
use crate::rows::{flat, lemma_flat_row, lemma_flat_take_next, row_start, views};
use crate::rules::{corner_at_vertex, corner_of, lemma_corner_at_vertex};
use crate::scalar::{zero, zero_of, zeros, Scalar};
use crate::sharpness::{decay_sharpness, decayed, is_positive, positive};
use crate::topology::{all_below, Mesh};
use vstd::prelude::*;

verus! {


// ---------------------------------------------------------------------------
// Walking round a vertex
// ---------------------------------------------------------------------------
pub open spec fn is_other_face(list: Seq<u32>, face: int, p: int) -> bool {
    &&& 0 <= p < list.len()
    &&& list[p] != face
    &&& forall|q: int| 0 <= q < p ==> (#[trigger] list[q]) == face
}

/// The first face of a list that is not `face`.
pub open spec fn other_face(list: Seq<u32>, face: int) -> Option<u32> {
    if exists|p: int| is_other_face(list, face, p) {
        Some(list[choose|p: int| is_other_face(list, face, p)])
    } else {
        None
    }
}

fn find_other_face(list: &[u32], face: usize) -> (r: Option<u32>)
    ensures
        r == other_face(list@, face as int),
        match r {
            Some(f) => list@.contains(f),
            None => true,
        },
{
    let mut p: usize = 0;
    while p < list.len()
        invariant
            p <= list.len(),
            forall|q: int| 0 <= q < p ==> (#[trigger] list@[q]) == face,
        decreases list.len() - p,
    {
        if list[p] as usize != face {
            proof {
                assert(is_other_face(list@, face as int, p as int));
                let c = choose|c: int| is_other_face(list@, face as int, c);
                if c < p {
                    assert(list@[c] == face);
                }
                if p < c {
                    assert(list@[p as int] == face);
                }
            }
            return Some(list[p]);
        }
        p += 1;
    }
    proof {
        if exists|c: int| is_other_face(list@, face as int, c) {
            let c = choose|c: int| is_other_face(list@, face as int, c);
            assert(list@[c] == face);
        }
    }
    None
}

/// Where a walk leaves a face that it entered through `entry`: the other edge
/// at the corner of `v`.
pub open spec fn exit_key(face: Seq<u32>, v: u32, p: int, entry: EdgeKey) -> EdgeKey {
    let n = face.len() as int;
    let prev_key = edge_key_of(v, face[prev_corner(p, n)]);
    let next_key = edge_key_of(v, face[next_corner(p, n)]);
    if prev_key == entry {
        next_key
    } else {
        prev_key
    }
}

/// The face across an edge.
pub open spec fn across<S: Scalar>(t: Topology<S>, key: EdgeKey, face: int) -> Option<u32> {
    if t.edge_key_to_index@.contains_key(key) {
        other_face(t.edge_faces@[t.edge_key_to_index@[key] as int], face)
    } else {
        None
    }
}

/// The next `steps` faces of a walk round `v` that entered `face` through
/// `entry`; fewer if the walk comes to an end.
pub open spec fn walk<S: Scalar>(t: Topology<S>, v: u32, face: int, entry: EdgeKey, steps: nat) -> Seq<u32>
    decreases steps,
{
    if steps == 0 {
        Seq::empty()
    } else {
        match corner_at_vertex(t.faces@[face], v) {
            None => Seq::empty(),
            Some(p) => {
                let exit = exit_key(t.faces@[face], v, p, entry);
                match across(t, exit, face) {
                    None => Seq::empty(),
                    Some(next) => seq![next] + walk(t, v, next as int, exit, (steps - 1) as nat),
                }
            },
        }
    }
}

/// The faces round `v` in the order of a walk from the first one.
pub open spec fn ordered_faces<S: Scalar>(t: Topology<S>, v: u32, list: Seq<u32>) -> Seq<u32> {
    if list.len() == 0 {
        Seq::empty()
    } else {
        let first = list[0] as int;
        match corner_at_vertex(t.faces@[first], v) {
            None => seq![list[0]],
            Some(p) => {
                let face = t.faces@[first];
                let entry = edge_key_of(v, face[prev_corner(p, face.len() as int)]);
                seq![list[0]] + walk(t, v, first, entry, (list.len() - 1) as nat)
            },
        }
    }
}

/// The faces round a vertex in order.
#[verifier::rlimit(60)]
pub fn order_faces_around_vertex<S: Scalar>(
    vi: u32,
    incident: &[u32],
    topo: &Topology<S>,
    Ghost(n): Ghost<nat>,
) -> (r: Vec<u32>)
    requires
        topo.sound(n),
        all_below(incident@, topo.faces@.len() as int),
    ensures
        r@ == ordered_faces(*topo, vi, incident@),
        all_below(r@, topo.faces@.len() as int),
{
    let mut ordered: Vec<u32> = Vec::new();
    if incident.len() == 0 {
        return ordered;
    }
    let first: usize = incident[0] as usize;
    assert(incident@[0] < topo.faces@.len());
    ordered.push(incident[0]);
    assert(topo.faces@[first as int].len() >= 3);
    let fv: &[u32] = topo.faces.row(first);
    let mut entry: EdgeKey = match corner_of(fv, vi) {
        Some(p) => edge_key(
            vi,
            if p == 0 {
                fv[fv.len() - 1]
            } else {
                fv[p - 1]
            },
        ),
        None => {
            assert(ordered@ =~= seq![incident@[0]]);
            return ordered;
        },
    };
    let ghost full = ordered_faces(*topo, vi, incident@);
    let mut current: usize = first;
    let mut left: usize = incident.len() - 1;
    let mut done: bool = false;
    assert(ordered@ =~= seq![incident@[0]]);
    while !done && left > 0
        invariant
            topo.sound(n),
            current < topo.faces@.len(),
            full == ordered_faces(*topo, vi, incident@),
            full == ordered@ + (if done {
                Seq::empty()
            } else {
                walk(*topo, vi, current as int, entry, left as nat)
            }),
            all_below(ordered@, topo.faces@.len() as int),
        decreases left, (if done { 0int } else { 1int }),
    {
        assert(topo.faces@[current as int].len() >= 3);
        let face: &[u32] = topo.faces.row(current);
        let ghost rest = walk(*topo, vi, current as int, entry, left as nat);
        match corner_of(face, vi) {
            None => {
                done = true;
                assert(full =~= ordered@);
            },
            Some(p) => {
                let prev_v: u32 = if p == 0 {
                    face[face.len() - 1]
                } else {
                    face[p - 1]
                };
                let next_v: u32 = if p + 1 == face.len() {
                    face[0]
                } else {
                    face[p + 1]
                };
                let prev_key: EdgeKey = edge_key(vi, prev_v);
                let next_key: EdgeKey = edge_key(vi, next_v);
                let exit: EdgeKey = if prev_key.0 == entry.0 && prev_key.1 == entry.1 {
                    next_key
                } else {
                    prev_key
                };
                assert(exit == exit_key(face@, vi, p as int, entry));
                let next: Option<u32> = match edge_map_get(&topo.edge_key_to_index, exit) {
                    Some(ei) => {
                        assert(topo.edge_key_to_index@.contains_key(exit));
                        assert(ei < topo.edges().len());
                        let list: &[u32] = topo.edge_faces.row(ei);
                        assert(topo.edge_faces@[ei as int].len() > 0 && all_below(
                            topo.edge_faces@[ei as int],
                            topo.faces@.len() as int,
                        ));
                        let found: Option<u32> = find_other_face(list, current);
                        assert(found is Some ==> found->Some_0 < topo.faces@.len()) by {
                            if let Some(f) = found {
                                let k = list@.index_of(f);
                                assert(list@[k] < topo.faces@.len());
                            }
                        }
                        found
                    },
                    None => None,
                };
                assert(next == across(*topo, exit, current as int));
                match next {
                    None => {
                        done = true;
                        assert(full =~= ordered@);
                    },
                    Some(f) => {
                        let ghost before = ordered@;
                        ordered.push(f);
                        entry = exit;
                        current = f as usize;
                        left -= 1;
                        assert(full =~= ordered@ + walk(*topo, vi, current as int, entry, left as nat));
                    },
                }
            },
        }
    }
    assert(full =~= ordered@);
    ordered
}

// ---------------------------------------------------------------------------
// The refined faces
// ---------------------------------------------------------------------------
/// A refined face, its parent and whether it is selected.
#[verifier::ext_equal]
pub struct Child {
    pub face: Seq<u32>,
    pub parent: u32,
    pub selected: bool,
}

/// The point of corner `c` of face `f`.
pub open spec fn corner_point(faces: Seq<Seq<u32>>, f: int, c: int) -> u32 {
    (row_start(faces, f) + c) as u32
}

/// The corners of a face.
pub open spec fn face_child(faces: Seq<Seq<u32>>, selected: Seq<bool>, f: int) -> Child {
    Child {
        face: Seq::new(faces[f].len(), |c: int| corner_point(faces, f, c)),
        parent: f as u32,
        selected: selected[f],
    }
}

pub open spec fn face_children(faces: Seq<Seq<u32>>, selected: Seq<bool>) -> Seq<Child> {
    Seq::new(faces.len(), |f: int| face_child(faces, selected, f))
}

/// The corners of the two faces of an edge at its ends.
pub open spec fn edge_corners<S: Scalar>(t: Topology<S>, e: int) -> Option<(int, int, int, int)> {
    let ef = t.edge_faces@[e];
    if t.edge_is_boundary@[e] || ef.len() != 2 {
        None
    } else {
        let (v0, v1) = t.edges()[e];
        let face_0 = t.faces@[ef[0] as int];
        let face_1 = t.faces@[ef[1] as int];
        match (
            corner_at_vertex(face_0, v0),
            corner_at_vertex(face_0, v1),
            corner_at_vertex(face_1, v0),
            corner_at_vertex(face_1, v1),
        ) {
            (Some(c00), Some(c10), Some(c01), Some(c11)) => Some((c00, c10, c01, c11)),
            _ => None,
        }
    }
}

/// The quad of an inner edge.
pub open spec fn edge_children<S: Scalar>(t: Topology<S>, selected: Seq<bool>, e: int) -> Seq<Child> {
    match edge_corners(t, e) {
        None => Seq::empty(),
        Some((c00, c10, c01, c11)) => {
            let f0 = t.edge_faces@[e][0] as int;
            let f1 = t.edge_faces@[e][1] as int;
            seq![
                Child {
                    face: seq![
                        corner_point(t.faces@, f0, c10),
                        corner_point(t.faces@, f0, c00),
                        corner_point(t.faces@, f1, c01),
                        corner_point(t.faces@, f1, c11),
                    ],
                    parent: f0 as u32,
                    selected: selected[f0] || selected[f1],
                },
            ]
        },
    }
}

/// The refined edges that follow a sharp inner edge.
pub open spec fn crease_heirs<S: Scalar>(t: Topology<S>, creases: Seq<S>, e: int) -> Seq<(EdgeKey, u32)> {
    match edge_corners(t, e) {
        None => Seq::empty(),
        Some((c00, c10, c01, c11)) => if positive(creases[e]) {
            let f0 = t.edge_faces@[e][0] as int;
            let f1 = t.edge_faces@[e][1] as int;
            seq![
                (
                    edge_key_of(corner_point(t.faces@, f0, c00), corner_point(t.faces@, f0, c10)),
                    e as u32,
                ),
                (
                    edge_key_of(corner_point(t.faces@, f1, c01), corner_point(t.faces@, f1, c11)),
                    e as u32,
                ),
            ]
        } else {
            Seq::empty()
        },
    }
}

/// The corner points of a list of faces at `v`.
pub open spec fn corner_points(faces: Seq<Seq<u32>>, list: Seq<u32>, v: u32) -> Seq<u32>
    decreases list.len(),
{
    if list.len() == 0 {
        Seq::empty()
    } else {
        let front = corner_points(faces, list.drop_last(), v);
        match corner_at_vertex(faces[list.last() as int], v) {
            Some(c) => front.push(corner_point(faces, list.last() as int, c)),
            None => front,
        }
    }
}

/// The face of an inner vertex.
pub open spec fn vertex_children<S: Scalar>(t: Topology<S>, selected: Seq<bool>, v: int) -> Seq<Child> {
    let list = t.vertex_faces@[v];
    let ordered = ordered_faces(t, v as u32, list);
    let face = corner_points(t.faces@, ordered, v as u32);
    if t.vertex_is_boundary@[v] || list.len() < 3 || face.len() < 3 {
        Seq::empty()
    } else {
        seq![
            Child {
                face,
                parent: ordered[0],
                selected: crate::incidence::any_flagged(ordered, selected),
            },
        ]
    }
}

pub open spec fn edge_child_rows<S: Scalar>(t: Topology<S>, selected: Seq<bool>) -> Seq<Seq<Child>> {
    Seq::new(t.edges().len(), |e: int| edge_children(t, selected, e))
}

pub open spec fn vertex_child_rows<S: Scalar>(t: Topology<S>, selected: Seq<bool>, n: nat) -> Seq<Seq<Child>> {
    Seq::new(n, |v: int| vertex_children(t, selected, v))
}

/// The refined faces: those of faces, of edges, of vertices.
pub open spec fn ds_children<S: Scalar>(level: LevelData<S>) -> Seq<Child> {
    face_children(level.topo.faces@, level.face_selected@) + flat(edge_child_rows(level.topo, level.face_selected@))
        + flat(vertex_child_rows(level.topo, level.face_selected@, level.n()))
}

pub open spec fn child_faces(children: Seq<Child>) -> Seq<Seq<u32>> {
    children.map_values(|c: Child| c.face)
}

pub open spec fn child_parents(children: Seq<Child>) -> Seq<u32> {
    children.map_values(|c: Child| c.parent)
}

pub open spec fn child_selection(children: Seq<Child>) -> Seq<bool> {
    children.map_values(|c: Child| c.selected)
}

pub open spec fn heir_rows<S: Scalar>(t: Topology<S>, creases: Seq<S>) -> Seq<Seq<(EdgeKey, u32)>> {
    Seq::new(t.edges().len(), |e: int| crease_heirs(t, creases, e))
}

/// Why a mesh cannot be refined.
pub open spec fn ds_fault<S: Scalar>(level: LevelData<S>) -> Option<MeshFault> {
    if flat(level.topo.faces@).len() == 0 {
        Some(MeshFault::NoVertices)
    } else {
        edge_fault(child_faces(ds_children(level)))
    }
}

/// The crease one level on.
pub open spec fn child_crease<S: Scalar>(crease: S, options: SchemeOptions) -> S {
    if options.crease_normalize {
        crease
    } else {
        decayed(crease)
    }
}

/// What the first `k` heirs get.
pub open spec fn ds_inherited<S: Scalar>(
    heirs: Seq<(EdgeKey, u32)>,
    creases: Seq<S>,
    options: SchemeOptions,
    table: Map<EdgeKey, usize>,
    edge_count: nat,
    k: int,
) -> Inherited<S>
    decreases k,
{
    if k <= 0 {
        nothing_inherited(edge_count)
    } else {
        let before = ds_inherited(heirs, creases, options, table, edge_count, k - 1);
        let (key, e) = heirs[k - 1];
        let child = child_crease(creases[e as int], options);
        if positive(child) {
            inherit(before, table, key, child, true, e)
        } else {
            before
        }
    }
}

/// A sharp corner handed to the corner points of a list of faces.
pub open spec fn corners_set<S: Scalar>(
    corners: Seq<S>,
    faces: Seq<Seq<u32>>,
    list: Seq<u32>,
    v: u32,
    corner: S,
) -> Seq<S>
    decreases list.len(),
{
    if list.len() == 0 {
        corners
    } else {
        let front = corners_set(corners, faces, list.drop_last(), v, corner);
        match corner_at_vertex(faces[list.last() as int], v) {
            Some(c) => front.update(row_start(faces, list.last() as int) + c, corner),
            None => front,
        }
    }
}

/// Corner sharpness of the refined vertices, after the first `k` parents.
pub open spec fn ds_corners<S: Scalar>(t: Topology<S>, corners: Seq<S>, options: SchemeOptions, k: int) -> Seq<S>
    decreases k,
{
    if k <= 0 {
        Seq::new(flat(t.faces@).len(), |i: int| zero_of::<S>())
    } else {
        let v = k - 1;
        let before = ds_corners(t, corners, options, v);
        let child = if options.corner_normalize {
            corners[v]
        } else {
            decayed(corners[v])
        };
        if !S::at_most_of(corners[v], zero_of()) && positive(child) {
            corners_set(before, t.faces@, t.vertex_faces@[v], v as u32, child)
        } else {
            before
        }
    }
}

/// The refined vertices are corners of faces.
pub open spec fn ds_origins(faces: Seq<Seq<u32>>) -> Seq<VertexOrigin> {
    corner_faces(faces).map_values(|f: u32| VertexOrigin::Face(f))
}

/// `child` is the refinement of `parent`. Its mesh carries the creases that it
/// inherits; its topology has none, so they act on no later level.
pub open spec fn ds_refines<S: Scalar>(
    parent: LevelData<S>,
    options: SchemeOptions,
    boundary_crease: S,
    child: LevelData<S>,
) -> bool {
    let t = parent.topo;
    let total = flat(t.faces@).len();
    let children = ds_children(parent);
    let heirs = flat(heir_rows(t, parent.effective_edge_creases@));
    let inherited = ds_inherited(
        heirs,
        parent.effective_edge_creases@,
        options,
        child.topo.edge_key_to_index@,
        child.topo.edges().len(),
        heirs.len() as int,
    );
    let no_creases = Seq::new(child.topo.edges().len(), |e: int| zero_of::<S>());
    &&& child.wf()
    &&& child.mesh.vertex_count == total
    &&& ds_describes(child.topo, child_faces(children), total)
    &&& child.topo.edge_creases@ == no_creases
    &&& pairs(child.mesh.edge_vertices@) == child.topo.edges()
    &&& child.mesh.edge_creases@ == inherited.creases
    &&& child.mesh.vertex_corners@ == ds_corners(t, parent.mesh.vertex_corners@, options, parent.n() as int)
    &&& child.face_selected@ == child_selection(children)
    &&& child.edge_has_selected_face@ == selected_edges(child.topo.edge_faces@, child.face_selected@)
    &&& child.effective_edge_creases@ == effective_creases(
        no_creases,
        child.topo.edge_faces@,
        child.face_selected@,
        boundary_crease,
    )
    &&& child.effective_vertex_corners@.len() == 0
    &&& child.lineage.vertex_origin@ == ds_origins(t.faces@)
    &&& child.lineage.face_parent@ == child_parents(children)
    &&& child.lineage.edge_parent@ == inherited.parents
    &&& adjacency_of(child.adjacency, child.topo)
}

// ---------------------------------------------------------------------------
// The faces are proper
// ---------------------------------------------------------------------------
/// A child with at least three corners, all of them points of the refined mesh,
/// and with a face of the parent mesh as parent.
pub open spec fn proper_child(child: Child, total: int, face_count: int) -> bool {
    &&& 3 <= child.face.len() <= u32::MAX
    &&& all_below(child.face, total)
    &&& child.parent < face_count
}

pub open spec fn proper_children(children: Seq<Child>, total: int, face_count: int) -> bool {
    forall|i: int| 0 <= i < children.len() ==> proper_child(#[trigger] children[i], total, face_count)
}

proof fn lemma_corner_point_below(faces: Seq<Seq<u32>>, f: int, c: int)
    requires
        flat(faces).len() < u32::MAX,
        0 <= f < faces.len(),
        0 <= c < faces[f].len(),
    ensures
        corner_point(faces, f, c) < flat(faces).len(),
        corner_point(faces, f, c) == row_start(faces, f) + c,
{
    lemma_flat_at(faces, f, c);
}

proof fn lemma_corner_points_below(faces: Seq<Seq<u32>>, list: Seq<u32>, v: u32)
    requires
        flat(faces).len() < u32::MAX,
        all_below(list, faces.len() as int),
    ensures
        all_below(corner_points(faces, list, v), flat(faces).len() as int),
        corner_points(faces, list, v).len() <= list.len(),
    decreases list.len(),
{
    if list.len() > 0 {
        let front = list.drop_last();
        assert(all_below(front, faces.len() as int)) by {
            assert forall|k: int| 0 <= k < front.len() implies (#[trigger] front[k]) < faces.len() by {
                assert(list[k] < faces.len());
            }
        }
        lemma_corner_points_below(faces, front, v);
        assert(list[list.len() - 1] < faces.len());
        lemma_corner_at_vertex(faces[list.last() as int], v);
        if let Some(c) = corner_at_vertex(faces[list.last() as int], v) {
            lemma_corner_point_below(faces, list.last() as int, c);
        }
    }
}

proof fn lemma_walk_below<S: Scalar>(t: Topology<S>, n: nat, v: u32, face: int, entry: EdgeKey, steps: nat)
    requires
        t.sound(n),
    ensures
        all_below(walk(t, v, face, entry, steps), t.faces@.len() as int),
        walk(t, v, face, entry, steps).len() <= steps,
    decreases steps,
{
    if steps > 0 {
        if let Some(p) = corner_at_vertex(t.faces@[face], v) {
            let exit = exit_key(t.faces@[face], v, p, entry);
            if let Some(next) = across(t, exit, face) {
                lemma_walk_below(t, n, v, next as int, exit, (steps - 1) as nat);
                let ei = t.edge_key_to_index@[exit] as int;
                assert(t.edge_key_to_index@.contains_key(exit));
                let list = t.edge_faces@[ei];
                assert(list.len() > 0 && all_below(list, t.faces@.len() as int));
                let q = choose|q: int| is_other_face(list, face, q);
                assert(list[q] < t.faces@.len());
                let rest = walk(t, v, next as int, exit, (steps - 1) as nat);
                let whole = walk(t, v, face, entry, steps);
                assert forall|k: int| 0 <= k < whole.len() implies (#[trigger] whole[k]) < t.faces@.len() by {
                    if k > 0 {
                        assert(whole[k] == rest[k - 1]);
                    }
                }
            }
        }
    }
}

proof fn lemma_ordered_below<S: Scalar>(t: Topology<S>, n: nat, v: u32, list: Seq<u32>)
    requires
        t.sound(n),
        all_below(list, t.faces@.len() as int),
    ensures
        all_below(ordered_faces(t, v, list), t.faces@.len() as int),
        ordered_faces(t, v, list).len() <= list.len(),
{
    if list.len() > 0 {
        let first = list[0] as int;
        assert(list[0] < t.faces@.len());
        if let Some(p) = corner_at_vertex(t.faces@[first], v) {
            let face = t.faces@[first];
            let entry = edge_key_of(v, face[prev_corner(p, face.len() as int)]);
            lemma_walk_below(t, n, v, first, entry, (list.len() - 1) as nat);
            let rest = walk(t, v, first, entry, (list.len() - 1) as nat);
            let whole = ordered_faces(t, v, list);
            assert forall|k: int| 0 <= k < whole.len() implies (#[trigger] whole[k]) < t.faces@.len() by {
                if k > 0 {
                    assert(whole[k] == rest[k - 1]);
                }
            }
        }
    }
}

proof fn lemma_edge_child_proper<S: Scalar>(t: Topology<S>, n: nat, selected: Seq<bool>, e: int)
    requires
        t.sound(n),
        0 <= e < t.edges().len(),
    ensures
        proper_children(edge_children(t, selected, e), flat(t.faces@).len() as int, t.faces@.len() as int),
        edge_corners(t, e) is Some ==> t.edge_faces@[e].len() == 2 && t.edge_faces@[e][0] < t.faces@.len()
            && t.edge_faces@[e][1] < t.faces@.len(),
{
    if let Some((c00, c10, c01, c11)) = edge_corners(t, e) {
        let ef = t.edge_faces@[e];
        let (v0, v1) = t.edges()[e];
        assert(ef.len() > 0 && all_below(ef, t.faces@.len() as int));
        assert(ef[0] < t.faces@.len() && ef[1] < t.faces@.len());
        let f0 = ef[0] as int;
        let f1 = ef[1] as int;
        lemma_corner_at_vertex(t.faces@[f0], v0);
        lemma_corner_at_vertex(t.faces@[f0], v1);
        lemma_corner_at_vertex(t.faces@[f1], v0);
        lemma_corner_at_vertex(t.faces@[f1], v1);
        lemma_corner_point_below(t.faces@, f0, c00);
        lemma_corner_point_below(t.faces@, f0, c10);
        lemma_corner_point_below(t.faces@, f1, c01);
        lemma_corner_point_below(t.faces@, f1, c11);
    }
}

proof fn lemma_vertex_child_proper<S: Scalar>(t: Topology<S>, n: nat, selected: Seq<bool>, v: int)
    requires
        t.sound(n),
        0 <= v < n,
    ensures
        proper_children(vertex_children(t, selected, v), flat(t.faces@).len() as int, t.faces@.len() as int),
{
    let list = t.vertex_faces@[v];
    assert(all_below(list, t.faces@.len() as int));
    lemma_ordered_below(t, n, v as u32, list);
    let ordered = ordered_faces(t, v as u32, list);
    lemma_corner_points_below(t.faces@, ordered, v as u32);
    lemma_row_within_flat(t.vertex_faces@, v);
    crate::csr::lemma_packed_fits(t.vertex_faces);
    if list.len() >= 3 {
        assert(ordered.len() > 0);
        assert(ordered[0] < t.faces@.len());
    }
}

proof fn lemma_flat_proper(rows: Seq<Seq<Child>>, total: int, face_count: int)
    requires
        forall|i: int| 0 <= i < rows.len() ==> proper_children(#[trigger] rows[i], total, face_count),
    ensures
        proper_children(flat(rows), total, face_count),
{
    assert forall|q: int| 0 <= q < flat(rows).len() implies proper_child(
        #[trigger] flat(rows)[q],
        total,
        face_count,
    ) by {
        let (i, k) = lemma_flat_locate(rows, q);
        assert(proper_children(rows[i], total, face_count));
    }
}

pub proof fn lemma_ds_children_proper<S: Scalar>(level: LevelData<S>)
    requires
        level.wf(),
    ensures
        proper_children(
            ds_children(level),
            flat(level.topo.faces@).len() as int,
            level.topo.faces@.len() as int,
        ),
{
    let t = level.topo;
    let sel = level.face_selected@;
    let total = flat(t.faces@).len() as int;
    let nf = t.faces@.len() as int;
    let fs = face_children(t.faces@, sel);
    assert(proper_children(fs, total, nf)) by {
        assert forall|f: int| 0 <= f < fs.len() implies proper_child(#[trigger] fs[f], total, nf) by {
            assert(t.faces@[f].len() >= 3);
            lemma_row_within_flat(t.faces@, f);
            assert forall|c: int| 0 <= c < fs[f].face.len() implies (#[trigger] fs[f].face[c]) < total by {
                lemma_corner_point_below(t.faces@, f, c);
            }
        }
    }
    assert forall|e: int| 0 <= e < t.edges().len() implies proper_children(
        #[trigger] edge_child_rows(t, sel)[e],
        total,
        nf,
    ) by {
        lemma_edge_child_proper(t, level.n(), sel, e);
    }
    lemma_flat_proper(edge_child_rows(t, sel), total, nf);
    assert forall|v: int| 0 <= v < level.n() implies proper_children(
        #[trigger] vertex_child_rows(t, sel, level.n())[v],
        total,
        nf,
    ) by {
        lemma_vertex_child_proper(t, level.n(), sel, v);
    }
    lemma_flat_proper(vertex_child_rows(t, sel, level.n()), total, nf);
}

// ---------------------------------------------------------------------------
// Building the refined mesh
// ---------------------------------------------------------------------------
/// Refined faces under construction.
struct Faces {
    faces: Vec<Vec<u32>>,
    parents: Vec<u32>,
    selected: Vec<bool>,
}

impl Faces {
    spec fn is(self, children: Seq<Child>) -> bool {
        &&& views(self.faces@) == child_faces(children)
        &&& self.parents@ == child_parents(children)
        &&& self.selected@ == child_selection(children)
    }

    fn push(&mut self, face: Vec<u32>, parent: u32, selected: bool, Ghost(children): Ghost<Seq<Child>>)
        requires
            old(self).is(children),
        ensures
            final(self).is(children.push(Child { face: face@, parent, selected })),
    {
        let ghost next = children.push(Child { face: face@, parent, selected });
        let ghost before = views(self.faces@);
        self.faces.push(face);
        self.parents.push(parent);
        self.selected.push(selected);
        assert(views(self.faces@) =~= before.push(face@));
        assert(views(self.faces@) =~= child_faces(next));
        assert(self.parents@ =~= child_parents(next));
        assert(self.selected@ =~= child_selection(next));
    }
}

fn add_faces<S: Scalar>(level: &LevelData<S>, starts: &[u32]) -> (r: Faces)
    requires
        level.wf(),
        starts@.len() == level.topo.faces@.len() + 1,
        forall|f: int| 0 <= f <= level.topo.faces@.len() ==> starts@[f] == #[trigger] row_start(level.topo.faces@, f),
    ensures
        r.is(face_children(level.topo.faces@, level.face_selected@)),
{
    let ghost faces = level.topo.faces@;
    let ghost all = face_children(faces, level.face_selected@);
    let mut out = Faces { faces: Vec::new(), parents: Vec::new(), selected: Vec::new() };
    assert(views(out.faces@) =~= child_faces(all.take(0)));
    assert(out.parents@ =~= child_parents(all.take(0)));
    assert(out.selected@ =~= child_selection(all.take(0)));
    let mut fi: usize = 0;
    while fi < level.topo.faces.len()
        invariant
            fi <= faces.len(),
            faces == level.topo.faces@,
            all == face_children(faces, level.face_selected@),
            level.wf(),
            starts@.len() == faces.len() + 1,
            forall|f: int| 0 <= f <= faces.len() ==> starts@[f] == #[trigger] row_start(faces, f),
            out.is(all.take(fi as int)),
        decreases faces.len() - fi,
    {
        let n: usize = level.topo.faces.row_len(fi);
        let ghost whole = all[fi as int].face;
        proof {
            lemma_flat_row(faces, fi as int);
            assert(starts@[fi as int] == row_start(faces, fi as int));
        }
        let start: u32 = starts[fi];
        let mut face: Vec<u32> = Vec::new();
        let mut c: usize = 0;
        while c < n
            invariant
                c <= n,
                fi < faces.len(),
                n == faces[fi as int].len(),
                all == face_children(faces, level.face_selected@),
                whole == all[fi as int].face,
                start == row_start(faces, fi as int),
                start + n <= u32::MAX,
                face@ == whole.take(c as int),
            decreases n - c,
        {
            face.push(start + c as u32);
            c += 1;
            assert(face@ =~= whole.take(c as int));
        }
        assert(face@ =~= whole);
        out.push(face, fi as u32, level.face_selected[fi], Ghost(all.take(fi as int)));
        assert(all.take(fi + 1) =~= all.take(fi as int).push(all[fi as int]));
        fi += 1;
    }
    assert(all.take(fi as int) =~= all);
    out
}

/// The corners of the two faces of an edge at its ends.
fn find_edge_corners<S: Scalar>(topo: &Topology<S>, ei: usize) -> (r: Option<[usize; 4]>)
    requires
        ei < topo.edges().len(),
        topo.edge_is_boundary@.len() == topo.edges().len(),
        topo.edge_faces@.len() == topo.edges().len(),
        topo.faces.wf(),
        topo.edge_faces.wf(),
        all_below(topo.edge_faces@[ei as int], topo.faces@.len() as int),
    ensures
        match r {
            Some(c) => edge_corners(*topo, ei as int) == Some(
                (c@[0] as int, c@[1] as int, c@[2] as int, c@[3] as int),
            ) && c@[0] < topo.faces@[topo.edge_faces@[ei as int][0] as int].len() && c@[1]
                < topo.faces@[topo.edge_faces@[ei as int][0] as int].len() && c@[2]
                < topo.faces@[topo.edge_faces@[ei as int][1] as int].len() && c@[3]
                < topo.faces@[topo.edge_faces@[ei as int][1] as int].len(),
            None => edge_corners(*topo, ei as int) is None,
        },
{
    let ef: &[u32] = topo.edge_faces.row(ei);
    if topo.edge_is_boundary[ei] || ef.len() != 2 {
        return None;
    }
    let v0: u32 = topo.edge_vertices[ei][0];
    let v1: u32 = topo.edge_vertices[ei][1];
    assert(topo.edges()[ei as int] == (v0, v1));
    assert(ef@[0] < topo.faces@.len() && ef@[1] < topo.faces@.len());
    let face_0: &[u32] = topo.faces.row(ef[0] as usize);
    let face_1: &[u32] = topo.faces.row(ef[1] as usize);
    match (corner_of(face_0, v0), corner_of(face_0, v1), corner_of(face_1, v0), corner_of(face_1, v1)) {
        (Some(c00), Some(c10), Some(c01), Some(c11)) => Some([c00, c10, c01, c11]),
        _ => None,
    }
}

/// The point of corner `c` of face `f`.
fn point_at(faces: &CsrVec, starts: &[u32], f: usize, c: usize) -> (r: u32)
    requires
        faces.packed(),
        flat(faces@).len() < u32::MAX,
        starts@.len() == faces@.len() + 1,
        forall|f: int| 0 <= f <= faces@.len() ==> starts@[f] == #[trigger] row_start(faces@, f),
        f < faces@.len(),
        c < faces@[f as int].len(),
    ensures
        r == corner_point(faces@, f as int, c as int),
{
    proof {
        lemma_corner_point_below(faces@, f as int, c as int);
        assert(starts@[f as int] == row_start(faces@, f as int));
    }
    starts[f] + c as u32
}

/// Adds the quads of the inner edges, and lists the heirs of their creases.
#[verifier::rlimit(80)]
fn add_edges<S: Scalar>(level: &LevelData<S>, starts: &[u32], out: &mut Faces) -> (r: Vec<(EdgeKey, u32)>)
    requires
        level.wf(),
        starts@.len() == level.topo.faces@.len() + 1,
        forall|f: int| 0 <= f <= level.topo.faces@.len() ==> starts@[f] == #[trigger] row_start(level.topo.faces@, f),
        old(out).is(face_children(level.topo.faces@, level.face_selected@)),
    ensures
        final(out).is(
            face_children(level.topo.faces@, level.face_selected@) + flat(
                edge_child_rows(level.topo, level.face_selected@),
            ),
        ),
        r@ == flat(heir_rows(level.topo, level.effective_edge_creases@)),
{
    let topo: &Topology<S> = &level.topo;
    let ghost faces = topo.faces@;
    let ghost sel = level.face_selected@;
    let ghost base = face_children(faces, sel);
    let ghost rows = edge_child_rows(*topo, sel);
    let ghost hrows = heir_rows(*topo, level.effective_edge_creases@);
    let mut heirs: Vec<(EdgeKey, u32)> = Vec::new();
    let mut ei: usize = 0;
    assert(rows.take(0) =~= Seq::<Seq<Child>>::empty());
    assert(hrows.take(0) =~= Seq::<Seq<(EdgeKey, u32)>>::empty());
    assert(base + flat(rows.take(0)) =~= base);
    while ei < topo.edge_vertices.len()
        invariant
            topo == &level.topo,
            faces == topo.faces@,
            sel == level.face_selected@,
            base == face_children(faces, sel),
            rows == edge_child_rows(*topo, sel),
            hrows == heir_rows(*topo, level.effective_edge_creases@),
            level.wf(),
            starts@.len() == faces.len() + 1,
            forall|f: int| 0 <= f <= faces.len() ==> starts@[f] == #[trigger] row_start(faces, f),
            ei <= topo.edges().len(),
            out.is(base + flat(rows.take(ei as int))),
            heirs@ == flat(hrows.take(ei as int)),
        decreases topo.edges().len() - ei,
    {
        let ghost e = ei as int;
        let ghost front = base + flat(rows.take(e));
        proof {
            lemma_flat_take_next(rows, e);
            lemma_flat_take_next(hrows, e);
            lemma_edge_child_proper(*topo, level.n(), sel, e);
        }
        assert(topo.edge_faces@[e].len() > 0 && all_below(topo.edge_faces@[e], faces.len() as int));
        match find_edge_corners(topo, ei) {
            None => {
                assert(rows[e] =~= Seq::<Child>::empty());
                assert(hrows[e] =~= Seq::<(EdgeKey, u32)>::empty());
                assert(base + flat(rows.take(e + 1)) =~= front);
                assert(heirs@ =~= flat(hrows.take(e + 1)));
            },
            Some(c) => {
                let ef: &[u32] = topo.edge_faces.row(ei);
                let f0: usize = ef[0] as usize;
                let f1: usize = ef[1] as usize;
                let p00: u32 = point_at(&topo.faces, starts, f0, c[0]);
                let p10: u32 = point_at(&topo.faces, starts, f0, c[1]);
                let p01: u32 = point_at(&topo.faces, starts, f1, c[2]);
                let p11: u32 = point_at(&topo.faces, starts, f1, c[3]);
                let mut face: Vec<u32> = Vec::new();
                face.push(p10);
                face.push(p00);
                face.push(p01);
                face.push(p11);
                assert(face@ =~= seq![p10, p00, p01, p11]);
                let selected: bool = level.face_selected[f0] || level.face_selected[f1];
                out.push(face, f0 as u32, selected, Ghost(front));
                assert(base + flat(rows.take(e + 1)) =~= front.push(rows[e][0]));
                if is_positive(level.effective_edge_creases[ei]) {
                    heirs.push((edge_key(p00, p10), ei as u32));
                    heirs.push((edge_key(p01, p11), ei as u32));
                }
                assert(heirs@ =~= flat(hrows.take(e + 1)));
            },
        }
        ei += 1;
    }
    assert(rows.take(ei as int) =~= rows);
    assert(hrows.take(ei as int) =~= hrows);
    heirs
}

/// The corner points of a list of faces at `v`.
fn collect_corner_points<S: Scalar>(topo: &Topology<S>, starts: &[u32], list: &[u32], v: u32, Ghost(n): Ghost<nat>) -> (r:
    Vec<u32>)
    requires
        topo.sound(n),
        starts@.len() == topo.faces@.len() + 1,
        forall|f: int| 0 <= f <= topo.faces@.len() ==> starts@[f] == #[trigger] row_start(topo.faces@, f),
        all_below(list@, topo.faces@.len() as int),
    ensures
        r@ == corner_points(topo.faces@, list@, v),
{
    let mut out: Vec<u32> = Vec::new();
    let mut k: usize = 0;
    assert(list@.take(0) =~= Seq::<u32>::empty());
    while k < list.len()
        invariant
            k <= list.len(),
            topo.faces.wf(),
            flat(topo.faces@).len() < u32::MAX,
            starts@.len() == topo.faces@.len() + 1,
            forall|f: int| 0 <= f <= topo.faces@.len() ==> starts@[f] == #[trigger] row_start(topo.faces@, f),
            all_below(list@, topo.faces@.len() as int),
            out@ == corner_points(topo.faces@, list@.take(k as int), v),
        decreases list.len() - k,
    {
        assert(list@[k as int] < topo.faces@.len());
        assert(list@.take(k + 1).drop_last() =~= list@.take(k as int));
        let f: usize = list[k] as usize;
        match corner_of(topo.faces.row(f), v) {
            Some(c) => {
                proof {
                    lemma_corner_point_below(topo.faces@, f as int, c as int);
                    assert(starts@[f as int] == row_start(topo.faces@, f as int));
                }
                out.push(starts[f] + c as u32);
            },
            None => {},
        }
        k += 1;
    }
    assert(list@.take(k as int) =~= list@);
    out
}

/// Adds the faces of the inner vertices.
fn add_vertices<S: Scalar>(level: &LevelData<S>, starts: &[u32], out: &mut Faces, Ghost(base): Ghost<Seq<Child>>)
    requires
        level.wf(),
        starts@.len() == level.topo.faces@.len() + 1,
        forall|f: int| 0 <= f <= level.topo.faces@.len() ==> starts@[f] == #[trigger] row_start(level.topo.faces@, f),
        old(out).is(base),
    ensures
        final(out).is(base + flat(vertex_child_rows(level.topo, level.face_selected@, level.n()))),
{
    let topo: &Topology<S> = &level.topo;
    let n: usize = level.mesh.vertex_count as usize;
    let ghost sel = level.face_selected@;
    let ghost rows = vertex_child_rows(*topo, sel, level.n());
    let mut vi: usize = 0;
    assert(rows.take(0) =~= Seq::<Seq<Child>>::empty());
    assert(base + flat(rows.take(0)) =~= base);
    while vi < n
        invariant
            topo == &level.topo,
            n == level.n(),
            sel == level.face_selected@,
            rows == vertex_child_rows(*topo, sel, level.n()),
            level.wf(),
            starts@.len() == topo.faces@.len() + 1,
            forall|f: int| 0 <= f <= topo.faces@.len() ==> starts@[f] == #[trigger] row_start(topo.faces@, f),
            vi <= n,
            out.is(base + flat(rows.take(vi as int))),
        decreases n - vi,
    {
        let ghost v = vi as int;
        let ghost front = base + flat(rows.take(v));
        proof {
            lemma_flat_take_next(rows, v);
            assert(all_below(topo.vertex_faces@[v], topo.faces@.len() as int));
        }
        let list: &[u32] = topo.vertex_faces.row(vi);
        let mut added: bool = false;
        if !topo.vertex_is_boundary[vi] && list.len() >= 3 {
            let ordered: Vec<u32> = order_faces_around_vertex(vi as u32, list, topo, Ghost(level.n()));
            let face: Vec<u32> = collect_corner_points(topo, starts, &ordered, vi as u32, Ghost(level.n()));
            if face.len() >= 3 {
                let selected: bool = crate::incidence::check_any_flagged(&ordered, &level.face_selected);
                assert(ordered@.len() > 0) by {
                    if ordered@.len() == 0 {
                        assert(face@.len() == 0);
                    }
                }
                out.push(face, ordered[0], selected, Ghost(front));
                added = true;
                assert(base + flat(rows.take(v + 1)) =~= front.push(rows[v][0]));
            }
        }
        if !added {
            assert(rows[v] =~= Seq::<Child>::empty());
            assert(base + flat(rows.take(v + 1)) =~= front);
        }
        vi += 1;
    }
    assert(rows.take(vi as int) =~= rows);
}

/// Creases and parents of the refined edges.
fn inherit_creases<S: Scalar>(
    heirs: &[(EdgeKey, u32)],
    creases: &[S],
    options: &SchemeOptions,
    topo: &Topology<S>,
) -> (r: (Vec<S>, Vec<u32>))
    requires
        forall|k: int| 0 <= k < heirs@.len() ==> (#[trigger] heirs@[k]).1 < creases@.len(),
        forall|k: EdgeKey| #[trigger]
            topo.edge_key_to_index@.contains_key(k) ==> topo.edge_key_to_index@[k] < topo.edges().len(),
    ensures
        (Inherited { creases: r.0@, parents: r.1@ }) == ds_inherited(
            heirs@,
            creases@,
            *options,
            topo.edge_key_to_index@,
            topo.edges().len(),
            heirs@.len() as int,
        ),
        r.0@.len() == topo.edges().len(),
        r.1@.len() == topo.edges().len(),
{
    let ghost table = topo.edge_key_to_index@;
    let ghost child_edges = topo.edges().len();
    let mut edge_creases: Vec<S> = zeros::<S>(topo.edge_vertices.len());
    let mut edge_parent: Vec<u32> = no_parents(topo.edge_vertices.len());
    let mut k: usize = 0;
    while k < heirs.len()
        invariant
            k <= heirs.len(),
            forall|k: int| 0 <= k < heirs@.len() ==> (#[trigger] heirs@[k]).1 < creases@.len(),
            table == topo.edge_key_to_index@,
            child_edges == topo.edges().len(),
            edge_creases@.len() == child_edges,
            edge_parent@.len() == child_edges,
            forall|k: EdgeKey| #[trigger] table.contains_key(k) ==> table[k] < child_edges,
            (Inherited { creases: edge_creases@, parents: edge_parent@ }) == ds_inherited(
                heirs@,
                creases@,
                *options,
                table,
                child_edges,
                k as int,
            ),
        decreases heirs.len() - k,
    {
        let (key, e) = heirs[k];
        assert(heirs@[k as int].1 < creases@.len());
        let crease: S = creases[e as usize];
        let child: S = if options.crease_normalize {
            crease
        } else {
            decay_sharpness(crease)
        };
        if is_positive(child) {
            hand_down(&mut edge_creases, &mut edge_parent, &topo.edge_key_to_index, key, child, true, e);
        }
        k += 1;
    }
    (edge_creases, edge_parent)
}

/// Corner sharpness of the refined vertices.
fn refined_corners<S: Scalar>(level: &LevelData<S>, starts: &[u32], options: &SchemeOptions) -> (r: Vec<S>)
    requires
        level.wf(),
        starts@.len() == level.topo.faces@.len() + 1,
        forall|f: int| 0 <= f <= level.topo.faces@.len() ==> starts@[f] == #[trigger] row_start(level.topo.faces@, f),
    ensures
        r@ == ds_corners(level.topo, level.mesh.vertex_corners@, *options, level.n() as int),
        r@.len() == flat(level.topo.faces@).len(),
{
    let topo: &Topology<S> = &level.topo;
    let ghost faces = topo.faces@;
    let total: usize = topo.faces.flat_values().len();
    let n: usize = level.mesh.vertex_count as usize;
    let mut corners: Vec<S> = zeros::<S>(total);
    let mut vi: usize = 0;
    while vi < n
        invariant
            topo == &level.topo,
            faces == topo.faces@,
            n == level.n(),
            level.wf(),
            starts@.len() == faces.len() + 1,
            forall|f: int| 0 <= f <= faces.len() ==> starts@[f] == #[trigger] row_start(faces, f),
            vi <= n,
            corners@.len() == flat(faces).len(),
            corners@ == ds_corners(*topo, level.mesh.vertex_corners@, *options, vi as int),
        decreases n - vi,
    {
        let corner: S = level.mesh.vertex_corners[vi];
        let child: S = if options.corner_normalize {
            corner
        } else {
            decay_sharpness(corner)
        };
        if !corner.at_most(zero()) && is_positive(child) {
            assert(all_below(topo.vertex_faces@[vi as int], faces.len() as int));
            let list: &[u32] = topo.vertex_faces.row(vi);
            let ghost before = corners@;
            let mut k: usize = 0;
            assert(list@.take(0) =~= Seq::<u32>::empty());
            while k < list.len()
                invariant
                    k <= list.len(),
                    topo.faces.wf(),
                    faces == topo.faces@,
                    flat(faces).len() < u32::MAX,
                    all_below(list@, faces.len() as int),
                    starts@.len() == faces.len() + 1,
                    forall|f: int| 0 <= f <= faces.len() ==> starts@[f] == #[trigger] row_start(faces, f),
                    corners@.len() == flat(faces).len(),
                    corners@ == corners_set(before, faces, list@.take(k as int), vi as u32, child),
                decreases list.len() - k,
            {
                assert(list@[k as int] < faces.len());
                assert(list@.take(k + 1).drop_last() =~= list@.take(k as int));
                let f: usize = list[k] as usize;
                match corner_of(topo.faces.row(f), vi as u32) {
                    Some(c) => {
                        proof {
                            lemma_corner_point_below(faces, f as int, c as int);
                            assert(starts@[f as int] == row_start(faces, f as int));
                        }
                        let at: usize = starts[f] as usize + c;
                        corners[at] = child;
                    },
                    None => {},
                }
                k += 1;
            }
            assert(list@.take(k as int) =~= list@);
        }
        vi += 1;
    }
    corners
}

fn refined_origins(faces: &CsrVec) -> (r: Vec<VertexOrigin>)
    requires
        faces.packed(),
        faces@.len() <= u32::MAX,
    ensures
        r@ == ds_origins(faces@),
{
    let owners: Vec<u32> = owners_of(faces);
    let ghost all = ds_origins(faces@);
    let mut out: Vec<VertexOrigin> = Vec::new();
    let mut i: usize = 0;
    while i < owners.len()
        invariant
            i <= owners.len(),
            owners@ == corner_faces(faces@),
            all == ds_origins(faces@),
            out@ == all.take(i as int),
        decreases owners.len() - i,
    {
        out.push(VertexOrigin::Face(owners[i]));
        i += 1;
        assert(out@ =~= all.take(i as int));
    }
    assert(out@ =~= all);
    out
}

proof fn lemma_heirs_in_range<S: Scalar>(t: Topology<S>, creases: Seq<S>)
    requires
        t.edges().len() <= u32::MAX,
    ensures
        forall|k: int|
            0 <= k < flat(heir_rows(t, creases)).len() ==> (#[trigger] flat(heir_rows(t, creases))[k]).1
                < t.edges().len(),
{
    let rows = heir_rows(t, creases);
    assert forall|k: int| 0 <= k < flat(rows).len() implies (#[trigger] flat(rows)[k]).1 < t.edges().len() by {
        let (e, j) = lemma_flat_locate(rows, k);
        assert(rows[e] == crease_heirs(t, creases, e));
    }
}

/// One level of refinement. The refined mesh carries the creases that it inherits;
/// they act on no later level.
#[verifier::rlimit(80)]
pub fn refine_topology_once<S: Scalar>(
    parent: &LevelData<S>,
    options: &SchemeOptions,
    selection_boundary_crease: S,
) -> (r: Result<LevelData<S>, KernelError>)
    requires
        parent.wf(),
    ensures
        match ds_fault(*parent) {
            Some(fault) => r == Err::<LevelData<S>, _>(KernelError::InvalidTopology(fault_text(fault))),
            None => r is Ok && ds_refines(*parent, *options, selection_boundary_crease, r->Ok_0),
        },
{
    let ghost children = ds_children(*parent);
    let ghost faces = child_faces(children);
    let total: usize = parent.topo.faces.flat_values().len();
    if total == 0 {
        return Err(fault_error(MeshFault::NoVertices));
    }
    let starts: Vec<u32> = starts_of(&parent.topo.faces);
    let mut out: Faces = add_faces(parent, &starts);
    let heirs: Vec<(EdgeKey, u32)> = add_edges(parent, &starts, &mut out);
    add_vertices(
        parent,
        &starts,
        &mut out,
        Ghost(
            face_children(parent.topo.faces@, parent.face_selected@) + flat(
                edge_child_rows(parent.topo, parent.face_selected@),
            ),
        ),
    );
    proof {
        lemma_ds_children_proper(*parent);
        assert forall|q: int| 0 <= q < faces.len() implies 3 <= (#[trigger] faces[q]).len() <= u32::MAX && all_below(
            faces[q],
            total as int,
        ) by {
            assert(proper_child(children[q], total as int, parent.topo.faces@.len() as int));
        }
        assert forall|i: int| 0 <= i < out.faces@.len() implies (#[trigger] out.faces@[i])@.len() <= u32::MAX by {
            assert(views(out.faces@)[i].len() <= u32::MAX);
        }
        lemma_untrailed_fault(faces, total as int);
    }
    let Faces { faces: face_lists, parents, selected } = out;
    let (counts, indices) = pack_faces(&face_lists);
    let bare = Mesh {
        vertex_count: total as u32,
        face_vertex_counts: counts,
        face_vertex_indices: indices,
        edge_vertices: Vec::new(),
        edge_creases: Vec::new(),
        vertex_corners: Vec::new(),
    };
    let topo: Topology<S> = match build_topology(&bare) {
        Ok(topo) => topo,
        Err(error) => {
            return Err(error);
        },
    };
    let ghost nn = total as nat;
    proof {
        lemma_heirs_in_range(parent.topo, parent.effective_edge_creases@);
    }
    let (edge_creases, edge_parent) = inherit_creases(&heirs, &parent.effective_edge_creases, options, &topo);
    assert(topo.edge_creases@ =~= Seq::new(topo.edges().len(), |e: int| zero_of::<S>()));
    let corners: Vec<S> = refined_corners(parent, &starts, options);
    let origins: Vec<VertexOrigin> = refined_origins(&parent.topo.faces);
    let adjacency = adjacency_from_topology(&topo, Ghost(nn));
    let (edge_has_selected_face, effective_edge_creases) = compute_edge_data(
        &topo,
        &selected,
        selection_boundary_crease,
        Ghost(nn),
    );
    let mesh = Mesh {
        vertex_count: total as u32,
        face_vertex_counts: bare.face_vertex_counts,
        face_vertex_indices: bare.face_vertex_indices,
        edge_vertices: copied(&topo.edge_vertices),
        edge_creases,
        vertex_corners: corners,
    };
    Ok(
        LevelData {
            mesh,
            topo,
            face_selected: selected,
            effective_edge_creases,
            edge_has_selected_face,
            effective_vertex_corners: Vec::new(),
            lineage: LineageMaps { vertex_origin: origins, face_parent: parents, edge_parent },
            adjacency,
        },
    )
}

/// Of proper faces only the edges can be at fault.
proof fn lemma_untrailed_fault(faces: Seq<Seq<u32>>, n: int)
    requires
        n > 0,
        forall|q: int|
            0 <= q < faces.len() ==> 3 <= (#[trigger] faces[q]).len() <= u32::MAX && all_below(faces[q], n),
    ensures
        mesh_fault(corner_counts(faces), flat(faces), n, false) == edge_fault(faces),
        crate::incidence::decoded(corner_counts(faces), flat(faces)) == faces,
{
    lemma_proper_faces_fault(faces, n);
    crate::level::lemma_faces_decode(faces);
    crate::level::lemma_proper_prefix(faces, n, faces.len() as int);
}

} // verus!
