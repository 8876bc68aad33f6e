//! The sharpness that other refined edges and corners get, in plain numbers.

use crate::catmull_clark::refine::{cc_inherited, cc_refines};
use crate::catmull_clark::topology::{parent_of as cc_parent_of, Parent as CcParent};
use crate::connectivity::{edge_key_of, key_table, lemma_flat_at};
use crate::decay::{lemma_decay, lemma_other_place, one_less};
use crate::doo_sabin::refine::{
    child_crease, corner_point, corners_set, ds_corners, ds_inherited, ds_refines, edge_corners, heir_rows,
};
use crate::hashing::EdgeKey;
use crate::incidence::{lemma_flat_locate, Topology};
use crate::level::LevelData;
use crate::loop_subdivision::refine::{loop_inherited, loop_refines, loop_wf};
use crate::loop_subdivision::topology::{parent_of as loop_parent_of, Parent as LoopParent};
use crate::options::SchemeOptions;
use crate::output::VertexOrigin;
use crate::points::computes_exactly;
use crate::rows::{flat, row_start};
use crate::rules::{corner_at_vertex, is_corner, lemma_corner_at_vertex};
use crate::scalar::{zero_of, Scalar};
use crate::sharpness::{decayed, positive};
use crate::sqrt3::refine::{parent_of as sqrt3_parent_of, sqrt3_refines, Parent as Sqrt3Parent};
use crate::weights::lemma_one;
use vstd::prelude::*;

verus! {

// ---------------------------------------------------------------------------
// Edges inside faces
// ---------------------------------------------------------------------------
proof fn lemma_cc_inner<S: Scalar>(
    p: CcParent,
    vertex_edges: Seq<Seq<u32>>,
    creases: Seq<S>,
    options: SchemeOptions,
    edges: Seq<EdgeKey>,
    table: Map<EdgeKey, usize>,
    k: int,
    i: int,
)
    requires
        p.refined_vertex_count() <= u32::MAX,
        key_table(edges, table),
        0 <= k <= p.edges.len(),
        forall|f: int|
            0 <= f < p.edges.len() ==> (#[trigger] p.edges[f]).0 < p.edges[f].1 && p.edges[f].1 < p.vertex_count,
        0 <= i < edges.len(),
        edges[i].0 < p.faces.len(),
    ensures
        ({
            let s = cc_inherited(p, vertex_edges, creases, options, table, edges.len(), k);
            &&& s.creases.len() == edges.len()
            &&& s.parents.len() == edges.len()
            &&& s.creases[i] == zero_of::<S>()
            &&& s.parents[i] == u32::MAX
        }),
    decreases k,
{
    if k > 0 {
        lemma_cc_inner(p, vertex_edges, creases, options, edges, table, k - 1, i);
        let f = k - 1;
        let q = p.edges[f];
        assert(q.0 < q.1 && q.1 < p.vertex_count);
        let key0 = edge_key_of(p.vertex_point(q.0 as int), p.edge_point(f));
        let key1 = edge_key_of(p.vertex_point(q.1 as int), p.edge_point(f));
        assert(key0.0 >= p.faces.len() && key1.0 >= p.faces.len());
        if table.contains_key(key0) {
            lemma_other_place(edges, table, key0, i);
        }
        if table.contains_key(key1) {
            lemma_other_place(edges, table, key1, i);
        }
    }
}

/// The edges of a Catmull-Clark refinement that end at the middle of a face are not sharp
/// and have no parent.
pub proof fn catmull_clark_spokes_are_smooth<S: Scalar>(
    val: spec_fn(S) -> real,
    options: SchemeOptions,
    boundary_crease: S,
    parent: LevelData<S>,
    child: LevelData<S>,
    i: int,
)
    requires
        computes_exactly(val),
        parent.wf(),
        cc_refines(parent, options, boundary_crease, child),
        0 <= i < child.topo.edges().len(),
        child.lineage.vertex_origin@[child.topo.edges()[i].0 as int] is Face,
    ensures
        val(child.mesh.edge_creases@[i]) == 0 as real,
        child.lineage.edge_parent@[i] == u32::MAX,
{
    lemma_one::<S>(val);
    let p = cc_parent_of(parent.topo, parent.n());
    let edges = child.topo.edges();
    assert(edges[i].0 < edges[i].1 && edges[i].1 < child.n());
    lemma_cc_inner(
        p,
        parent.topo.vertex_edges@,
        parent.effective_edge_creases@,
        options,
        edges,
        child.topo.edge_key_to_index@,
        p.edges.len() as int,
        i,
    );
}

proof fn lemma_loop_inner<S: Scalar>(
    p: LoopParent,
    creases: Seq<S>,
    edges: Seq<EdgeKey>,
    table: Map<EdgeKey, usize>,
    k: int,
    i: int,
)
    requires
        p.refined_vertex_count() <= u32::MAX,
        key_table(edges, table),
        0 <= k <= p.edges.len(),
        forall|f: int|
            0 <= f < p.edges.len() ==> (#[trigger] p.edges[f]).0 < p.edges[f].1 && p.edges[f].1 < p.vertex_count,
        0 <= i < edges.len(),
        edges[i].1 < p.edges.len(),
    ensures
        ({
            let s = loop_inherited(p, creases, table, edges.len(), k);
            &&& s.creases.len() == edges.len()
            &&& s.parents.len() == edges.len()
            &&& s.creases[i] == zero_of::<S>()
            &&& s.parents[i] == u32::MAX
        }),
    decreases k,
{
    if k > 0 {
        lemma_loop_inner(p, creases, edges, table, k - 1, i);
        let f = k - 1;
        let q = p.edges[f];
        assert(q.0 < q.1 && q.1 < p.vertex_count);
        let key0 = edge_key_of(p.vertex_point(q.0 as int), f as u32);
        let key1 = edge_key_of(p.vertex_point(q.1 as int), f as u32);
        assert(key0.1 >= p.edges.len() && key1.1 >= p.edges.len());
        if table.contains_key(key0) {
            lemma_other_place(edges, table, key0, i);
        }
        if table.contains_key(key1) {
            lemma_other_place(edges, table, key1, i);
        }
    }
}

/// The edges of a Loop refinement between the points of two edges are not sharp and have
/// no parent.
pub proof fn loop_inner_edges_are_smooth<S: Scalar>(
    val: spec_fn(S) -> real,
    options: SchemeOptions,
    boundary_crease: S,
    parent: LevelData<S>,
    child: LevelData<S>,
    i: int,
)
    requires
        computes_exactly(val),
        loop_wf(parent),
        loop_refines(parent, options, boundary_crease, child),
        0 <= i < child.topo.edges().len(),
        child.lineage.vertex_origin@[child.topo.edges()[i].1 as int] is Edge,
    ensures
        val(child.mesh.edge_creases@[i]) == 0 as real,
        child.lineage.edge_parent@[i] == u32::MAX,
{
    lemma_one::<S>(val);
    let p = loop_parent_of(parent.topo, parent.n());
    let edges = child.topo.edges();
    assert(edges[i].0 < edges[i].1 && edges[i].1 < child.n());
    lemma_loop_inner(
        p,
        parent.effective_edge_creases@,
        edges,
        child.topo.edge_key_to_index@,
        p.edges.len() as int,
        i,
    );
}

// ---------------------------------------------------------------------------
// Edges of a sqrt(3) refinement
// ---------------------------------------------------------------------------
proof fn lemma_sqrt3_handed_down<S: Scalar>(
    p: Sqrt3Parent<S>,
    options: SchemeOptions,
    edges: Seq<EdgeKey>,
    table: Map<EdgeKey, usize>,
    k: int,
    e: int,
    i: int,
)
    requires
        p.refined_vertex_count() <= u32::MAX,
        key_table(edges, table),
        0 <= k <= p.edges.len(),
        forall|f: int|
            0 <= f < p.edges.len() ==> (#[trigger] p.edges[f]).0 < p.edges[f].1 && p.edges[f].1 < p.vertex_count,
        forall|f: int| 0 <= f < p.edges.len() && #[trigger] p.edges[f] == p.edges[e] ==> f == e,
        0 <= e < p.edges.len(),
        0 <= i < edges.len(),
        edges[i] == (p.vertex_point(p.edges[e].0 as int), p.vertex_point(p.edges[e].1 as int)),
        table[edges[i]] == i,
    ensures
        ({
            let s = p.inherited(options, table, edges.len(), k);
            let c = p.child_crease(e, options);
            let sharp = e < k && positive(p.creases[e]) && !S::at_most_of(c, zero_of());
            &&& s.creases.len() == edges.len()
            &&& s.parents.len() == edges.len()
            &&& s.creases[i] == (if sharp {
                c
            } else {
                zero_of()
            })
            &&& s.parents[i] == (if sharp {
                e as u32
            } else {
                u32::MAX
            })
        }),
    decreases k,
{
    if k > 0 {
        lemma_sqrt3_handed_down(p, options, edges, table, k - 1, e, i);
        let f = k - 1;
        let q = p.edges[f];
        assert(q.0 < q.1 && q.1 < p.vertex_count);
        let r = p.edges[e];
        assert(r.0 < r.1 && r.1 < p.vertex_count);
        let key = edge_key_of(p.vertex_point(q.0 as int), p.vertex_point(q.1 as int));
        assert(key == (p.vertex_point(q.0 as int), p.vertex_point(q.1 as int)));
        assert(key == edges[i] ==> q == r);
        if table.contains_key(key) && key != edges[i] {
            lemma_other_place(edges, table, key, i);
        }
        assert(table.contains_key(edges[i]));
    }
}

/// The crease that a sqrt(3) refinement hands down: an edge between two vertices that is
/// still there loses one, or nothing where creases do not decay, and while it is sharp it
/// has the edge as its parent.
pub proof fn sqrt3_creases_decay<S: Scalar>(
    val: spec_fn(S) -> real,
    options: SchemeOptions,
    boundary_crease: S,
    parent: LevelData<S>,
    child: LevelData<S>,
    i: int,
    e: int,
)
    requires
        computes_exactly(val),
        parent.wf(),
        sqrt3_refines(parent, options, boundary_crease, child),
        0 <= i < child.topo.edges().len(),
        child.topo.edge_key_to_index@[child.topo.edges()[i]] == i,
        0 <= e < parent.topo.edges().len(),
        forall|f: int|
            0 <= f < parent.topo.edges().len() && #[trigger] parent.topo.edges()[f] == parent.topo.edges()[e] ==> f == e,
        ({
            let (a, b) = child.topo.edges()[i];
            child.lineage.vertex_origin@[a as int] == VertexOrigin::Vertex(parent.topo.edges()[e].0)
                && child.lineage.vertex_origin@[b as int] == VertexOrigin::Vertex(parent.topo.edges()[e].1)
        }),
    ensures
        ({
            let c = val(parent.effective_edge_creases@[e]);
            let next = if c <= 0 as real {
                0 as real
            } else if options.crease_normalize {
                c
            } else {
                one_less(c)
            };
            &&& val(child.mesh.edge_creases@[i]) == next
            &&& child.lineage.edge_parent@[i] == (if next > 0 as real {
                e as u32
            } else {
                u32::MAX
            })
        }),
{
    lemma_one::<S>(val);
    let p = sqrt3_parent_of(parent);
    let edges = child.topo.edges();
    let r = p.edges[e];
    assert(parent.topo.edges()[e].0 < parent.topo.edges()[e].1 && parent.topo.edges()[e].1 < parent.n());
    assert(edges[i].0 < edges[i].1 && edges[i].1 < child.n());
    let (a, b) = edges[i];
    let origins = child.lineage.vertex_origin@;
    assert(origins == p.origins());
    lemma_vertex_point(p, a, r.0);
    lemma_vertex_point(p, b, r.1);
    lemma_sqrt3_handed_down(p, options, edges, child.topo.edge_key_to_index@, p.edges.len() as int, e, i);
    lemma_decay(val, p.creases[e]);
}

proof fn lemma_vertex_point<S: Scalar>(p: Sqrt3Parent<S>, a: u32, v: u32)
    requires
        p.refined_vertex_count() <= u32::MAX,
        a < p.refined_vertex_count(),
        p.origins()[a as int] == VertexOrigin::Vertex(v),
    ensures
        a == p.vertex_point(v as int),
{
}

// ---------------------------------------------------------------------------
// Corners of a Doo-Sabin refinement
// ---------------------------------------------------------------------------
proof fn lemma_corners_set<S: Scalar>(corners: Seq<S>, faces: Seq<Seq<u32>>, list: Seq<u32>, v: u32, corner: S, i: int)
    requires
        corners.len() == flat(faces).len(),
        0 <= i < corners.len(),
        forall|k: int| 0 <= k < list.len() ==> #[trigger] list[k] < faces.len(),
    ensures
        corners_set(corners, faces, list, v, corner).len() == corners.len(),
        flat(faces)[i] != v ==> corners_set(corners, faces, list, v, corner)[i] == corners[i],
        corners_set(corners, faces, list, v, corner)[i] == corners[i] || corners_set(corners, faces, list, v, corner)[i]
            == corner,
    decreases list.len(),
{
    if list.len() > 0 {
        let front = list.drop_last();
        assert forall|k: int| 0 <= k < front.len() implies #[trigger] front[k] < faces.len() by {
            assert(front[k] == list[k]);
        }
        lemma_corners_set(corners, faces, front, v, corner, i);
        let f = list[list.len() - 1] as int;
        lemma_corner_at_vertex(faces[f], v);
        if let Some(c) = corner_at_vertex(faces[f], v) {
            lemma_flat_at(faces, f, c);
        }
    }
}

/// The point of the first corner of a face at `v` is set.
proof fn lemma_corner_is_set<S: Scalar>(
    corners: Seq<S>,
    faces: Seq<Seq<u32>>,
    list: Seq<u32>,
    v: u32,
    corner: S,
    f: int,
    c: int,
)
    requires
        corners.len() == flat(faces).len(),
        forall|k: int| 0 <= k < list.len() ==> #[trigger] list[k] < faces.len(),
        0 <= f < faces.len(),
        list.contains(f as u32),
        f <= u32::MAX,
        corner_at_vertex(faces[f], v) == Some(c),
    ensures
        corners_set(corners, faces, list, v, corner)[row_start(faces, f) + c] == corner,
    decreases list.len(),
{
    let front = list.drop_last();
    lemma_corner_at_vertex(faces[f], v);
    lemma_flat_at(faces, f, c);
    assert forall|k: int| 0 <= k < front.len() implies #[trigger] front[k] < faces.len() by {
        assert(front[k] == list[k]);
    }
    let i = row_start(faces, f) + c;
    lemma_corners_set(corners, faces, front, v, corner, i);
    let g = list[list.len() - 1] as int;
    lemma_corner_at_vertex(faces[g], v);
    if let Some(d) = corner_at_vertex(faces[g], v) {
        lemma_flat_at(faces, g, d);
    }
    if g != f {
        let at = list.index_of(f as u32);
        assert(list[at] == f as u32);
        assert(front[at] == f as u32);
        lemma_corner_is_set(corners, faces, front, v, corner, f, c);
    }
}

proof fn lemma_ds_corner<S: Scalar>(
    level: LevelData<S>,
    corners: Seq<S>,
    options: SchemeOptions,
    k: int,
    f: int,
    c: int,
    v: u32,
)
    requires
        forall|w: int, j: int|
            0 <= w < k && 0 <= j < level.topo.vertex_faces@[w].len() ==> #[trigger] level.topo.vertex_faces@[w][j]
                < level.topo.faces@.len(),
        0 <= k <= u32::MAX,
        0 <= f < level.topo.faces@.len(),
        f <= u32::MAX,
        corner_at_vertex(level.topo.faces@[f], v) == Some(c),
        v < k ==> level.topo.vertex_faces@[v as int].contains(f as u32),
    ensures
        ({
            let t = level.topo;
            let child = if options.corner_normalize {
                corners[v as int]
            } else {
                decayed(corners[v as int])
            };
            let all = ds_corners(t, corners, options, k);
            &&& all.len() == flat(t.faces@).len()
            &&& all[row_start(t.faces@, f) + c] == (if v < k && !S::at_most_of(corners[v as int], zero_of()) && positive(
                child,
            ) {
                child
            } else {
                zero_of()
            })
        }),
    decreases k,
{
    let t = level.topo;
    lemma_corner_at_vertex(t.faces@[f], v);
    lemma_flat_at(t.faces@, f, c);
    let i = row_start(t.faces@, f) + c;
    if k > 0 {
        let w = k - 1;
        lemma_ds_corner(level, corners, options, w, f, c, v);
        let before = ds_corners(t, corners, options, w);
        let list = t.vertex_faces@[w];
        let child = if options.corner_normalize {
            corners[w]
        } else {
            decayed(corners[w])
        };
        assert forall|j: int| 0 <= j < list.len() implies #[trigger] list[j] < t.faces@.len() by {
            assert(t.vertex_faces@[w][j] < t.faces@.len());
        }
        lemma_corners_set(before, t.faces@, list, w as u32, child, i);
        if v == w {
            lemma_corner_is_set(before, t.faces@, list, v, child, f, c);
        }
    }
}

/// The corners that a Doo-Sabin refinement hands down: the point of a face at its first
/// corner at a vertex gets that of the vertex, less one unless corners do not decay.
pub proof fn doo_sabin_corners_decay<S: Scalar>(
    val: spec_fn(S) -> real,
    options: SchemeOptions,
    boundary_crease: S,
    parent: LevelData<S>,
    child: LevelData<S>,
    f: int,
    c: int,
)
    requires
        computes_exactly(val),
        ds_refines(parent, options, boundary_crease, child),
        parent.n() <= u32::MAX,
        forall|w: int, j: int|
            0 <= w < parent.n() && 0 <= j < parent.topo.vertex_faces@[w].len() ==> #[trigger] parent.topo.vertex_faces@[w][j]
                < parent.topo.faces@.len(),
        0 <= f < parent.topo.faces@.len(),
        f <= u32::MAX,
        is_corner(parent.topo.faces@[f], parent.topo.faces@[f][c], c),
        parent.topo.faces@[f][c] < parent.n(),
        parent.topo.vertex_faces@[parent.topo.faces@[f][c] as int].contains(f as u32),
    ensures
        ({
            let s = val(parent.mesh.vertex_corners@[parent.topo.faces@[f][c] as int]);
            val(child.mesh.vertex_corners@[row_start(parent.topo.faces@, f) + c]) == (if s <= 0 as real {
                0 as real
            } else if options.corner_normalize {
                s
            } else {
                one_less(s)
            })
        }),
{
    lemma_one::<S>(val);
    let face = parent.topo.faces@[f];
    let v = face[c];
    lemma_corner_at_vertex(face, v);
    let d = corner_at_vertex(face, v)->Some_0;
    assert(is_corner(face, v, d));
    assert(d == c);
    lemma_ds_corner(parent, parent.mesh.vertex_corners@, options, parent.n() as int, f, c, v);
    let s = parent.mesh.vertex_corners@[v as int];
    lemma_decay(val, s);
    lemma_decay(val, decayed(s));
}

// ---------------------------------------------------------------------------
// Creases of a Doo-Sabin refinement
// ---------------------------------------------------------------------------
/// The two ends of a refined edge lie at the two ends of an edge.
spec fn at_ends(faces: Seq<Seq<u32>>, key: EdgeKey, edge: EdgeKey) -> bool {
    let (a, b) = (flat(faces)[key.0 as int], flat(faces)[key.1 as int]);
    (a == edge.0 && b == edge.1) || (a == edge.1 && b == edge.0)
}

proof fn lemma_at_ends(faces: Seq<Seq<u32>>, f: int, c: int, d: int, edge: EdgeKey)
    requires
        0 <= f < faces.len(),
        is_corner(faces[f], edge.0, c),
        is_corner(faces[f], edge.1, d),
        flat(faces).len() <= u32::MAX,
    ensures
        at_ends(faces, edge_key_of(corner_point(faces, f, c), corner_point(faces, f, d)), edge),
{
    lemma_flat_at(faces, f, c);
    lemma_flat_at(faces, f, d);
}

/// Every heir of an edge lies at its ends.
proof fn lemma_heir<S: Scalar>(t: Topology<S>, creases: Seq<S>, m: int)
    requires
        0 <= m < flat(heir_rows(t, creases)).len(),
        t.edges().len() <= u32::MAX,
        flat(t.faces@).len() <= u32::MAX,
        forall|e: int, j: int|
            0 <= e < t.edges().len() && 0 <= j < t.edge_faces@[e].len() ==> #[trigger] t.edge_faces@[e][j] < t.faces@.len(),
    ensures
        ({
            let (key, e) = flat(heir_rows(t, creases))[m];
            e < t.edges().len() && at_ends(t.faces@, key, t.edges()[e as int])
        }),
{
    let rows = heir_rows(t, creases);
    let (e, j) = lemma_flat_locate(rows, m);
    let edge = t.edges()[e];
    let (c00, c10, c01, c11) = edge_corners(t, e)->Some_0;
    let f0 = t.edge_faces@[e][0] as int;
    let f1 = t.edge_faces@[e][1] as int;
    assert(t.edge_faces@[e][0] < t.faces@.len() && t.edge_faces@[e][1] < t.faces@.len());
    lemma_corner_at_vertex(t.faces@[f0], edge.0);
    lemma_corner_at_vertex(t.faces@[f0], edge.1);
    lemma_corner_at_vertex(t.faces@[f1], edge.0);
    lemma_corner_at_vertex(t.faces@[f1], edge.1);
    lemma_at_ends(t.faces@, f0, c00, c10, edge);
    lemma_at_ends(t.faces@, f1, c01, c11, edge);
    assert(j == 0 || j == 1);
}

proof fn lemma_heirs_get<S: Scalar>(
    heirs: Seq<(EdgeKey, u32)>,
    creases: Seq<S>,
    options: SchemeOptions,
    edges: Seq<EdgeKey>,
    table: Map<EdgeKey, usize>,
    k: int,
    m: int,
    i: int,
)
    requires
        key_table(edges, table),
        0 <= k <= heirs.len(),
        0 <= m < heirs.len(),
        0 <= i < edges.len(),
        heirs[m].0 == edges[i],
        table[edges[i]] == i,
        forall|l: int| 0 <= l < heirs.len() && (#[trigger] heirs[l]).0 == edges[i] ==> heirs[l].1 == heirs[m].1,
    ensures
        ({
            let s = ds_inherited(heirs, creases, options, table, edges.len(), k);
            let c = child_crease(creases[heirs[m].1 as int], options);
            &&& s.creases.len() == edges.len()
            &&& s.parents.len() == edges.len()
            &&& positive(c) && m < k ==> s.creases[i] == c && s.parents[i] == heirs[m].1
            &&& !positive(c) ==> s.creases[i] == zero_of::<S>() && s.parents[i] == u32::MAX
        }),
    decreases k,
{
    if k > 0 {
        lemma_heirs_get(heirs, creases, options, edges, table, k - 1, m, i);
        let key = heirs[k - 1].0;
        if table.contains_key(key) && key != edges[i] {
            lemma_other_place(edges, table, key, i);
        }
        assert(table.contains_key(edges[i]));
    }
}

/// The crease that a Doo-Sabin refinement hands down: the edges along a sharp inner edge on
/// its two faces lose one, or nothing where creases do not decay, and while they are sharp
/// they have the edge as their parent. `j` tells the two faces apart.
pub proof fn doo_sabin_creases_decay<S: Scalar>(
    val: spec_fn(S) -> real,
    options: SchemeOptions,
    boundary_crease: S,
    parent: LevelData<S>,
    child: LevelData<S>,
    e: int,
    j: int,
    c: int,
    d: int,
    i: int,
)
    requires
        computes_exactly(val),
        ds_refines(parent, options, boundary_crease, child),
        parent.topo.edges().len() <= u32::MAX,
        flat(parent.topo.faces@).len() <= u32::MAX,
        forall|e: int, j: int|
            0 <= e < parent.topo.edges().len() && 0 <= j < parent.topo.edge_faces@[e].len()
                ==> #[trigger] parent.topo.edge_faces@[e][j] < parent.topo.faces@.len(),
        forall|f: int|
            0 <= f < parent.topo.edges().len() && #[trigger] parent.topo.edges()[f] == parent.topo.edges()[e] ==> f == e,
        forall|f: int|
            0 <= f < parent.topo.edges().len() ==> (#[trigger] parent.topo.edges()[f]).0 < parent.topo.edges()[f].1,
        0 <= e < parent.topo.edges().len(),
        edge_corners(parent.topo, e) is Some,
        val(parent.effective_edge_creases@[e]) > 0 as real,
        j == 0 || j == 1,
        is_corner(parent.topo.faces@[parent.topo.edge_faces@[e][j] as int], parent.topo.edges()[e].0, c),
        is_corner(parent.topo.faces@[parent.topo.edge_faces@[e][j] as int], parent.topo.edges()[e].1, d),
        0 <= i < child.topo.edges().len(),
        child.topo.edge_key_to_index@[child.topo.edges()[i]] == i,
        ({
            let start = row_start(parent.topo.faces@, parent.topo.edge_faces@[e][j] as int);
            child.topo.edges()[i] == edge_key_of((start + c) as u32, (start + d) as u32)
        }),
    ensures
        ({
            let s = val(parent.effective_edge_creases@[e]);
            let next = if options.crease_normalize {
                s
            } else {
                one_less(s)
            };
            &&& val(child.mesh.edge_creases@[i]) == next
            &&& child.lineage.edge_parent@[i] == (if next > 0 as real {
                e as u32
            } else {
                u32::MAX
            })
        }),
{
    lemma_one::<S>(val);
    let t = parent.topo;
    let creases = parent.effective_edge_creases@;
    let rows = heir_rows(t, creases);
    let heirs = flat(rows);
    let edges = child.topo.edges();
    lemma_decay(val, creases[e]);
    lemma_decay(val, child_crease(creases[e], options));
    lemma_sharp_heirs(t, creases, e, j, c, d);
    lemma_flat_at(rows, e, j);
    let m = row_start(rows, e) + j;
    assert(heirs[m] == (edges[i], e as u32));
    let own = edges[i];
    lemma_heir(t, creases, m);
    assert forall|l: int| 0 <= l < heirs.len() && (#[trigger] heirs[l]).0 == own implies heirs[l].1 == heirs[m].1 by {
        lemma_heir(t, creases, l);
        let g = heirs[l].1 as int;
        assert(t.edges()[g].0 < t.edges()[g].1 && t.edges()[e].0 < t.edges()[e].1);
        assert(t.edges()[g] == t.edges()[e]);
    }
    lemma_heirs_get(heirs, creases, options, edges, child.topo.edge_key_to_index@, heirs.len() as int, m, i);
}

proof fn lemma_sharp_heirs<S: Scalar>(t: Topology<S>, creases: Seq<S>, e: int, j: int, c: int, d: int)
    requires
        0 <= e < t.edges().len(),
        edge_corners(t, e) is Some,
        positive(creases[e]),
        j == 0 || j == 1,
        is_corner(t.faces@[t.edge_faces@[e][j] as int], t.edges()[e].0, c),
        is_corner(t.faces@[t.edge_faces@[e][j] as int], t.edges()[e].1, d),
    ensures
        heir_rows(t, creases)[e].len() == 2,
        ({
            let f = t.edge_faces@[e][j] as int;
            heir_rows(t, creases)[e][j] == (edge_key_of(corner_point(t.faces@, f, c), corner_point(t.faces@, f, d)), e as u32)
        }),
{
    let edge = t.edges()[e];
    let face = t.faces@[t.edge_faces@[e][j] as int];
    lemma_corner_at_vertex(face, edge.0);
    lemma_corner_at_vertex(face, edge.1);
    lemma_one_corner(face, edge.0, c, corner_at_vertex(face, edge.0)->Some_0);
    lemma_one_corner(face, edge.1, d, corner_at_vertex(face, edge.1)->Some_0);
}

proof fn lemma_one_corner(face: Seq<u32>, v: u32, c: int, d: int)
    requires
        is_corner(face, v, c),
        is_corner(face, v, d),
    ensures
        c == d,
{
}

} // verus!
