//! A mesh, a scheme and a request lead to one chain of levels.

use crate::base::{is_base, level_ok, mesh_faces};
use crate::catmull_clark::stencils::{cc_edge_row, cc_edge_rows, cc_rows, cc_vertex_row, cc_vertex_rows};
use crate::connectivity::{
    corner_faces, corner_keys, edge_key_of, edge_tables, key_labels, key_table, lemma_distinct, lemma_same_starts, pairs,
    prev_corner,
};
use crate::doo_sabin::refine::{
    across, child_faces, crease_heirs, ds_children, ds_corners, ds_refines, edge_child_rows, edge_children,
    edge_corners, exit_key, heir_rows, ordered_faces, vertex_child_rows, vertex_children, walk,
};
use crate::doo_sabin::stencils::{ds_face_rows, ds_row, ds_rows, sharp_data};
use crate::hashing::EdgeKey;
use crate::incidence::Topology;
use crate::level::LevelData;
use crate::loop_subdivision::stencils::{
    loop_edge_row, loop_edge_rows, loop_rows, loop_vertex_row, loop_vertex_rows,
};
use crate::options::{Scheme, SchemeOptions, UniformRefine};
use crate::output::{same_lineage, RefinementResult};
use crate::refiner::{chain, level_rows, refines, result_of, roots, Refinement, Refiner};
use crate::rows::{flat, lemma_flat_row, row_start};
use crate::rules::corner_at_vertex;
use crate::scalar::Scalar;
use crate::sqrt3::stencils::{sqrt3_rows, sqrt3_vertex_row, sqrt3_vertex_rows};
use crate::stencil::written_from;
use crate::topology::Mesh;
use vstd::prelude::*;

verus! {

/// Two topologies with the same contents.
pub open spec fn same_topology<S: Scalar>(a: Topology<S>, b: Topology<S>) -> bool {
    &&& a.faces@ == b.faces@
    &&& a.edges() == b.edges()
    &&& a.face_edges@ == b.face_edges@
    &&& a.edge_faces@ == b.edge_faces@
    &&& a.vertex_edges@ == b.vertex_edges@
    &&& a.vertex_faces@ == b.vertex_faces@
    &&& a.edge_creases@ == b.edge_creases@
    &&& a.edge_is_boundary@ == b.edge_is_boundary@
    &&& a.vertex_is_boundary@ == b.vertex_is_boundary@
    &&& a.edge_key_to_index@ == b.edge_key_to_index@
}

/// Two meshes with the same contents.
pub open spec fn same_contents<S>(a: Mesh<S>, b: Mesh<S>) -> bool {
    &&& a.vertex_count == b.vertex_count
    &&& a.face_vertex_counts@ == b.face_vertex_counts@
    &&& a.face_vertex_indices@ == b.face_vertex_indices@
    &&& pairs(a.edge_vertices@) == pairs(b.edge_vertices@)
    &&& a.edge_creases@ == b.edge_creases@
    &&& a.vertex_corners@ == b.vertex_corners@
}

/// Two levels with the same contents.
pub open spec fn same_level<S: Scalar>(a: LevelData<S>, b: LevelData<S>) -> bool {
    &&& same_contents(a.mesh, b.mesh)
    &&& same_topology(a.topo, b.topo)
    &&& a.face_selected@ == b.face_selected@
    &&& a.edge_has_selected_face@ == b.edge_has_selected_face@
    &&& a.effective_edge_creases@ == b.effective_edge_creases@
    &&& a.effective_vertex_corners@ == b.effective_vertex_corners@
    &&& a.lineage.vertex_origin@ == b.lineage.vertex_origin@
    &&& a.lineage.face_parent@ == b.lineage.face_parent@
    &&& a.lineage.edge_parent@ == b.lineage.edge_parent@
}

// ---------------------------------------------------------------------------
// Topologies
// ---------------------------------------------------------------------------
proof fn lemma_edge_tables_unique(
    edges: Seq<EdgeKey>,
    ids: Seq<u32>,
    rows: Seq<Seq<u32>>,
    other_edges: Seq<EdgeKey>,
    other_ids: Seq<u32>,
    other_rows: Seq<Seq<u32>>,
    labels: Seq<int>,
    keys: Seq<EdgeKey>,
    owners: Seq<u32>,
)
    requires
        edge_tables(edges, ids, rows, labels, keys, owners),
        edge_tables(other_edges, other_ids, other_rows, labels, keys, owners),
    ensures
        edges == other_edges,
        ids == other_ids,
        rows == other_rows,
{
    let d = crate::connectivity::distinct(labels);
    lemma_distinct(labels);
    assert forall|c: int| 0 <= c < ids.len() implies ids[c] == other_ids[c] by {
        assert(d[ids[c] as int] == labels[c]);
        assert(d[other_ids[c] as int] == labels[c]);
    }
    assert(ids =~= other_ids);
    assert forall|e: int| 0 <= e < edges.len() implies edges[e] == other_edges[e] by {
        assert(d.contains(d[e]));
        assert(labels.contains(d[e]));
        let c = labels.index_of(d[e]);
        assert(d[ids[c] as int] == labels[c]);
        assert(ids[c] == e);
        assert(edges[ids[c] as int] == keys[c]);
        assert(other_edges[other_ids[c] as int] == keys[c]);
    }
    assert(edges =~= other_edges);
    assert forall|e: int| 0 <= e < rows.len() implies rows[e] == other_rows[e] by {
        assert(rows[e] == crate::connectivity::incident(labels, owners, d[e]));
        assert(other_rows[e] == crate::connectivity::incident(labels, owners, d[e]));
    }
    assert(rows =~= other_rows);
}

proof fn lemma_key_table_unique(edges: Seq<EdgeKey>, a: Map<EdgeKey, usize>, b: Map<EdgeKey, usize>)
    requires
        key_table(edges, a),
        key_table(edges, b),
    ensures
        a == b,
{
    assert forall|k: EdgeKey| a.contains_key(k) <==> #[trigger] b.contains_key(k) by {
        if a.contains_key(k) {
            assert(edges[a[k] as int] == k);
        }
        if b.contains_key(k) {
            assert(edges[b[k] as int] == k);
        }
    }
    assert forall|k: EdgeKey| #[trigger] a.contains_key(k) implies a[k] == b[k] by {
        assert(b.contains_key(k));
        assert(edges[a[k] as int] == k && edges[b[k] as int] == k);
        assert(a[k] <= b[edges[a[k] as int]]);
        assert(b[k] <= a[edges[b[k] as int]]);
    }
    assert(a =~= b);
}

/// Rows of the same lengths with the same flat list are the same.
proof fn lemma_rows_from_flat(a: Seq<Seq<u32>>, b: Seq<Seq<u32>>)
    requires
        a.len() == b.len(),
        forall|f: int| 0 <= f < a.len() ==> (#[trigger] a[f]).len() == b[f].len(),
        flat(a) == flat(b),
    ensures
        a == b,
{
    assert forall|f: int| 0 <= f < a.len() implies a[f] == b[f] by {
        lemma_flat_row(a, f);
        lemma_flat_row(b, f);
        lemma_same_starts(a, b, f);
        assert(row_start(a, f) == row_start(b, f));
        assert(a[f].len() == b[f].len());
    }
    assert(a =~= b);
}

/// Faces, labels and the number of vertices lead to one topology, but for the
/// creases and the faces around the vertices.
pub proof fn topologies_are_unique<S: Scalar>(
    a: Topology<S>,
    b: Topology<S>,
    faces: Seq<Seq<u32>>,
    labels: Seq<int>,
    n: nat,
)
    requires
        a.describes_edges(faces, labels, n),
        b.describes_edges(faces, labels, n),
        a.vertex_faces@ == b.vertex_faces@,
        a.edge_creases@ == b.edge_creases@,
    ensures
        same_topology(a, b),
{
    lemma_edge_tables_unique(
        a.edges(),
        flat(a.face_edges@),
        a.edge_faces@,
        b.edges(),
        flat(b.face_edges@),
        b.edge_faces@,
        labels,
        corner_keys(faces),
        corner_faces(faces),
    );
    lemma_key_table_unique(a.edges(), a.edge_key_to_index@, b.edge_key_to_index@);
    assert forall|f: int| 0 <= f < a.face_edges@.len() implies (#[trigger] a.face_edges@[f]).len()
        == b.face_edges@[f].len() by {
        assert(a.face_edges@[f].len() == faces[f].len());
        assert(b.face_edges@[f].len() == faces[f].len());
    }
    lemma_rows_from_flat(a.face_edges@, b.face_edges@);
}

/// As `topologies_are_unique`, for what does not depend on the creases.
pub(crate) proof fn lemma_tables_unique<S: Scalar>(
    a: Topology<S>,
    b: Topology<S>,
    faces: Seq<Seq<u32>>,
    labels: Seq<int>,
    n: nat,
)
    requires
        a.describes_edges(faces, labels, n),
        b.describes_edges(faces, labels, n),
    ensures
        a.edges() == b.edges(),
        a.edge_key_to_index@ == b.edge_key_to_index@,
{
    lemma_edge_tables_unique(
        a.edges(),
        flat(a.face_edges@),
        a.edge_faces@,
        b.edges(),
        flat(b.face_edges@),
        b.edge_faces@,
        labels,
        corner_keys(faces),
        corner_faces(faces),
    );
    lemma_key_table_unique(a.edges(), a.edge_key_to_index@, b.edge_key_to_index@);
}

// ---------------------------------------------------------------------------
// Levels
// ---------------------------------------------------------------------------
pub(crate) proof fn lemma_base_unique<S: Scalar>(
    scheme: Scheme,
    options: SchemeOptions,
    mesh: Mesh<S>,
    other: Mesh<S>,
    selected: Seq<bool>,
    boundary_crease: S,
    a: LevelData<S>,
    b: LevelData<S>,
)
    requires
        same_contents(mesh, other),
        is_base(scheme, options, mesh, selected, boundary_crease, a),
        is_base(scheme, options, other, selected, boundary_crease, b),
    ensures
        same_level(a, b),
{
    reveal(is_base);
    let faces = mesh_faces(mesh);
    let labels = key_labels(corner_keys(faces));
    lemma_tables_unique(a.topo, b.topo, faces, labels, mesh.vertex_count as nat);
    topologies_are_unique(a.topo, b.topo, faces, labels, mesh.vertex_count as nat);
    assert(a.lineage.vertex_origin@ =~= b.lineage.vertex_origin@);
    assert(a.lineage.face_parent@ =~= b.lineage.face_parent@);
    assert(a.lineage.edge_parent@ =~= b.lineage.edge_parent@);
}

proof fn lemma_cc_child_unique<S: Scalar>(
    options: SchemeOptions,
    boundary_crease: S,
    a: LevelData<S>,
    b: LevelData<S>,
    x: LevelData<S>,
    y: LevelData<S>,
)
    requires
        same_level(a, b),
        crate::catmull_clark::refine::cc_refines(a, options, boundary_crease, x),
        crate::catmull_clark::refine::cc_refines(b, options, boundary_crease, y),
    ensures
        same_level(x, y),
{
    let p = crate::catmull_clark::topology::parent_of(a.topo, a.n());
    assert(p == crate::catmull_clark::topology::parent_of(b.topo, b.n()));
    let sel = a.face_selected@;
    let faces = crate::catmull_clark::refine::cc_faces(p, sel);
    let labels = crate::catmull_clark::refine::cc_labels(p, sel);
    lemma_tables_unique(x.topo, y.topo, faces, labels, p.refined_vertex_count());
    topologies_are_unique(x.topo, y.topo, faces, labels, p.refined_vertex_count());
    assert(x.effective_vertex_corners@ =~= y.effective_vertex_corners@);
}

proof fn lemma_loop_child_unique<S: Scalar>(
    options: SchemeOptions,
    boundary_crease: S,
    a: LevelData<S>,
    b: LevelData<S>,
    x: LevelData<S>,
    y: LevelData<S>,
)
    requires
        same_level(a, b),
        crate::loop_subdivision::refine::loop_refines(a, options, boundary_crease, x),
        crate::loop_subdivision::refine::loop_refines(b, options, boundary_crease, y),
    ensures
        same_level(x, y),
{
    let p = crate::loop_subdivision::topology::parent_of(a.topo, a.n());
    assert(p == crate::loop_subdivision::topology::parent_of(b.topo, b.n()));
    let sel = a.face_selected@;
    let faces = crate::loop_subdivision::refine::loop_faces(p, sel);
    let labels = crate::loop_subdivision::refine::loop_labels(p, sel);
    lemma_tables_unique(x.topo, y.topo, faces, labels, p.refined_vertex_count());
    topologies_are_unique(x.topo, y.topo, faces, labels, p.refined_vertex_count());
}

proof fn lemma_sqrt3_child_unique<S: Scalar>(
    options: SchemeOptions,
    boundary_crease: S,
    a: LevelData<S>,
    b: LevelData<S>,
    x: LevelData<S>,
    y: LevelData<S>,
)
    requires
        same_level(a, b),
        crate::sqrt3::refine::sqrt3_refines(a, options, boundary_crease, x),
        crate::sqrt3::refine::sqrt3_refines(b, options, boundary_crease, y),
    ensures
        same_level(x, y),
{
    let p = crate::sqrt3::refine::parent_of(a);
    assert(p == crate::sqrt3::refine::parent_of(b));
    let faces = p.refined_faces();
    let labels = key_labels(corner_keys(faces));
    lemma_tables_unique(x.topo, y.topo, faces, labels, p.refined_vertex_count());
    topologies_are_unique(x.topo, y.topo, faces, labels, p.refined_vertex_count());
    assert(x.effective_vertex_corners@ =~= y.effective_vertex_corners@);
}

proof fn lemma_ds_walk_same<S: Scalar>(
    a: Topology<S>,
    b: Topology<S>,
    v: u32,
    face: int,
    entry: EdgeKey,
    steps: nat,
)
    requires
        same_topology(a, b),
    ensures
        walk(a, v, face, entry, steps) == walk(b, v, face, entry, steps),
    decreases steps,
{
    if steps > 0 {
        if let Some(p) = corner_at_vertex(a.faces@[face], v) {
            let key = exit_key(a.faces@[face], v, p, entry);
            assert(across(a, key, face) == across(b, key, face));
            if let Some(next) = across(a, key, face) {
                lemma_ds_walk_same(a, b, v, next as int, key, (steps - 1) as nat);
            }
        }
    }
}

proof fn lemma_ds_ordered_same<S: Scalar>(a: Topology<S>, b: Topology<S>, v: u32, list: Seq<u32>)
    requires
        same_topology(a, b),
    ensures
        ordered_faces(a, v, list) == ordered_faces(b, v, list),
{
    if list.len() > 0 {
        let first = list[0] as int;
        let face = a.faces@[first];
        if let Some(p) = corner_at_vertex(face, v) {
            let entry = edge_key_of(v, face[prev_corner(p, face.len() as int)]);
            lemma_ds_walk_same(a, b, v, first, entry, (list.len() - 1) as nat);
        }
    }
}

proof fn lemma_ds_children_same<S: Scalar>(a: LevelData<S>, b: LevelData<S>)
    requires
        same_level(a, b),
    ensures
        ds_children(a) == ds_children(b),
        heir_rows(a.topo, a.effective_edge_creases@) == heir_rows(b.topo, b.effective_edge_creases@),
{
    let s = a.face_selected@;
    assert forall|e: int| 0 <= e < a.topo.edges().len() implies edge_children(a.topo, s, e) == edge_children(
        b.topo,
        s,
        e,
    ) by {
        assert(edge_corners(a.topo, e) == edge_corners(b.topo, e));
    }
    assert(edge_child_rows(a.topo, s) =~= edge_child_rows(b.topo, s));
    assert forall|v: int| 0 <= v < a.n() implies vertex_children(a.topo, s, v) == vertex_children(b.topo, s, v) by {
        lemma_ds_ordered_same(a.topo, b.topo, v as u32, a.topo.vertex_faces@[v]);
    }
    assert(vertex_child_rows(a.topo, s, a.n()) =~= vertex_child_rows(b.topo, s, b.n()));
    let c = a.effective_edge_creases@;
    assert forall|e: int| 0 <= e < a.topo.edges().len() implies crease_heirs(a.topo, c, e) == crease_heirs(
        b.topo,
        c,
        e,
    ) by {
        assert(edge_corners(a.topo, e) == edge_corners(b.topo, e));
    }
    assert(heir_rows(a.topo, c) =~= heir_rows(b.topo, c));
}

proof fn lemma_ds_corners_same<S: Scalar>(
    a: Topology<S>,
    b: Topology<S>,
    corners: Seq<S>,
    options: SchemeOptions,
    k: int,
)
    requires
        same_topology(a, b),
    ensures
        ds_corners(a, corners, options, k) == ds_corners(b, corners, options, k),
    decreases k,
{
    if k > 0 {
        lemma_ds_corners_same(a, b, corners, options, k - 1);
    }
}

proof fn lemma_ds_child_unique<S: Scalar>(
    options: SchemeOptions,
    boundary_crease: S,
    a: LevelData<S>,
    b: LevelData<S>,
    x: LevelData<S>,
    y: LevelData<S>,
)
    requires
        same_level(a, b),
        ds_refines(a, options, boundary_crease, x),
        ds_refines(b, options, boundary_crease, y),
    ensures
        same_level(x, y),
{
    lemma_ds_children_same(a, b);
    lemma_ds_corners_same(a.topo, b.topo, a.mesh.vertex_corners@, options, a.n() as int);
    let faces = child_faces(ds_children(a));
    let labels = key_labels(corner_keys(faces));
    let total = flat(a.topo.faces@).len();
    lemma_tables_unique(x.topo, y.topo, faces, labels, total);
    topologies_are_unique(x.topo, y.topo, faces, labels, total);
    assert(x.effective_vertex_corners@ =~= y.effective_vertex_corners@);
}

proof fn lemma_ds_rows_same<S: Scalar>(options: SchemeOptions, a: LevelData<S>, b: LevelData<S>)
    requires
        same_level(a, b),
    ensures
        ds_rows(a, options) == ds_rows(b, options),
{
    let x = ds_face_rows(a, options);
    let y = ds_face_rows(b, options);
    assert forall|f: int| 0 <= f < x.len() implies x[f] == y[f] by {
        assert forall|i: int| 0 <= i < x[f].len() implies x[f][i] == y[f][i] by {
            let v = a.topo.faces@[f][i];
            assert(sharp_data(a, options, v as int) == sharp_data(b, options, v as int));
            assert(ds_row(a, options, f, i) == ds_row(b, options, f, i));
        }
        assert(x[f] =~= y[f]);
    }
    assert(x =~= y);
}

/// Levels with the same contents have refinements with the same contents.
pub proof fn refinements_are_unique<S: Scalar>(
    scheme: Scheme,
    options: SchemeOptions,
    boundary_crease: S,
    a: LevelData<S>,
    b: LevelData<S>,
    x: LevelData<S>,
    y: LevelData<S>,
)
    requires
        same_level(a, b),
        refines(scheme, options, boundary_crease, a, x),
        refines(scheme, options, boundary_crease, b, y),
    ensures
        same_level(x, y),
{
    reveal(refines);
    match scheme {
        Scheme::CatmullClark => lemma_cc_child_unique(options, boundary_crease, a, b, x, y),
        Scheme::Loop => lemma_loop_child_unique(options, boundary_crease, a, b, x, y),
        Scheme::Sqrt3 => lemma_sqrt3_child_unique(options, boundary_crease, a, b, x, y),
        Scheme::DooSabin => lemma_ds_child_unique(options, boundary_crease, a, b, x, y),
    }
}

/// Levels with the same contents have the same stencils.
pub proof fn level_stencils_are_unique<S: Scalar>(
    scheme: Scheme,
    options: SchemeOptions,
    a: LevelData<S>,
    b: LevelData<S>,
)
    requires
        same_level(a, b),
    ensures
        level_rows(scheme, options, a) == level_rows(scheme, options, b),
{
    reveal(level_rows);
    match scheme {
        Scheme::CatmullClark => {
            assert forall|e: int| 0 <= e < a.topo.edges().len() implies cc_edge_row(a, options, e) == cc_edge_row(
                b,
                options,
                e,
            ) by {}
            assert(cc_edge_rows(a, options) =~= cc_edge_rows(b, options));
            assert forall|v: int| 0 <= v < a.n() implies cc_vertex_row(a, options, v) == cc_vertex_row(
                b,
                options,
                v,
            ) by {}
            assert(cc_vertex_rows(a, options) =~= cc_vertex_rows(b, options));
            assert(cc_rows(a, options) == cc_rows(b, options));
        },
        Scheme::Loop => {
            assert forall|e: int| 0 <= e < a.topo.edges().len() implies loop_edge_row(a, e) == loop_edge_row(
                b,
                e,
            ) by {}
            assert(loop_edge_rows(a) =~= loop_edge_rows(b));
            assert forall|v: int| 0 <= v < a.n() implies loop_vertex_row(a, v) == loop_vertex_row(b, v) by {}
            assert(loop_vertex_rows(a) =~= loop_vertex_rows(b));
            assert(loop_rows(a) == loop_rows(b));
        },
        Scheme::Sqrt3 => {
            assert forall|v: int| 0 <= v < a.n() implies sqrt3_vertex_row(a, options, v) == sqrt3_vertex_row(
                b,
                options,
                v,
            ) by {}
            assert(sqrt3_vertex_rows(a, options) =~= sqrt3_vertex_rows(b, options));
            assert(sqrt3_rows(a, options) == sqrt3_rows(b, options));
        },
        Scheme::DooSabin => {
            lemma_ds_rows_same(options, a, b);
        },
    }
}

/// One request on refiners of meshes with the same contents leads to one chain of
/// levels with one list of stencils.
pub proof fn requests_on_copies_have_one_answer<S: Scalar>(
    refiner: Refiner<S>,
    other: Refiner<S>,
    req: UniformRefine<S>,
    a: Refinement<S>,
    b: Refinement<S>,
    k: int,
)
    requires
        same_contents(refiner.mesh(), other.mesh()),
        refiner.scheme_of() == other.scheme_of(),
        refiner.options_of() == other.options_of(),
        refiner.refined_to(req, a),
        other.refined_to(req, b),
        0 <= k <= req.levels,
    ensures
        same_level(a.chain_of()[k], b.chain_of()[k]),
        level_rows(refiner.scheme_of(), refiner.options_of(), a.chain_of()[k]) == level_rows(
            refiner.scheme_of(),
            refiner.options_of(),
            b.chain_of()[k],
        ),
    decreases k,
{
    let scheme = refiner.scheme_of();
    let options = refiner.options_of();
    let crease = req.selection_boundary_crease;
    let x = a.chain_of();
    let y = b.chain_of();
    if k == 0 {
        lemma_base_unique(
            scheme,
            options,
            refiner.mesh(),
            other.mesh(),
            crate::refiner::active_of(req.selected_faces, refiner.mesh().face_vertex_counts@.len()),
            crease,
            x[0],
            y[0],
        );
    } else {
        requests_on_copies_have_one_answer(refiner, other, req, a, b, k - 1);
        assert(chain(scheme, options, crease, x));
        assert(chain(scheme, options, crease, y));
        assert(level_ok(scheme, x[k - 1]) && level_ok(scheme, y[k - 1]));
        assert(refines(scheme, options, crease, x[k - 1], x[k - 1 + 1]));
        assert(refines(scheme, options, crease, y[k - 1], y[k - 1 + 1]));
        refinements_are_unique(scheme, options, crease, x[k - 1], y[k - 1], x[k], y[k]);
    }
    level_stencils_are_unique(scheme, options, x[k], y[k]);
}

/// One request on one refiner leads to one chain of levels with one list of
/// stencils, however it is asked for.
pub proof fn requests_have_one_answer<S: Scalar>(
    refiner: Refiner<S>,
    req: UniformRefine<S>,
    a: Refinement<S>,
    b: Refinement<S>,
    k: int,
)
    requires
        refiner.refined_to(req, a),
        refiner.refined_to(req, b),
        0 <= k <= req.levels,
    ensures
        same_level(a.chain_of()[k], b.chain_of()[k]),
        level_rows(refiner.scheme_of(), refiner.options_of(), a.chain_of()[k]) == level_rows(
            refiner.scheme_of(),
            refiner.options_of(),
            b.chain_of()[k],
        ),
{
    requests_on_copies_have_one_answer(refiner, refiner, req, a, b, k);
}

/// The roots of faces depend on the contents of the levels only.
proof fn lemma_roots_same<S: Scalar>(x: Seq<LevelData<S>>, y: Seq<LevelData<S>>, k: int)
    requires
        forall|i: int| 0 <= i <= k ==> same_level(#[trigger] x[i], y[i]),
        0 <= k,
    ensures
        roots(x, k) == roots(y, k),
    decreases k,
{
    assert(same_level(x[0], y[0]));
    if k > 0 {
        lemma_roots_same(x, y, k - 1);
        assert(same_level(x[k], y[k]));
        assert(roots(x, k) =~= roots(y, k));
    }
}

/// A result and a refinement of the same request agree: on the mesh, on its
/// lineage, on the roots of its faces, and on the stencils of each step.
pub proof fn results_and_refinements_agree<S: Scalar>(
    refiner: Refiner<S>,
    req: UniformRefine<S>,
    a: Refinement<S>,
    b: Refinement<S>,
    result: RefinementResult<S>,
)
    requires
        refiner.refined_to(req, a),
        refiner.refined_to(req, b),
        result_of(b, result),
    ensures
        same_contents(result.topology, a.chain_of().last().mesh),
        same_lineage(result.lineage, a.chain_of().last().lineage),
        result.face_root@ == roots(a.chain_of(), req.levels as int),
        result.level_stencils@.len() == req.levels,
        forall|k: int|
            0 <= k < req.levels ==> written_from(
                #[trigger] result.level_stencils@[k],
                level_rows(refiner.scheme_of(), refiner.options_of(), a.chain_of()[k]),
            ),
{
    let x = a.chain_of();
    let y = b.chain_of();
    assert forall|i: int| 0 <= i <= req.levels implies same_level(#[trigger] x[i], y[i]) && level_rows(
        refiner.scheme_of(),
        refiner.options_of(),
        x[i],
    ) == level_rows(refiner.scheme_of(), refiner.options_of(), y[i]) by {
        requests_have_one_answer(refiner, req, a, b, i);
    }
    lemma_roots_same(x, y, req.levels as int);
    assert(same_level(x[req.levels as int], y[req.levels as int]));
}

} // verus!
