//! What is read off a mesh depends on its contents only.

use crate::base::base_fault;
use crate::catmull_clark::refine::cc_refines;
use crate::catmull_clark::topology::parent_of as cc_parent_of;
use crate::chains::{lemma_base_unique, requests_on_copies_have_one_answer, same_contents, same_level};
use crate::connectivity::pairs;
use crate::error::KernelError;
use crate::hashing::strictly_ascending;
use crate::inverse::{chain_values, table_rows};
use crate::isolation::{
    children_view, cut_fails, is_cutout, is_node, is_sharp_list, is_support, node_fails, node_ok, number_in,
    quadrants_of, quadrants_upto, refined_cutout, refined_fails, refines_cutout, sharp_in, single_step, sub_positions,
    support_corners, touches, Cutout, IsolationNode,
};
use crate::level::{adjacency_of, LevelData};
use crate::limit::{corner_sector_of, place_of, quads_refused, rule_of};
use crate::limit_eval::{snap_target_of, stays_feature};
use crate::options::{Scheme, SchemeOptions, UniformRefine};
use crate::output::RefinementResult;
use crate::patch::{grid_of, grids_of, patch_outcome, regular_quad, regular_vertex};
use crate::refiner::{active_of, chain, level_rows, refines, result_of, step_fault, Refinement, Refiner};
use crate::ring::{edges_at, faces_at, fan_complete, fan_step, fan_steps, quad_at, ring_of};
use crate::rows::ints;
use crate::scalar::{Scalar, Wide};
use crate::stencil::written_from;
use crate::topology::{Adjacency, Mesh};
use vstd::prelude::*;

verus! {

/// Two meshes, with their adjacency tables, that have the same contents.
pub open spec fn twins<S>(m: Mesh<S>, a: Adjacency, n: Mesh<S>, b: Adjacency) -> bool {
    &&& same_contents(m, n)
    &&& a.face_edges@ == b.face_edges@
    &&& a.vertex_edge_offsets@ == b.vertex_edge_offsets@
    &&& a.vertex_edges@ == b.vertex_edges@
    &&& a.vertex_face_offsets@ == b.vertex_face_offsets@
    &&& a.vertex_faces@ == b.vertex_faces@
    &&& a.edge_is_boundary@ == b.edge_is_boundary@
    &&& a.vertex_is_boundary@ == b.vertex_is_boundary@
}

// ---------------------------------------------------------------------------
// Limits
// ---------------------------------------------------------------------------
proof fn lemma_same_lists<S>(m: Mesh<S>, a: Adjacency, n: Mesh<S>, b: Adjacency, v: int)
    requires
        twins(m, a, n, b),
    ensures
        faces_at(a, v) == faces_at(b, v),
        edges_at(a, v) == edges_at(b, v),
        quad_at(m, v) == quad_at(n, v),
{
}

proof fn lemma_same_ring<S>(m: Mesh<S>, a: Adjacency, n: Mesh<S>, b: Adjacency, v: u32)
    requires
        twins(m, a, n, b),
    ensures
        ring_of(m, a, v) == ring_of(n, b, v),
{
    let list = faces_at(a, v as int);
    lemma_same_lists(m, a, n, b, v as int);
    assert forall|f: u32| #[trigger] fan_step(m, a, v, f) == fan_step(n, b, v, f) by {
        lemma_same_lists(m, a, n, b, f as int);
    }
    assert(fan_complete(m, a, v, list) == fan_complete(n, b, v, list)) by {
        assert forall|k: int| 0 <= k < list.len() implies fan_step(m, a, v, #[trigger] list[k]) == fan_step(
            n,
            b,
            v,
            list[k],
        ) by {}
    }
    assert(fan_steps(m, a, v, list) =~= fan_steps(n, b, v, list));
}

proof fn lemma_same_corner<S: Scalar, W: Wide<S>>(
    m: Mesh<S>,
    a: Adjacency,
    n: Mesh<S>,
    b: Adjacency,
    options: SchemeOptions,
    face: u32,
    corner: int,
)
    requires
        twins(m, a, n, b),
    ensures
        corner_sector_of::<S, W>(m, a, options, face, corner) == corner_sector_of::<S, W>(n, b, options, face, corner),
{
    let v = quad_at(m, face as int)[corner];
    lemma_same_lists(m, a, n, b, face as int);
    lemma_same_ring(m, a, n, b, v);
    if let Ok(ring) = ring_of(m, a, v) {
        assert(rule_of(m, a, options, v, ring) == rule_of(n, b, options, v, ring));
    }
}

proof fn lemma_same_grid<S: Scalar>(m: Mesh<S>, a: Adjacency, n: Mesh<S>, b: Adjacency, f: int, k: int)
    requires
        twins(m, a, n, b),
    ensures
        grid_of(m, a, f, k) == grid_of(n, b, f, k),
    decreases k,
{
    lemma_same_lists(m, a, n, b, f);
    if k > 0 {
        lemma_same_grid(m, a, n, b, f, k - 1);
        lemma_same_ring(m, a, n, b, quad_at(m, f)[k - 1]);
    }
}

proof fn lemma_same_regular_vertex<S: Scalar>(m: Mesh<S>, a: Adjacency, n: Mesh<S>, b: Adjacency, v: int)
    requires
        twins(m, a, n, b),
        regular_vertex(m, a, v),
    ensures
        regular_vertex(n, b, v),
{
    lemma_same_lists(m, a, n, b, v);
    let list = edges_at(b, v);
    assert forall|k: int| 0 <= k < list.len() implies S::at_most_of(
        n.edge_creases@[#[trigger] list[k] as int],
        crate::scalar::zero_of(),
    ) && !b.edge_is_boundary@[list[k] as int] by {
        assert(edges_at(a, v)[k] == list[k]);
    }
}

proof fn lemma_same_regular<S: Scalar>(m: Mesh<S>, a: Adjacency, n: Mesh<S>, b: Adjacency, f: int)
    requires
        twins(m, a, n, b),
        regular_quad(m, a, f),
    ensures
        regular_quad(n, b, f),
{
    lemma_same_lists(m, a, n, b, f);
    assert forall|k: int| 0 <= k < 4 implies regular_vertex(n, b, #[trigger] quad_at(n, f)[k] as int) by {
        assert(regular_vertex(m, a, quad_at(m, f)[k] as int));
        lemma_same_regular_vertex(m, a, n, b, quad_at(m, f)[k] as int);
    }
}

proof fn lemma_same_feature<S: Scalar>(
    m: Mesh<S>,
    a: Adjacency,
    n: Mesh<S>,
    b: Adjacency,
    options: SchemeOptions,
    v: int,
)
    requires
        twins(m, a, n, b),
        stays_feature(m, a, options, v),
    ensures
        stays_feature(n, b, options, v),
{
    lemma_same_lists(m, a, n, b, v);
}

/// Everything that a limit is read off is the same for two meshes with the same
/// contents.
pub proof fn copies_have_the_same_limits<S: Scalar, W: Wide<S>>(
    m: Mesh<S>,
    a: Adjacency,
    n: Mesh<S>,
    b: Adjacency,
    options: SchemeOptions,
    face: u32,
    uv: (W, W),
    corner: int,
)
    requires
        twins(m, a, n, b),
    ensures
        regular_quad(m, a, face as int) == regular_quad(n, b, face as int),
        grid_of(m, a, face as int, 4) == grid_of(n, b, face as int, 4),
        snap_target_of(m, a, options, face, uv) == snap_target_of(n, b, options, face, uv),
        corner_sector_of::<S, W>(m, a, options, face, corner) == corner_sector_of::<S, W>(n, b, options, face, corner),
{
    let f = face as int;
    if regular_quad(m, a, f) {
        lemma_same_regular(m, a, n, b, f);
    }
    if regular_quad(n, b, f) {
        lemma_same_regular(n, b, m, a, f);
    }
    lemma_same_grid(m, a, n, b, f, 4);
    lemma_same_corner::<S, W>(m, a, n, b, options, face, corner);
    lemma_same_lists(m, a, n, b, f);
    if let Some(c) = crate::limit_eval::exact_corner_of(uv) {
        let v = quad_at(m, f)[c] as int;
        if stays_feature(m, a, options, v) {
            lemma_same_feature(m, a, n, b, options, v);
        }
        if stays_feature(n, b, options, v) {
            lemma_same_feature(n, b, m, a, options, v);
        }
    }
}

// ---------------------------------------------------------------------------
// Cutouts
// ---------------------------------------------------------------------------
/// An ascending list is determined by its items.
proof fn lemma_ascending_unique(a: Seq<u32>, b: Seq<u32>)
    requires
        strictly_ascending(a),
        strictly_ascending(b),
        forall|x: u32| #[trigger] a.contains(x) <==> b.contains(x),
    ensures
        a == b,
    decreases a.len(),
{
    if a.len() == 0 {
        if b.len() > 0 {
            assert(b.contains(b[0]));
            assert(a.contains(b[0]));
        }
        assert(a =~= b);
    } else {
        let x = a.last();
        assert(a.contains(x));
        let i = b.index_of(x);
        let y = b.last();
        assert(b.contains(y));
        assert(a.contains(y));
        let j = a.index_of(y);
        assert(x == y);
        let p = a.drop_last();
        let q = b.drop_last();
        assert forall|z: u32| #[trigger] p.contains(z) <==> q.contains(z) by {
            if p.contains(z) {
                let k = p.index_of(z);
                assert(a[k] == z && a[k] < a[a.len() - 1]);
                assert(a.contains(z));
                let l = b.index_of(z);
                assert(q[l] == z);
            }
            if q.contains(z) {
                let k = q.index_of(z);
                assert(b[k] == z && b[k] < b[b.len() - 1]);
                assert(b.contains(z));
                assert(a.contains(z));
                let l = a.index_of(z);
                assert(p[l] == z);
            }
        }
        lemma_ascending_unique(p, q);
        assert(a =~= p.push(x));
        assert(b =~= q.push(y));
    }
}

proof fn lemma_same_touch<S>(m: Mesh<S>, a: Adjacency, n: Mesh<S>, b: Adjacency, face: int, f: u32)
    requires
        twins(m, a, n, b),
        touches(m, a, face, f),
    ensures
        touches(n, b, face, f),
{
    lemma_same_lists(m, a, n, b, face);
    let c = choose|c: int| 0 <= c < 4 && (#[trigger] faces_at(a, quad_at(m, face)[c] as int)).contains(f);
    lemma_same_lists(m, a, n, b, quad_at(m, face)[c] as int);
    assert(faces_at(b, quad_at(n, face)[c] as int).contains(f));
}

pub(crate) proof fn lemma_same_support<S>(
    m: Mesh<S>,
    a: Adjacency,
    n: Mesh<S>,
    b: Adjacency,
    face: int,
    x: Seq<u32>,
    y: Seq<u32>,
)
    requires
        twins(m, a, n, b),
        is_support(m, a, face, x),
        is_support(n, b, face, y),
    ensures
        x == y,
{
    assert forall|f: u32| #[trigger] x.contains(f) <==> y.contains(f) by {
        if x.contains(f) {
            lemma_same_touch(m, a, n, b, face, f);
        }
        if y.contains(f) {
            lemma_same_touch(n, b, m, a, face, f);
        }
    }
    lemma_ascending_unique(x, y);
}

proof fn lemma_same_sharp<S: Scalar>(
    m: Mesh<S>,
    a: Adjacency,
    n: Mesh<S>,
    b: Adjacency,
    support: Seq<u32>,
    x: Seq<u32>,
    y: Seq<u32>,
)
    requires
        twins(m, a, n, b),
        is_sharp_list(m, a, support, x),
        is_sharp_list(n, b, support, y),
    ensures
        x == y,
{
    assert forall|e: u32| #[trigger] x.contains(e) <==> y.contains(e) by {
        assert(sharp_in(m, a, support, e) == sharp_in(n, b, support, e));
    }
    lemma_ascending_unique(x, y);
}

/// The cutout of a quad is determined by the contents of the mesh.
pub proof fn cutouts_are_unique<S: Scalar>(
    m: Mesh<S>,
    a: Adjacency,
    n: Mesh<S>,
    b: Adjacency,
    face: int,
    x: Cutout<S>,
    y: Cutout<S>,
)
    requires
        twins(m, a, n, b),
        is_cutout(m, a, face, x),
        is_cutout(n, b, face, y),
    ensures
        x.support@ == y.support@,
        x.sharp@ == y.sharp@,
        x.vertices@ == y.vertices@,
        same_contents(x.mesh, y.mesh),
{
    lemma_same_support(m, a, n, b, face, x.support@, y.support@);
    let support = x.support@;
    lemma_same_sharp(m, a, n, b, support, x.sharp@, y.sharp@);
    let p = support.map_values(|f: u32| quad_at(m, f as int));
    let q = support.map_values(|f: u32| quad_at(n, f as int));
    assert(p =~= q);
    assert(support_corners(m, support) == support_corners(n, support));
    assert(pairs(x.mesh.edge_vertices@) =~= pairs(y.mesh.edge_vertices@));
    assert(x.mesh.edge_creases@ =~= y.mesh.edge_creases@);
    assert(x.mesh.vertex_corners@ =~= y.mesh.vertex_corners@);
}

// ---------------------------------------------------------------------------
// Nodes
// ---------------------------------------------------------------------------
proof fn lemma_same_ints(a: Seq<u32>, b: Seq<u32>)
    requires
        ints(a) == ints(b),
    ensures
        a == b,
{
    assert(ints(a).len() == a.len() && ints(b).len() == b.len());
    assert forall|i: int| 0 <= i < a.len() implies a[i] == b[i] by {
        assert(ints(a)[i] == a[i] as int && ints(b)[i] == b[i] as int);
    }
    assert(a =~= b);
}

/// Two refined cutouts with the same contents.
pub open spec fn same_refined<S: Scalar>(x: RefinementResult<S>, y: RefinementResult<S>) -> bool {
    &&& twins(x.topology, x.adjacency, y.topology, y.adjacency)
    &&& x.lineage.vertex_origin@ == y.lineage.vertex_origin@
    &&& x.lineage.face_parent@ == y.lineage.face_parent@
    &&& x.scheme == y.scheme
    &&& x.selected_faces is None
    &&& y.selected_faces is None
    &&& x.level_stencils@.len() == 1
    &&& y.level_stencils@.len() == 1
    &&& x.level_stencils@[0].indices@ == y.level_stencils@[0].indices@
    &&& x.level_stencils@[0].indices@.len() <= u32::MAX ==> x.level_stencils@[0]@ == y.level_stencils@[0]@
}

proof fn lemma_same_adjacency<S: Scalar>(x: LevelData<S>, y: LevelData<S>)
    requires
        same_level(x, y),
        adjacency_of(x.adjacency, x.topo),
        adjacency_of(y.adjacency, y.topo),
    ensures
        twins(x.mesh, x.adjacency, y.mesh, y.adjacency),
{
    lemma_same_ints(x.adjacency.vertex_edge_offsets@, y.adjacency.vertex_edge_offsets@);
    lemma_same_ints(x.adjacency.vertex_face_offsets@, y.adjacency.vertex_face_offsets@);
}

proof fn lemma_last_adjacency<S: Scalar>(refiner: Refiner<S>, req: UniformRefine<S>, r: Refinement<S>)
    requires
        refiner.scheme_of() == Scheme::CatmullClark,
        refiner.refined_to(req, r),
        req.levels == 1,
    ensures
        adjacency_of(r.chain_of()[1].adjacency, r.chain_of()[1].topo),
{
    let levels = r.chain_of();
    let options = refiner.options_of();
    let crease = req.selection_boundary_crease;
    assert(chain(Scheme::CatmullClark, options, crease, levels));
    assert(refines(Scheme::CatmullClark, options, crease, levels[0], levels[0int + 1]));
    reveal(refines);
    assert(cc_refines(levels[0], options, crease, levels[1]));
}

/// The refinement of a cutout is determined by the contents of the cutout.
pub proof fn refined_cutouts_are_unique<S: Scalar>(
    a: Cutout<S>,
    b: Cutout<S>,
    options: SchemeOptions,
    x: RefinementResult<S>,
    y: RefinementResult<S>,
)
    requires
        same_contents(a.mesh, b.mesh),
        refined_cutout(a, options, x),
        refined_cutout(b, options, y),
    ensures
        same_refined(x, y),
{
    let (r1, q1, f1) = choose|refiner: Refiner<S>, req: UniformRefine<S>, refinement: Refinement<S>|
        refines_cutout(refiner, a, options) && single_step(req) && #[trigger] refiner.refined_to(req, refinement)
            && result_of(refinement, x);
    let (r2, q2, f2) = choose|refiner: Refiner<S>, req: UniformRefine<S>, refinement: Refinement<S>|
        refines_cutout(refiner, b, options) && single_step(req) && #[trigger] refiner.refined_to(req, refinement)
            && result_of(refinement, y);
    assert(q1 == q2);
    requests_on_copies_have_one_answer(r1, r2, q1, f1, f2, 0);
    requests_on_copies_have_one_answer(r1, r2, q1, f1, f2, 1);
    let l1 = f1.chain_of();
    let l2 = f2.chain_of();
    lemma_last_adjacency(r1, q1, f1);
    lemma_last_adjacency(r2, q1, f2);
    lemma_same_adjacency(l1[1], l2[1]);
    assert(l1.last() == l1[1] && l2.last() == l2[1]);
    let rows = level_rows(Scheme::CatmullClark, options, l1[0]);
    assert(written_from(x.level_stencils@[0], rows));
    assert(written_from(y.level_stencils@[0], rows));
}

proof fn lemma_same_quadrants<S: Scalar>(
    x: RefinementResult<S>,
    y: RefinementResult<S>,
    central: u32,
    corners: Seq<u32>,
    m: int,
)
    requires
        same_refined(x, y),
    ensures
        quadrants_upto(x, central, corners, m) == quadrants_upto(y, central, corners, m),
    decreases m,
{
    if m > 0 {
        lemma_same_quadrants(x, y, central, corners, m - 1);
        lemma_same_lists(x.topology, x.adjacency, y.topology, y.adjacency, m - 1);
    }
}

/// Two nodes with the same contents.
pub open spec fn same_node<S: Scalar>(x: IsolationNode<S>, y: IsolationNode<S>) -> bool {
    &&& twins(x.refined.topology, x.refined.adjacency, y.refined.topology, y.refined.adjacency)
    &&& x.positions@ == y.positions@
    &&& x.sub_vertices@ == y.sub_vertices@
    &&& x.refined.level_stencils@[0]@ == y.refined.level_stencils@[0]@
    &&& forall|k: int|
        0 <= k < 4 ==> (#[trigger] x.children@[k]).face == y.children@[k].face && x.children@[k].turn
            == y.children@[k].turn
}

proof fn lemma_same_children<S: Scalar>(x: IsolationNode<S>, y: IsolationNode<S>)
    requires
        x.children@.len() == 4,
        y.children@.len() == 4,
        children_view(x.children@) == children_view(y.children@),
    ensures
        forall|k: int|
            0 <= k < 4 ==> (#[trigger] x.children@[k]).face == y.children@[k].face && x.children@[k].turn
                == y.children@[k].turn,
{
    assert forall|k: int| 0 <= k < 4 implies (#[trigger] x.children@[k]).face == y.children@[k].face
        && x.children@[k].turn == y.children@[k].turn by {
        assert(children_view(x.children@)[k] == children_view(y.children@)[k]);
    }
}

/// The node of a quad is determined by the contents of the mesh.
pub proof fn nodes_are_unique<S: Scalar>(
    m: Mesh<S>,
    a: Adjacency,
    n: Mesh<S>,
    b: Adjacency,
    options: SchemeOptions,
    positions: Seq<[S; 3]>,
    face: u32,
    x: IsolationNode<S>,
    y: IsolationNode<S>,
)
    requires
        twins(m, a, n, b),
        is_node(m, a, options, positions, face, x),
        is_node(n, b, options, positions, face, y),
    ensures
        same_node(x, y),
{
    reveal(is_node);
    let c1 = choose|cut: Cutout<S>| #[trigger]
        is_cutout(m, a, face as int, cut) && place_of(cut.support@, face) is Some && refined_cutout(
            cut,
            options,
            x.refined,
        ) && x.sub_vertices@ == cut.vertices@ && x.positions@ == chain_values::<S, [S; 3]>(
            table_rows(x.refined.level_stencils@),
            sub_positions(positions, cut.vertices@),
        ) && patch_outcome(x.refined, Ok(x.table)) && quadrants_of(
            x.refined,
            place_of(cut.support@, face)->Some_0 as u32,
            quad_at(m, face as int).map_values(|v: u32| number_in(cut.vertices@, v)),
        ) == Ok::<_, &'static str>(children_view(x.children@)) && x.refined.level_stencils@[0].indices@.len()
            <= u32::MAX && node_ok(x, m.vertex_count as int);
    let c2 = choose|cut: Cutout<S>| #[trigger]
        is_cutout(n, b, face as int, cut) && place_of(cut.support@, face) is Some && refined_cutout(
            cut,
            options,
            y.refined,
        ) && y.sub_vertices@ == cut.vertices@ && y.positions@ == chain_values::<S, [S; 3]>(
            table_rows(y.refined.level_stencils@),
            sub_positions(positions, cut.vertices@),
        ) && patch_outcome(y.refined, Ok(y.table)) && quadrants_of(
            y.refined,
            place_of(cut.support@, face)->Some_0 as u32,
            quad_at(n, face as int).map_values(|v: u32| number_in(cut.vertices@, v)),
        ) == Ok::<_, &'static str>(children_view(y.children@)) && y.refined.level_stencils@[0].indices@.len()
            <= u32::MAX && node_ok(y, n.vertex_count as int);
    cutouts_are_unique(m, a, n, b, face as int, c1, c2);
    refined_cutouts_are_unique(c1, c2, options, x.refined, y.refined);
    lemma_same_lists(m, a, n, b, face as int);
    let central = place_of(c1.support@, face)->Some_0 as u32;
    let corners = quad_at(m, face as int).map_values(|v: u32| number_in(c1.vertices@, v));
    assert(corners =~= quad_at(n, face as int).map_values(|v: u32| number_in(c2.vertices@, v)));
    lemma_same_quadrants(
        x.refined,
        y.refined,
        central,
        corners,
        x.refined.lineage.face_parent@.len() as int,
    );
    assert(table_rows(x.refined.level_stencils@) =~= table_rows(y.refined.level_stencils@));
    assert(x.children@.len() == 4 && y.children@.len() == 4) by {
        reveal(node_ok);
    }
    lemma_same_children(x, y);
}

// ---------------------------------------------------------------------------
// Faults
// ---------------------------------------------------------------------------
proof fn lemma_same_rules<S>(m: Mesh<S>, n: Mesh<S>)
    requires
        same_contents(m, n),
        m.broken_rule() is None,
    ensures
        n.broken_rule() is None,
{
    assert(pairs(m.edge_vertices@).len() == m.edge_vertices@.len());
    assert(pairs(n.edge_vertices@).len() == n.edge_vertices@.len());
    if exists|e: int|
        0 <= e < n.edge_vertices@.len() && ((#[trigger] pairs(n.edge_vertices@)[e]).0 >= n.vertex_count || pairs(
            n.edge_vertices@,
        )[e].1 >= n.vertex_count) {
        let e = choose|e: int|
            0 <= e < n.edge_vertices@.len() && ((#[trigger] pairs(n.edge_vertices@)[e]).0 >= n.vertex_count || pairs(
                n.edge_vertices@,
            )[e].1 >= n.vertex_count);
        assert(pairs(m.edge_vertices@)[e].0 >= m.vertex_count || pairs(m.edge_vertices@)[e].1 >= m.vertex_count);
    }
}

proof fn lemma_same_grids<S: Scalar>(m: Mesh<S>, a: Adjacency, n: Mesh<S>, b: Adjacency, k: int)
    requires
        twins(m, a, n, b),
    ensures
        grids_of(m, a, k) == grids_of(n, b, k),
    decreases k,
{
    if k > 0 {
        lemma_same_grids(m, a, n, b, k - 1);
        lemma_same_grid(m, a, n, b, k - 1, 4);
        if regular_quad(m, a, k - 1) {
            lemma_same_regular(m, a, n, b, k - 1);
        }
        if regular_quad(n, b, k - 1) {
            lemma_same_regular(n, b, m, a, k - 1);
        }
    }
}

/// A refinement that succeeds does not fail on a copy of the mesh.
proof fn lemma_no_failure<S: Scalar>(
    refiner: Refiner<S>,
    other: Refiner<S>,
    req: UniformRefine<S>,
    refinement: Refinement<S>,
    error: KernelError,
)
    requires
        same_contents(refiner.mesh(), other.mesh()),
        refiner.scheme_of() == Scheme::CatmullClark,
        other.scheme_of() == Scheme::CatmullClark,
        refiner.options_of() == other.options_of(),
        single_step(req),
        refiner.refined_to(req, refinement),
    ensures
        !other.fails(req, error),
{
    if other.fails(req, error) {
        let options = refiner.options_of();
        let crease = req.selection_boundary_crease;
        let selected = active_of(req.selected_faces, refiner.mesh().face_vertex_counts@.len());
        assert(base_fault(Scheme::CatmullClark, refiner.mesh(), selected) == base_fault(
            Scheme::CatmullClark,
            other.mesh(),
            selected,
        ));
        let levels = choose|levels: Seq<LevelData<S>>| #[trigger]
            other.begins(req, levels) && levels.len() <= req.levels && (match step_fault(
                Scheme::CatmullClark,
                levels.last(),
            ) {
                Some(text) => error == KernelError::InvalidTopology(text),
                None => false,
            });
        let whole = refinement.chain_of();
        lemma_base_unique(
            Scheme::CatmullClark,
            options,
            refiner.mesh(),
            other.mesh(),
            selected,
            crease,
            whole[0],
            levels[0],
        );
        assert(chain(Scheme::CatmullClark, options, crease, whole));
        assert(step_fault(Scheme::CatmullClark, whole[0]) is None);
        assert(levels.last() == levels[0]);
        assert(cc_parent_of(whole[0].topo, whole[0].n()) == cc_parent_of(levels[0].topo, levels[0].n()));
        assert(step_fault(Scheme::CatmullClark, levels[0]) is None) by {
            reveal(step_fault);
        }
    }
}

/// A quad that has a node does not fail, on a copy of the mesh either.
pub proof fn nodes_do_not_fail<S: Scalar>(
    m: Mesh<S>,
    a: Adjacency,
    n: Mesh<S>,
    b: Adjacency,
    options: SchemeOptions,
    positions: Seq<[S; 3]>,
    face: u32,
    x: IsolationNode<S>,
    error: KernelError,
)
    requires
        twins(m, a, n, b),
        is_node(m, a, options, positions, face, x),
    ensures
        !node_fails(n, b, options, face, error),
{
    if node_fails(n, b, options, face, error) {
        reveal(is_node);
        reveal(node_fails);
        let c1 = choose|cut: Cutout<S>| #[trigger]
            is_cutout(m, a, face as int, cut) && place_of(cut.support@, face) is Some && refined_cutout(
                cut,
                options,
                x.refined,
            ) && x.sub_vertices@ == cut.vertices@ && patch_outcome(x.refined, Ok(x.table))
                && quadrants_of(
                x.refined,
                place_of(cut.support@, face)->Some_0 as u32,
                quad_at(m, face as int).map_values(|v: u32| number_in(cut.vertices@, v)),
            ) == Ok::<_, &'static str>(children_view(x.children@)) && x.refined.level_stencils@[0].indices@.len()
                <= u32::MAX;
        let c2 = choose|cut: Cutout<S>| #[trigger]
            is_cutout(n, b, face as int, cut) && cut_fails(n, options, face, cut, error);
        cutouts_are_unique(m, a, n, b, face as int, c1, c2);
        let (r1, q1, f1) = choose|refiner: Refiner<S>, req: UniformRefine<S>, refinement: Refinement<S>|
            refines_cutout(refiner, c1, options) && single_step(req) && #[trigger] refiner.refined_to(req, refinement)
                && result_of(refinement, x.refined);
        lemma_same_rules(c1.mesh, c2.mesh);
        lemma_same_lists(m, a, n, b, face as int);
        let central = place_of(c1.support@, face)->Some_0 as u32;
        let corners = quad_at(m, face as int).map_values(|v: u32| number_in(c1.vertices@, v));
        assert(corners =~= quad_at(n, face as int).map_values(|v: u32| number_in(c2.vertices@, v)));
        if exists|refiner: Refiner<S>, req: UniformRefine<S>| #[trigger]
            refines_cutout(refiner, c2, options) && single_step(req) && #[trigger] refiner.fails(req, error) {
            let (r2, q2) = choose|refiner: Refiner<S>, req: UniformRefine<S>| #[trigger]
                refines_cutout(refiner, c2, options) && single_step(req) && #[trigger] refiner.fails(req, error);
            assert(q1 == q2);
            lemma_no_failure(r1, r2, q1, f1, error);
        } else {
            let y = choose|refined: RefinementResult<S>| #[trigger]
                refined_cutout(c2, options, refined) && refined_fails(n, face, c2, refined, error);
            refined_cutouts_are_unique(c1, c2, options, x.refined, y);
            lemma_same_grids(
                x.refined.topology,
                x.refined.adjacency,
                y.topology,
                y.adjacency,
                x.refined.topology.face_vertex_counts@.len() as int,
            );
            lemma_same_quadrants(
                x.refined,
                y,
                central,
                corners,
                x.refined.lineage.face_parent@.len() as int,
            );
            assert(quads_refused(y) is None);
            assert(false);
        }
    }
}

} // verus!
