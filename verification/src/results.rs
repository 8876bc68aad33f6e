//! What the results of a refinement are good for.

use crate::base::{is_base, level_ok};
use crate::catmull_clark::refine::{cc_child_rows, cc_face_parents, cc_refines};
use crate::catmull_clark::topology::parent_of;
use crate::connectivity::{edge_key_of, face_keys, lemma_flat_at, next_corner, owner_rows, pairs};
use crate::hashing::EdgeKey;
use crate::inverse::{chain_width, table_rows};
use crate::level::{all_true, LevelData};
use crate::limit::{limit_ready, quads_refused};
use crate::options::{Scheme, SchemeOptions, UniformRefine};
use crate::output::{tables_fit, RefinementResult};
use crate::quads::{copies_have_limits, refined_quads_have_limits};
use crate::refiner::{
    active_of, chain, level_rows, level_rows_fit, refines, result_of, step_fault, Refinement, Refiner,
};
use crate::ring::quad_at;
use crate::rows::{flat, row_start};
use crate::scalar::Scalar;
use crate::stencil::{written_from, StencilTable};
use crate::topology::{all_below, Adjacency, Mesh};
use vstd::prelude::*;

verus! {

/// The edges of a quad join its corners, and the faces of an edge are faces of
/// the mesh.
#[verifier::opaque]
pub open spec fn quads_linked<S>(mesh: Mesh<S>, adj: Adjacency) -> bool {
    &&& corners_joined(mesh, adj)
    &&& adj.edge_faces@.len() == mesh.edge_vertices@.len()
    &&& edge_faces_below(adj, mesh.face_vertex_counts@.len() as int)
}

pub open spec fn corners_joined<S>(mesh: Mesh<S>, adj: Adjacency) -> bool {
    forall|f: int, k: int|
        #![trigger adj.face_edges@[4 * f + k]]
        0 <= f < mesh.face_vertex_counts@.len() && 0 <= k < 4 ==> pairs(mesh.edge_vertices@)[adj.face_edges@[4 * f
            + k] as int] == edge_key_of(quad_at(mesh, f)[k], quad_at(mesh, f)[next_corner(k, 4)])
}

pub open spec fn edge_faces_below(adj: Adjacency, nf: int) -> bool {
    forall|e: int|
        0 <= e < adj.edge_faces@.len() ==> ({
            let (a, b) = #[trigger] pairs(adj.edge_faces@)[e];
            (a == u32::MAX || a < nf) && (b == u32::MAX || b < nf)
        })
}

/// In a mesh of quads every edge joins the corners it lies between.
#[verifier::rlimit(60)]
proof fn lemma_quads_linked<S: Scalar>(level: LevelData<S>)
    requires
        level.wf(),
        crate::level::adjacency_of(level.adjacency, level.topo),
        pairs(level.mesh.edge_vertices@) == level.topo.edges(),
        forall|f: int| 0 <= f < level.topo.faces@.len() ==> (#[trigger] level.topo.faces@[f]).len() == 4,
    ensures
        quads_linked(level.mesh, level.adjacency),
{
    let t = level.topo;
    let faces = t.faces@;
    let mesh = level.mesh;
    let adj = level.adjacency;
    assert forall|f: int| 0 <= f < faces.len() implies (#[trigger] t.face_edges@[f]).len() == 4 by {
        assert(faces[f].len() == 4);
    }
    assert forall|f: int, k: int| 0 <= f < faces.len() && 0 <= k < 4 implies t.edges()[#[trigger] t.face_edges@[f][k] as int]
        == face_keys(faces[f])[k] by {
        assert(faces[f].len() == 4);
    }
    lemma_flat_quads_linked(faces, t.face_edges@, t.edges());
    crate::slots::lemma_uniform_start(faces, 4, faces.len() as int);
    assert(faces.take(faces.len() as int) =~= faces);
    lemma_linked_from_flat(mesh, adj, faces, t.face_edges@, t.edges());
    assert(edge_faces_below(adj, faces.len() as int)) by {
        assert forall|e: int| 0 <= e < adj.edge_faces@.len() implies ({
            let (a, b) = #[trigger] pairs(adj.edge_faces@)[e];
            (a == u32::MAX || a < faces.len()) && (b == u32::MAX || b < faces.len())
        }) by {
            assert(pairs(adj.edge_faces@).len() == t.edge_faces@.len());
            assert(t.edge_faces@[e].len() > 0 && all_below(t.edge_faces@[e], faces.len() as int));
            if t.edge_faces@[e].len() > 1 {
                assert(t.edge_faces@[e][1] < faces.len());
            }
            assert(t.edge_faces@[e][0] < faces.len());
        }
    }
    assert(pairs(adj.edge_faces@).len() == t.edge_faces@.len());
    assert(pairs(mesh.edge_vertices@).len() == mesh.edge_vertices@.len());
    reveal(quads_linked);
}

/// The flat edge list of quads, against their flat corner list.
spec fn flat_linked(verts: Seq<u32>, ids: Seq<u32>, edges: Seq<EdgeKey>, count: int) -> bool {
    forall|f: int, k: int|
        #![trigger ids[4 * f + k]]
        0 <= f < count && 0 <= k < 4 ==> edges[ids[4 * f + k] as int] == edge_key_of(
            verts[4 * f + k],
            verts[4 * f + next_corner(k, 4)],
        )
}

proof fn lemma_flat_quads_linked(faces: Seq<Seq<u32>>, face_edges: Seq<Seq<u32>>, edges: Seq<EdgeKey>)
    requires
        faces.len() == face_edges.len(),
        forall|f: int| 0 <= f < faces.len() ==> (#[trigger] faces[f]).len() == 4,
        forall|f: int| 0 <= f < faces.len() ==> (#[trigger] face_edges[f]).len() == 4,
        forall|f: int, k: int|
            0 <= f < faces.len() && 0 <= k < 4 ==> edges[#[trigger] face_edges[f][k] as int] == face_keys(faces[f])[k],
    ensures
        flat_linked(flat(faces), flat(face_edges), edges, faces.len() as int),
{
    let ids = flat(face_edges);
    let verts = flat(faces);
    assert forall|f: int, k: int| #![trigger ids[4 * f + k]] 0 <= f < faces.len() && 0 <= k < 4 implies edges[ids[4
        * f + k] as int] == edge_key_of(verts[4 * f + k], verts[4 * f + next_corner(k, 4)]) by {
        assert(faces[f].len() == 4 && face_edges[f].len() == 4);
        crate::slots::lemma_uniform_start(faces, 4, f);
        crate::slots::lemma_uniform_start(face_edges, 4, f);
        lemma_flat_at(face_edges, f, k);
        lemma_flat_at(faces, f, k);
        lemma_flat_at(faces, f, next_corner(k, 4));
        assert(edges[face_edges[f][k] as int] == face_keys(faces[f])[k]);
    }
}

proof fn lemma_linked_from_flat<S>(
    mesh: Mesh<S>,
    adj: Adjacency,
    faces: Seq<Seq<u32>>,
    face_edges: Seq<Seq<u32>>,
    edges: Seq<EdgeKey>,
)
    requires
        flat_linked(flat(faces), flat(face_edges), edges, faces.len() as int),
        mesh.face_vertex_counts@.len() == faces.len(),
        mesh.face_vertex_indices@ == flat(faces),
        flat(faces).len() == 4 * faces.len(),
        adj.face_edges@ == flat(face_edges),
        pairs(mesh.edge_vertices@) == edges,
    ensures
        corners_joined(mesh, adj),
{
    assert forall|f: int, k: int|
        #![trigger adj.face_edges@[4 * f + k]]
        0 <= f < mesh.face_vertex_counts@.len() && 0 <= k < 4 implies pairs(mesh.edge_vertices@)[adj.face_edges@[4
        * f + k] as int] == edge_key_of(quad_at(mesh, f)[k], quad_at(mesh, f)[next_corner(k, 4)]) by {
        assert(quad_at(mesh, f)[k] == flat(faces)[4 * f + k]);
        assert(quad_at(mesh, f)[next_corner(k, 4)] == flat(faces)[4 * f + next_corner(k, 4)]);
    }
}

/// Every level of a full Catmull-Clark refinement is selected in full, and from
/// the second on it has limits.
proof fn lemma_chain_has_limits<S: Scalar>(
    options: SchemeOptions,
    boundary_crease: S,
    levels: Seq<LevelData<S>>,
    k: int,
)
    requires
        chain(Scheme::CatmullClark, options, boundary_crease, levels),
        0 <= k < levels.len(),
        all_true(levels[0].face_selected@),
    ensures
        all_true(levels[k].face_selected@),
        k > 0 ==> limit_ready(levels[k].mesh, levels[k].adjacency) && quads_linked(
            levels[k].mesh,
            levels[k].adjacency,
        ) && forall|f: int|
            0 <= f < levels[k].mesh.face_vertex_counts@.len() ==> (
            #[trigger] levels[k].mesh.face_vertex_counts@[f]) == 4,
    decreases k,
{
    if k > 0 {
        lemma_chain_has_limits(options, boundary_crease, levels, k - 1);
        let parent = levels[k - 1];
        let child = levels[k];
        assert(level_ok(Scheme::CatmullClark, levels[k - 1]));
        assert(step_fault(Scheme::CatmullClark, levels[k - 1]) is None);
        assert(refines(Scheme::CatmullClark, options, boundary_crease, levels[k - 1], levels[k - 1 + 1]));
        reveal(level_ok);
        reveal(step_fault);
        reveal(refines);
        refined_quads_have_limits(options, boundary_crease, parent, child);
        assert forall|f: int| 0 <= f < child.topo.faces@.len() implies (#[trigger] child.topo.faces@[f]).len() == 4 by {
            assert(child.mesh.face_vertex_counts@[f] == 4);
            assert(child.topo.faces@[f].len() >= 3);
            crate::csr::lemma_row_within_flat(child.topo.faces@, f);
        }
        lemma_quads_linked(child);
    }
}

/// The lineage of a result names every face and vertex of its mesh.
proof fn lemma_lineage_lens<S: Scalar>(
    refiner: Refiner<S>,
    req: UniformRefine<S>,
    refinement: Refinement<S>,
    result: RefinementResult<S>,
)
    requires
        refiner.scheme_of() == Scheme::CatmullClark,
        refiner.refined_to(req, refinement),
        result_of(refinement, result),
        req.levels > 0,
    ensures
        result.lineage.face_parent@.len() == result.topology.face_vertex_counts@.len(),
        result.lineage.vertex_origin@.len() == result.topology.vertex_count,
{
    let levels = refinement.chain_of();
    let last = levels.len() - 1;
    assert(refines(
        Scheme::CatmullClark,
        refiner.options_of(),
        req.selection_boundary_crease,
        levels[last - 1],
        levels[last - 1 + 1],
    ));
    assert(levels[last].mesh.face_vertex_counts@.len() == levels[last].lineage.face_parent@.len()
        && levels[last].lineage.vertex_origin@.len() == levels[last].mesh.vertex_count) by {
        reveal(refines);
        reveal(level_ok);
    }
}

/// A Catmull-Clark refinement of all faces has limit stencils and patches.
pub proof fn full_refinement_has_limits<S: Scalar>(
    refiner: Refiner<S>,
    req: UniformRefine<S>,
    refinement: Refinement<S>,
    result: RefinementResult<S>,
)
    requires
        refiner.scheme_of() == Scheme::CatmullClark,
        refiner.refined_to(req, refinement),
        result_of(refinement, result),
        req.levels > 0,
        all_true(active_of(req.selected_faces, refiner.mesh().face_vertex_counts@.len())),
    ensures
        limit_ready(result.topology, result.adjacency),
        quads_linked(result.topology, result.adjacency),
        quads_refused(result) is None,
        result.lineage.face_parent@.len() == result.topology.face_vertex_counts@.len(),
        result.lineage.vertex_origin@.len() == result.topology.vertex_count,
{
    let levels = refinement.chain_of();
    let last = levels.len() - 1;
    assert(all_true(levels[0].face_selected@)) by {
        reveal(is_base);
    }
    lemma_chain_has_limits(refiner.options_of(), req.selection_boundary_crease, levels, last);
    copies_have_limits(levels[last].mesh, result.topology, levels[last].adjacency, result.adjacency);
    assert(quads_linked(result.topology, result.adjacency)) by {
        reveal(quads_linked);
        let a = levels[last].mesh;
        let x = levels[last].adjacency;
        assert forall|f: int, k: int|
            #![trigger result.adjacency.face_edges@[4 * f + k]]
            0 <= f < result.topology.face_vertex_counts@.len() && 0 <= k < 4 implies pairs(
            result.topology.edge_vertices@,
        )[result.adjacency.face_edges@[4 * f + k] as int] == edge_key_of(
            quad_at(result.topology, f)[k],
            quad_at(result.topology, f)[next_corner(k, 4)],
        ) by {
            assert(pairs(a.edge_vertices@)[x.face_edges@[4 * f + k] as int] == edge_key_of(
                quad_at(a, f)[k],
                quad_at(a, f)[next_corner(k, 4)],
            ));
        }
    }
    lemma_lineage_lens(refiner, req, refinement, result);
    assert(quads_refused(result) is None) by {
        assert forall|f: int| 0 <= f < result.topology.face_vertex_counts@.len() implies (
        #[trigger] result.topology.face_vertex_counts@[f]) == 4 by {
            assert(levels[last].mesh.face_vertex_counts@[f] == 4);
        }
    }
}

/// Where every refined face is selected, every face was.
proof fn lemma_selection_kept<S: Scalar>(
    options: SchemeOptions,
    boundary_crease: S,
    parent: LevelData<S>,
    child: LevelData<S>,
)
    requires
        parent.wf(),
        cc_refines(parent, options, boundary_crease, child),
        all_true(child.face_selected@),
    ensures
        all_true(parent.face_selected@),
{
    let p = parent_of(parent.topo, parent.n());
    let sel = parent.face_selected@;
    let rows = cc_child_rows(p, sel);
    let owners = owner_rows(rows);
    assert forall|f: int| 0 <= f < sel.len() implies #[trigger] sel[f] by {
        assert(parent.topo.faces@[f].len() >= 3);
        assert(rows[f].len() > 0);
        assert(owners[f].len() > 0);
        lemma_flat_at(owners, f, 0);
        let at = row_start(owners, f);
        assert(cc_face_parents(p, sel)[at] == f as u32);
        lemma_faces_below(parent, f);
        assert(child.face_selected@[at] == sel[f]);
    }
}

proof fn lemma_faces_below<S: Scalar>(level: LevelData<S>, f: int)
    requires
        level.wf(),
        0 <= f < level.topo.faces@.len(),
    ensures
        f <= u32::MAX,
{
    let faces = level.topo.faces@;
    assert forall|i: int| 0 <= i < faces.len() implies (#[trigger] faces[i]).len() >= 1 by {
        assert(faces[i].len() >= 3);
    }
    crate::connectivity::lemma_corner_counts(faces);
}

/// Where every face of a level of a chain is selected, every face was from the
/// start.
proof fn lemma_selected_from_start<S: Scalar>(
    options: SchemeOptions,
    boundary_crease: S,
    levels: Seq<LevelData<S>>,
    k: int,
)
    requires
        chain(Scheme::CatmullClark, options, boundary_crease, levels),
        0 <= k < levels.len(),
        all_true(levels[k].face_selected@),
    ensures
        all_true(levels[0].face_selected@),
    decreases k,
{
    if k > 0 {
        assert(level_ok(Scheme::CatmullClark, levels[k - 1]));
        assert(step_fault(Scheme::CatmullClark, levels[k - 1]) is None);
        assert(refines(Scheme::CatmullClark, options, boundary_crease, levels[k - 1], levels[k - 1 + 1]));
        assert(all_true(levels[k - 1].face_selected@)) by {
            reveal(level_ok);
            reveal(refines);
            lemma_selection_kept(options, boundary_crease, levels[k - 1], levels[k]);
        }
        lemma_selected_from_start(options, boundary_crease, levels, k - 1);
    }
}

/// A refinement either is refused by the limit machinery or has limit stencils
/// and patches.
pub proof fn refinement_has_limits_or_is_refused<S: Scalar>(
    refiner: Refiner<S>,
    req: UniformRefine<S>,
    refinement: Refinement<S>,
    result: RefinementResult<S>,
)
    requires
        refiner.refined_to(req, refinement),
        result_of(refinement, result),
        req.levels > 0,
    ensures
        quads_refused(result) is None ==> limit_ready(result.topology, result.adjacency) && quads_linked(
            result.topology,
            result.adjacency,
        ),
{
    if quads_refused(result) is None {
        let levels = refinement.chain_of();
        let last = levels.len() - 1;
        if result.selected_faces is Some {
            assert(all_true(levels[last].face_selected@));
            lemma_selected_from_start(refiner.options_of(), req.selection_boundary_crease, levels, last);
            assert(all_true(active_of(req.selected_faces, refiner.mesh().face_vertex_counts@.len()))) by {
                reveal(is_base);
            }
        }
        full_refinement_has_limits(refiner, req, refinement, result);
    }
}

/// A chain of tables that were written from the rows of a chain of levels.
proof fn lemma_tables_fit<S: Scalar>(
    scheme: Scheme,
    options: SchemeOptions,
    boundary_crease: S,
    levels: Seq<LevelData<S>>,
    tables: Seq<StencilTable<S>>,
)
    requires
        chain(scheme, options, boundary_crease, levels),
        0 <= tables.len() < levels.len(),
        forall|k: int|
            0 <= k < tables.len() ==> written_from(#[trigger] tables[k], level_rows(scheme, options, levels[k])),
        forall|k: int| 0 <= k < tables.len() ==> (#[trigger] tables[k]).indices@.len() <= u32::MAX,
    ensures
        tables_fit(tables, levels[0].n()),
        chain_width(table_rows(tables), levels[0].n()) == levels[tables.len() as int].n(),
    decreases tables.len(),
{
    if tables.len() > 0 {
        let last = tables.len() - 1;
        let front = tables.drop_last();
        assert forall|k: int| 0 <= k < front.len() implies written_from(
            #[trigger] front[k],
            level_rows(scheme, options, levels[k]),
        ) by {
            assert(written_from(tables[k], level_rows(scheme, options, levels[k])));
        }
        assert forall|k: int| 0 <= k < front.len() implies (#[trigger] front[k]).indices@.len() <= u32::MAX by {
            assert(tables[k].indices@.len() <= u32::MAX);
        }
        lemma_tables_fit(scheme, options, boundary_crease, levels, front);
        assert(level_ok(scheme, levels[last]));
        assert(step_fault(scheme, levels[last]) is None);
        level_rows_fit(scheme, options, boundary_crease, levels[last], levels[last + 1]);
        let rows = level_rows(scheme, options, levels[last]);
        assert(written_from(tables[last], rows));
        assert(tables[last].indices@.len() == flat(rows).len());
        assert(table_rows(tables).drop_last() =~= table_rows(front));
        assert forall|k: int| 0 <= k < tables.len() implies (#[trigger] tables[k]).wf() by {
            if k < last {
                assert(front[k].wf());
            }
        }
    }
}

/// The stencils of a refinement fit one after the other, from the original
/// vertices to the refined ones, as long as they fit their 32-bit offsets.
pub proof fn refinement_tables_fit<S: Scalar>(
    refiner: Refiner<S>,
    req: UniformRefine<S>,
    refinement: Refinement<S>,
    result: RefinementResult<S>,
)
    requires
        refiner.refined_to(req, refinement),
        result_of(refinement, result),
        forall|k: int|
            0 <= k < result.level_stencils@.len() ==> (#[trigger] result.level_stencils@[k]).indices@.len() <= u32::MAX,
    ensures
        tables_fit(result.level_stencils@, refiner.mesh().vertex_count as nat),
        chain_width(table_rows(result.level_stencils@), refiner.mesh().vertex_count as nat)
            == result.topology.vertex_count,
{
    let levels = refinement.chain_of();
    assert(levels[0].n() == refiner.mesh().vertex_count) by {
        reveal(is_base);
    }
    lemma_tables_fit(
        refiner.scheme_of(),
        refiner.options_of(),
        req.selection_boundary_crease,
        levels,
        result.level_stencils@,
    );
}

} // verus!
