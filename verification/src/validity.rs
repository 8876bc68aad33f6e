//! The meshes that refinement makes keep the rules of meshes, and everything that
//! comes with them fits.

use crate::base::{is_base, level_ok, same_mesh};
use crate::catmull_clark::refine::cc_inherited;
use crate::connectivity::{lemma_corner_counts, pairs};
use crate::hashing::EdgeKey;
use crate::incidence::lemma_flat_locate;
use crate::level::{LevelData, lemma_faces_decode};
use crate::loop_subdivision::refine::loop_inherited;
use crate::options::{Scheme, SchemeOptions, UniformRefine};
use crate::output::RefinementResult;
use crate::refiner::{
    chain, level_rows, level_rows_fit, refined_faces_have_parents, refines, result_of, roots_are_base_faces,
    step_fault, Refinement, Refiner,
};
use crate::rows::flat;
use crate::scalar::Scalar;
use crate::stencil::{entry_indices, row_below, rows_below, written_from, StencilTable};
use crate::topology::{all_below, Mesh};
use vstd::prelude::*;

verus! {

/// The origins and parents of a level are those of its vertices, faces and edges.
pub open spec fn lineage_fits<S>(level: LevelData<S>) -> bool {
    &&& level.lineage.vertex_origin@.len() == level.mesh.vertex_count
    &&& level.lineage.face_parent@.len() == level.mesh.face_vertex_counts@.len()
    &&& level.lineage.edge_parent@.len() == level.mesh.edge_vertices@.len()
}

/// The table of edges leads to edges below `count`.
spec fn places_below(table: Map<EdgeKey, usize>, count: nat) -> bool {
    forall|key: EdgeKey| #[trigger] table.contains_key(key) ==> table[key] < count
}

proof fn lemma_cc_lengths<S: Scalar>(
    p: crate::catmull_clark::topology::Parent,
    vertex_edges: Seq<Seq<u32>>,
    creases: Seq<S>,
    options: SchemeOptions,
    table: Map<EdgeKey, usize>,
    count: nat,
    k: int,
)
    requires
        places_below(table, count),
    ensures
        cc_inherited(p, vertex_edges, creases, options, table, count, k).creases.len() == count,
        cc_inherited(p, vertex_edges, creases, options, table, count, k).parents.len() == count,
    decreases k,
{
    if k > 0 {
        lemma_cc_lengths(p, vertex_edges, creases, options, table, count, k - 1);
    }
}

proof fn lemma_loop_lengths<S: Scalar>(
    p: crate::loop_subdivision::topology::Parent,
    creases: Seq<S>,
    table: Map<EdgeKey, usize>,
    count: nat,
    k: int,
)
    requires
        places_below(table, count),
    ensures
        loop_inherited(p, creases, table, count, k).creases.len() == count,
        loop_inherited(p, creases, table, count, k).parents.len() == count,
    decreases k,
{
    if k > 0 {
        lemma_loop_lengths(p, creases, table, count, k - 1);
    }
}

proof fn lemma_sqrt3_lengths<S: Scalar>(
    p: crate::sqrt3::refine::Parent<S>,
    options: SchemeOptions,
    table: Map<EdgeKey, usize>,
    count: nat,
    k: int,
)
    requires
        places_below(table, count),
    ensures
        p.inherited(options, table, count, k).creases.len() == count,
        p.inherited(options, table, count, k).parents.len() == count,
    decreases k,
{
    if k > 0 {
        lemma_sqrt3_lengths(p, options, table, count, k - 1);
    }
}

proof fn lemma_ds_lengths<S: Scalar>(
    heirs: Seq<(EdgeKey, u32)>,
    creases: Seq<S>,
    options: SchemeOptions,
    table: Map<EdgeKey, usize>,
    count: nat,
    k: int,
)
    requires
        places_below(table, count),
    ensures
        crate::doo_sabin::refine::ds_inherited(heirs, creases, options, table, count, k).creases.len() == count,
        crate::doo_sabin::refine::ds_inherited(heirs, creases, options, table, count, k).parents.len() == count,
    decreases k,
{
    if k > 0 {
        lemma_ds_lengths(heirs, creases, options, table, count, k - 1);
    }
}

/// A level with a crease for each of its edges keeps the rules of meshes.
proof fn lemma_level_mesh_valid<S: Scalar>(level: LevelData<S>)
    requires
        level.wf(),
        pairs(level.mesh.edge_vertices@) == level.topo.edges(),
        level.mesh.edge_creases@.len() == level.topo.edges().len(),
    ensures
        level.mesh.broken_rule() is None,
        level.mesh.edge_vertices@.len() == level.topo.edges().len(),
{
    let faces = level.topo.faces@;
    assert(pairs(level.mesh.edge_vertices@).len() == level.mesh.edge_vertices@.len());
    assert forall|f: int| 0 <= f < faces.len() implies (#[trigger] faces[f]).len() <= u32::MAX by {
        crate::csr::lemma_row_within_flat(faces, f);
    }
    lemma_faces_decode(faces);
    assert forall|i: int| 0 <= i < flat(faces).len() implies (#[trigger] flat(faces)[i]) < level.mesh.vertex_count by {
        let (f, c) = lemma_flat_locate(faces, i);
        assert(all_below(faces[f], level.n() as int));
        assert(faces[f][c] < level.n());
    }
    assert forall|e: int| 0 <= e < level.mesh.edge_vertices@.len() implies (
    #[trigger] pairs(level.mesh.edge_vertices@)[e]).0 < level.mesh.vertex_count && pairs(level.mesh.edge_vertices@)[e].1
        < level.mesh.vertex_count by {
        assert(level.topo.edges()[e].0 < level.topo.edges()[e].1);
    }
}

/// What has the edges and the creases that it inherits keeps the rules.
spec fn edges_fit<S: Scalar>(level: LevelData<S>) -> bool {
    &&& level.wf()
    &&& pairs(level.mesh.edge_vertices@) == level.topo.edges()
    &&& level.mesh.edge_creases@.len() == level.topo.edges().len()
    &&& level.lineage.edge_parent@.len() == level.topo.edges().len()
    &&& level.lineage.vertex_origin@.len() == level.mesh.vertex_count
}

proof fn lemma_refined_edges_fit<S: Scalar>(
    scheme: Scheme,
    options: SchemeOptions,
    boundary_crease: S,
    parent: LevelData<S>,
    child: LevelData<S>,
)
    requires
        refines(scheme, options, boundary_crease, parent, child),
    ensures
        edges_fit(child),
{
    reveal(refines);
    let table = child.topo.edge_key_to_index@;
    let count = child.topo.edges().len();
    assert(child.wf());
    assert(places_below(table, count));
    match scheme {
        Scheme::CatmullClark => {
            let p = crate::catmull_clark::topology::parent_of(parent.topo, parent.n());
            lemma_cc_lengths(
                p,
                parent.topo.vertex_edges@,
                parent.effective_edge_creases@,
                options,
                table,
                count,
                p.edges.len() as int,
            );
        },
        Scheme::Loop => {
            let p = crate::loop_subdivision::topology::parent_of(parent.topo, parent.n());
            lemma_loop_lengths(p, parent.effective_edge_creases@, table, count, p.edges.len() as int);
        },
        Scheme::Sqrt3 => {
            let p = crate::sqrt3::refine::parent_of(parent);
            lemma_sqrt3_lengths(p, options, table, count, p.edges.len() as int);
        },
        Scheme::DooSabin => {
            let heirs = flat(crate::doo_sabin::refine::heir_rows(parent.topo, parent.effective_edge_creases@));
            lemma_ds_lengths(heirs, parent.effective_edge_creases@, options, table, count, heirs.len() as int);
            lemma_corner_counts(parent.topo.faces@);
        },
    }
}

/// A refined mesh keeps the rules of meshes, and its lineage fits it.
pub proof fn refined_meshes_are_valid<S: Scalar>(
    scheme: Scheme,
    options: SchemeOptions,
    boundary_crease: S,
    parent: LevelData<S>,
    child: LevelData<S>,
)
    requires
        level_ok(scheme, parent),
        step_fault(scheme, parent) is None,
        refines(scheme, options, boundary_crease, parent, child),
    ensures
        child.mesh.broken_rule() is None,
        lineage_fits(child),
{
    lemma_refined_edges_fit(scheme, options, boundary_crease, parent, child);
    lemma_level_mesh_valid(child);
    refined_faces_have_parents(scheme, options, boundary_crease, parent, child);
}

/// Whether a result holds together: its mesh keeps the rules, each table has the
/// outputs that the next one reads, the last has one output for each vertex, and
/// origins, parents and roots are there for all vertices, edges and faces.
pub open spec fn holds_together<S: Scalar>(result: RefinementResult<S>, base: Mesh<S>) -> bool {
    let mesh = result.topology;
    let tables = result.level_stencils@;
    &&& mesh.broken_rule() is None
    &&& result.face_root@.len() == mesh.face_vertex_counts@.len()
    &&& all_below(result.face_root@, base.face_vertex_counts@.len() as int)
    &&& tables.len() == 0 ==> mesh.vertex_count == base.vertex_count
    &&& tables.len() > 0 ==> {
        &&& tables.last().row_count() == mesh.vertex_count
        &&& result.lineage.vertex_origin@.len() == mesh.vertex_count
        &&& result.lineage.face_parent@.len() == mesh.face_vertex_counts@.len()
        &&& result.lineage.edge_parent@.len() == mesh.edge_vertices@.len()
    }
    &&& forall|k: int|
        0 <= k < tables.len() ==> all_below(
            (#[trigger] tables[k]).indices@,
            if k == 0 {
                base.vertex_count as int
            } else {
                tables[k - 1].row_count() as int
            },
        )
}

proof fn lemma_indices_below<S: Scalar>(table: StencilTable<S>, rows: Seq<Seq<(u32, S)>>, n: nat)
    requires
        written_from(table, rows),
        rows_below(rows, n),
    ensures
        all_below(table.indices@, n as int),
        table.row_count() == rows.len(),
{
    let all = flat(rows);
    assert forall|i: int| 0 <= i < table.indices@.len() implies (#[trigger] table.indices@[i]) < n by {
        assert(entry_indices(all)[i] == all[i].0);
        let (r, c) = lemma_flat_locate(rows, i);
        assert(row_below(rows[r], n));
        assert(rows[r][c].0 < n);
    }
}

/// The result of a refinement holds together.
pub proof fn results_hold_together<S: Scalar>(
    refiner: Refiner<S>,
    req: UniformRefine<S>,
    refinement: Refinement<S>,
    result: RefinementResult<S>,
)
    requires
        refiner.wf(),
        refiner.refined_to(req, refinement),
        result_of(refinement, result),
    ensures
        holds_together(result, refiner.mesh()),
{
    let scheme = refiner.scheme_of();
    let options = refiner.options_of();
    let crease = req.selection_boundary_crease;
    let levels = refinement.chain_of();
    let last = levels.len() - 1;
    let tables = result.level_stencils@;
    assert(chain(scheme, options, crease, levels));
    assert(levels[0].n() == refiner.mesh().vertex_count && levels[0].mesh.broken_rule() is None
        && levels[0].mesh.face_vertex_counts@ == refiner.mesh().face_vertex_counts@) by {
        reveal(is_base);
    }
    assert forall|k: int| 0 <= k < levels.len() implies (#[trigger] levels[k]).mesh.face_vertex_counts@.len()
        == levels[k].topo.faces@.len() by {
        assert(level_ok(scheme, levels[k]));
        reveal(level_ok);
    }
    roots_are_base_faces(scheme, options, crease, levels, last);
    assert(levels[0].mesh.face_vertex_counts@.len() == levels[0].topo.faces@.len());
    assert(levels[last].mesh.face_vertex_counts@.len() == levels[last].topo.faces@.len());
    if last > 0 {
        assert(level_ok(scheme, levels[last - 1]));
        assert(step_fault(scheme, levels[last - 1]) is None);
        refined_meshes_are_valid(scheme, options, crease, levels[last - 1], levels[last - 1 + 1]);
    }
    assert forall|k: int| 0 <= k < tables.len() implies (#[trigger] tables[k]).row_count() == levels[k + 1].n()
        && all_below(tables[k].indices@, levels[k].n() as int) by {
        assert(level_ok(scheme, levels[k]));
        assert(step_fault(scheme, levels[k]) is None);
        level_rows_fit(scheme, options, crease, levels[k], levels[k + 1]);
        lemma_indices_below(tables[k], level_rows(scheme, options, levels[k]), levels[k].n());
    }
    lemma_copies_keep_the_rules(levels[last].mesh, result.topology);
    assert forall|k: int| 0 <= k < tables.len() implies all_below(
        (#[trigger] tables[k]).indices@,
        if k == 0 {
            refiner.mesh().vertex_count as int
        } else {
            tables[k - 1].row_count() as int
        },
    ) by {
        assert(all_below(tables[k].indices@, levels[k].n() as int));
        if k > 0 {
            assert(tables[k - 1].row_count() == levels[k - 1 + 1].n());
        }
    }
    if tables.len() > 0 {
        assert(tables[tables.len() - 1].row_count() == levels[last].n());
    }
}

/// A copy of a mesh keeps the rules if the mesh does.
proof fn lemma_copies_keep_the_rules<S: Scalar>(a: Mesh<S>, b: Mesh<S>)
    requires
        same_mesh(b, a),
        a.broken_rule() is None,
    ensures
        b.broken_rule() is None,
{
    assert(b.broken_rule() == a.broken_rule());
}

} // verus!
