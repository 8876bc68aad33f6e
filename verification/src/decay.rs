//! What becomes of sharpness from level to level, in plain numbers.

use crate::catmull_clark::refine::{cc_inherited, cc_refines};
use crate::catmull_clark::sharpness::{chaikin_of, child_creases, mean_crease};
use crate::catmull_clark::topology::{parent_of as cc_parent_of, Parent as CcParent};
use crate::connectivity::{edge_key_of, key_table};
use crate::hashing::EdgeKey;
use crate::level::{effective_creases, inherit, LevelData};
use crate::loop_subdivision::refine::{loop_inherited, loop_origins, loop_refines, loop_wf};
use crate::loop_subdivision::topology::{parent_of as loop_parent_of, Parent as LoopParent};
use crate::options::{CreaseComputationMethod, SchemeOptions};
use crate::output::VertexOrigin;
use crate::points::computes_exactly;
use crate::rules::creases_at;
use crate::scalar::{one_of, zero_of, Scalar};
use crate::sharpness::{decayed, decremented, positive, sum_of};
use crate::sqrt3::refine::sqrt3_refines;
use crate::weights::{lemma_one, reads_exactly};
use vstd::prelude::*;

verus! {

/// One level of decay: one less, and not below nought.
pub open spec fn one_less(c: real) -> real {
    if c > 1 as real {
        c - 1 as real
    } else {
        0 as real
    }
}

/// One level of decay of what may be sharp for good: from ten on it stays at ten.
pub open spec fn one_less_or_lasting(c: real) -> real {
    if c >= 10 as real {
        10 as real
    } else {
        one_less(c)
    }
}

pub(crate) proof fn lemma_decay<S: Scalar>(val: spec_fn(S) -> real, c: S)
    requires
        computes_exactly(val),
    ensures
        val(decayed(c)) == one_less(val(c)),
        val(decremented(c)) == one_less_or_lasting(val(c)),
        positive(c) <==> val(c) > 0 as real,
{
    lemma_one::<S>(val);
    assert(val(S::ratio_of(10, 1)) == (10int as real) / (1int as real));
    assert(val(S::minus_of(c, one_of())) == val(c) - 1 as real);
}

// ---------------------------------------------------------------------------
// Catmull-Clark
// ---------------------------------------------------------------------------
/// The sum of the creases of a list of edges.
pub open spec fn creases_sum<S>(val: spec_fn(S) -> real, list: Seq<u32>, creases: Seq<S>) -> real
    decreases list.len(),
{
    if list.len() == 0 {
        0 as real
    } else {
        creases_sum(val, list.drop_last(), creases) + val(creases[list.last() as int])
    }
}

/// What half of an edge with crease `c` gets at an end with the given edges. A crease that
/// does not decay is handed down as it is; a uniform one loses one; by Chaikin's rule the
/// mean of the crease and of the mean crease at the end loses one.
pub open spec fn half_crease<S>(
    val: spec_fn(S) -> real,
    c: real,
    around: Seq<u32>,
    creases: Seq<S>,
    options: SchemeOptions,
) -> real {
    if c <= 0 as real {
        0 as real
    } else if options.crease_normalize {
        c
    } else if options.crease_computation == CreaseComputationMethod::Uniform {
        one_less_or_lasting(c)
    } else {
        let mean = if around.len() == 0 {
            0 as real
        } else {
            creases_sum(val, around, creases) / (around.len() as int as real)
        };
        one_less((c + mean) / (2 as real))
    }
}

proof fn lemma_creases_sum<S: Scalar>(val: spec_fn(S) -> real, list: Seq<u32>, creases: Seq<S>)
    requires
        reads_exactly(val),
    ensures
        val(sum_of(creases_at(list, creases))) == creases_sum(val, list, creases),
    decreases list.len(),
{
    lemma_one::<S>(val);
    let all = creases_at(list, creases);
    if list.len() > 0 {
        lemma_creases_sum(val, list.drop_last(), creases);
        assert(all.drop_last() =~= creases_at(list.drop_last(), creases));
        assert(all.last() == creases[list.last() as int]);
    }
}

proof fn lemma_half_crease<S: Scalar>(
    val: spec_fn(S) -> real,
    e: int,
    edges: Seq<EdgeKey>,
    vertex_edges: Seq<Seq<u32>>,
    creases: Seq<S>,
    options: SchemeOptions,
)
    requires
        computes_exactly(val),
        vertex_edges[edges[e].0 as int].len() <= u32::MAX,
        vertex_edges[edges[e].1 as int].len() <= u32::MAX,
    ensures
        ({
            let (a, b) = child_creases(e, edges, vertex_edges, creases, options);
            let c = val(creases[e]);
            &&& val(a) == half_crease(val, c, vertex_edges[edges[e].0 as int], creases, options)
            &&& val(b) == half_crease(val, c, vertex_edges[edges[e].1 as int], creases, options)
        }),
{
    lemma_one::<S>(val);
    lemma_decay(val, creases[e]);
    lemma_chaikin(val, creases[e], vertex_edges[edges[e].0 as int], creases);
    lemma_chaikin(val, creases[e], vertex_edges[edges[e].1 as int], creases);
}

proof fn lemma_chaikin<S: Scalar>(val: spec_fn(S) -> real, parent: S, list: Seq<u32>, creases: Seq<S>)
    requires
        computes_exactly(val),
        list.len() <= u32::MAX,
    ensures
        val(chaikin_of(parent, mean_crease(list, creases))) == one_less(
            (val(parent) + (if list.len() == 0 {
                0 as real
            } else {
                creases_sum(val, list, creases) / (list.len() as int as real)
            })) / (2 as real),
        ),
{
    lemma_one::<S>(val);
    lemma_creases_sum(val, list, creases);
    let mean = mean_crease(list, creases);
    if list.len() > 0 {
        let m = S::ratio_of(list.len() as u32, 1);
        assert(val(m) == (list.len() as int as real) / (1int as real));
    }
    let half = S::ratio_of(1, 2);
    assert(val(half) == (1int as real) / (2int as real));
    let sum = S::plus_of(parent, mean);
    let s = val(sum);
    let h = val(half);
    assert(val(S::times_of(sum, half)) == s * h);
    assert(s * h == s / (2 as real)) by (nonlinear_arith)
        requires
            h == (1 as real) / (2 as real),
    ;
    let t = S::times_of(sum, half);
    assert(val(S::minus_of(t, one_of())) == val(t) - 1 as real);
}

/// Another key has another place in the table.
pub(crate) proof fn lemma_other_place(edges: Seq<EdgeKey>, table: Map<EdgeKey, usize>, key: EdgeKey, i: int)
    requires
        key_table(edges, table),
        0 <= i < edges.len(),
        key != edges[i],
        table.contains_key(key),
    ensures
        table[key] != i,
{
}

/// Where half of an edge stands in the table.
spec fn half_key(p: CcParent, e: int, v: u32) -> EdgeKey {
    edge_key_of(p.vertex_point(v as int), p.edge_point(e))
}

proof fn lemma_half_keys(p: CcParent, e: int, v: u32, f: int, w: u32)
    requires
        p.refined_vertex_count() <= u32::MAX,
        0 <= e < p.edges.len(),
        0 <= f < p.edges.len(),
        v < p.vertex_count,
        w < p.vertex_count,
    ensures
        half_key(p, e, v) == (p.edge_point(e), p.vertex_point(v as int)),
        half_key(p, e, v) == half_key(p, f, w) ==> e == f && v == w,
{
}

/// The crease of the half of edge `e` at `v`, after the first `k` edges.
#[verifier::rlimit(60)]
proof fn lemma_handed_down<S: Scalar>(
    p: CcParent,
    vertex_edges: Seq<Seq<u32>>,
    creases: Seq<S>,
    options: SchemeOptions,
    edges: Seq<EdgeKey>,
    table: Map<EdgeKey, usize>,
    k: int,
    e: int,
    v: u32,
    i: int,
)
    requires
        p.refined_vertex_count() <= u32::MAX,
        key_table(edges, table),
        0 <= k <= p.edges.len(),
        forall|f: int|
            0 <= f < p.edges.len() ==> (#[trigger] p.edges[f]).0 < p.edges[f].1 && p.edges[f].1 < p.vertex_count,
        0 <= e < p.edges.len(),
        v == p.edges[e].0 || v == p.edges[e].1,
        0 <= i < edges.len(),
        edges[i] == half_key(p, e, v),
        table[edges[i]] == i,
    ensures
        ({
            let s = cc_inherited(p, vertex_edges, creases, options, table, edges.len(), k);
            let (a, b) = child_creases(e, p.edges, vertex_edges, creases, options);
            let c = if v == p.edges[e].0 {
                a
            } else {
                b
            };
            &&& s.creases.len() == edges.len()
            &&& s.parents.len() == edges.len()
            &&& s.creases[i] == (if e < k && positive(creases[e]) && positive(c) {
                c
            } else {
                zero_of()
            })
            &&& s.parents[i] == (if e < k && positive(creases[e]) {
                e as u32
            } else {
                u32::MAX
            })
        }),
    decreases k,
{
    if k > 0 {
        lemma_handed_down(p, vertex_edges, creases, options, edges, table, k - 1, e, v, i);
        let f = k - 1;
        let q = p.edges[f];
        assert(q.0 < q.1 && q.1 < p.vertex_count);
        let r = p.edges[e];
        assert(r.0 < r.1 && r.1 < p.vertex_count);
        lemma_half_keys(p, e, v, f, q.0);
        lemma_half_keys(p, e, v, f, q.1);
        let before = cc_inherited(p, vertex_edges, creases, options, table, edges.len(), f);
        let (c0, c1) = child_creases(f, p.edges, vertex_edges, creases, options);
        let (key0, key1) = (half_key(p, f, q.0), half_key(p, f, q.1));
        if positive(creases[f]) {
            let first = inherit(before, table, key0, c0, positive(c0), f as u32);
            let after = inherit(first, table, key1, c1, positive(c1), f as u32);
            assert(cc_inherited(p, vertex_edges, creases, options, table, edges.len(), k) == after);
            if table.contains_key(key0) && key0 != edges[i] {
                lemma_other_place(edges, table, key0, i);
            }
            if table.contains_key(key1) && key1 != edges[i] {
                lemma_other_place(edges, table, key1, i);
            }
            assert(table.contains_key(edges[i]));
        }
    }
}

/// The creases that a Catmull-Clark refinement hands down: of the halves of an edge, each
/// at its own end. The halves of a sharp edge have it as their parent.
pub proof fn catmull_clark_creases_decay<S: Scalar>(
    val: spec_fn(S) -> real,
    options: SchemeOptions,
    boundary_crease: S,
    parent: LevelData<S>,
    child: LevelData<S>,
    i: int,
    e: u32,
    v: u32,
)
    requires
        computes_exactly(val),
        parent.wf(),
        cc_refines(parent, options, boundary_crease, child),
        0 <= i < child.topo.edges().len(),
        child.topo.edge_key_to_index@[child.topo.edges()[i]] == i,
        e < parent.topo.edges().len(),
        v == parent.topo.edges()[e as int].0 || v == parent.topo.edges()[e as int].1,
        ({
            let (a, b) = child.topo.edges()[i];
            child.lineage.vertex_origin@[a as int] == VertexOrigin::Edge(e) && child.lineage.vertex_origin@[b as int]
                == VertexOrigin::Vertex(v)
        }),
        parent.n() + parent.topo.edges().len() + parent.topo.faces@.len() <= u32::MAX,
    ensures
        val(child.mesh.edge_creases@[i]) == half_crease(
            val,
            val(parent.effective_edge_creases@[e as int]),
            parent.topo.vertex_edges@[v as int],
            parent.effective_edge_creases@,
            options,
        ),
        child.lineage.edge_parent@[i] == (if val(parent.effective_edge_creases@[e as int]) > 0 as real {
            e
        } else {
            u32::MAX
        }),
{
    let t = parent.topo;
    let p = cc_parent_of(t, parent.n());
    let edges = child.topo.edges();
    let creases = parent.effective_edge_creases@;
    let r = t.edges()[e as int];
    assert(r.0 < r.1 && r.1 < parent.n());
    assert(t.vertex_edges@[r.0 as int].len() < u32::MAX);
    assert(t.vertex_edges@[r.1 as int].len() < u32::MAX);
    let (a, b) = edges[i];
    assert(edges[i].0 < edges[i].1 && edges[i].1 < child.n());
    lemma_half_keys(p, e as int, v, e as int, v);
    assert(a == p.edge_point(e as int) && b == p.vertex_point(v as int));
    lemma_handed_down(
        p,
        t.vertex_edges@,
        creases,
        options,
        edges,
        child.topo.edge_key_to_index@,
        p.edges.len() as int,
        e as int,
        v,
        i,
    );
    lemma_half_crease(val, e as int, t.edges(), t.vertex_edges@, creases, options);
    lemma_one::<S>(val);
    lemma_decay(val, creases[e as int]);
    let (c0, c1) = child_creases(e as int, t.edges(), t.vertex_edges@, creases, options);
    lemma_decay(val, c0);
    lemma_decay(val, c1);
}

/// The corners that a Catmull-Clark refinement hands down: those of its vertex points.
pub proof fn catmull_clark_corners_decay<S: Scalar>(
    val: spec_fn(S) -> real,
    options: SchemeOptions,
    boundary_crease: S,
    parent: LevelData<S>,
    child: LevelData<S>,
    i: int,
)
    requires
        computes_exactly(val),
        parent.wf(),
        cc_refines(parent, options, boundary_crease, child),
        0 <= i < child.n(),
    ensures
        val(child.mesh.vertex_corners@[i]) == (match child.lineage.vertex_origin@[i] {
            VertexOrigin::Vertex(v) => {
                let c = val(parent.mesh.vertex_corners@[v as int]);
                if options.corner_normalize {
                    c
                } else if c <= 0 as real {
                    0 as real
                } else {
                    one_less_or_lasting(c)
                }
            },
            _ => 0 as real,
        }),
{
    let p = cc_parent_of(parent.topo, parent.n());
    lemma_one::<S>(val);
    if i >= p.faces.len() + p.edges.len() {
        lemma_decay(val, parent.mesh.vertex_corners@[i - p.faces.len() - p.edges.len()]);
    }
}

// ---------------------------------------------------------------------------
// Loop and sqrt(3)
// ---------------------------------------------------------------------------
spec fn loop_half_key(p: LoopParent, e: int, v: u32) -> EdgeKey {
    edge_key_of(p.vertex_point(v as int), e as u32)
}

proof fn lemma_loop_half_keys(p: LoopParent, e: int, v: u32, f: int, w: u32)
    requires
        p.refined_vertex_count() <= u32::MAX,
        0 <= e < p.edges.len(),
        0 <= f < p.edges.len(),
        v < p.vertex_count,
        w < p.vertex_count,
    ensures
        loop_half_key(p, e, v) == (e as u32, p.vertex_point(v as int)),
        loop_half_key(p, e, v) == loop_half_key(p, f, w) ==> e == f && v == w,
{
}

#[verifier::rlimit(60)]
proof fn lemma_loop_handed_down<S: Scalar>(
    p: LoopParent,
    creases: Seq<S>,
    edges: Seq<EdgeKey>,
    table: Map<EdgeKey, usize>,
    k: int,
    e: int,
    v: u32,
    i: int,
)
    requires
        p.refined_vertex_count() <= u32::MAX,
        key_table(edges, table),
        0 <= k <= p.edges.len(),
        forall|f: int|
            0 <= f < p.edges.len() ==> (#[trigger] p.edges[f]).0 < p.edges[f].1 && p.edges[f].1 < p.vertex_count,
        0 <= e < p.edges.len(),
        v == p.edges[e].0 || v == p.edges[e].1,
        0 <= i < edges.len(),
        edges[i] == loop_half_key(p, e, v),
        table[edges[i]] == i,
    ensures
        ({
            let s = loop_inherited(p, creases, table, edges.len(), k);
            let c = decayed(creases[e]);
            &&& s.creases.len() == edges.len()
            &&& s.parents.len() == edges.len()
            &&& s.creases[i] == (if e < k && !S::at_most_of(creases[e], zero_of()) && !S::at_most_of(c, zero_of()) {
                c
            } else {
                zero_of()
            })
            &&& s.parents[i] == (if e < k && !S::at_most_of(creases[e], zero_of()) && !S::at_most_of(c, zero_of()) {
                e as u32
            } else {
                u32::MAX
            })
        }),
    decreases k,
{
    if k > 0 {
        lemma_loop_handed_down(p, creases, edges, table, k - 1, e, v, i);
        let f = k - 1;
        let q = p.edges[f];
        assert(q.0 < q.1 && q.1 < p.vertex_count);
        let r = p.edges[e];
        assert(r.0 < r.1 && r.1 < p.vertex_count);
        lemma_loop_half_keys(p, e, v, f, q.0);
        lemma_loop_half_keys(p, e, v, f, q.1);
        let (key0, key1) = (loop_half_key(p, f, q.0), loop_half_key(p, f, q.1));
        if table.contains_key(key0) && key0 != edges[i] {
            lemma_other_place(edges, table, key0, i);
        }
        if table.contains_key(key1) && key1 != edges[i] {
            lemma_other_place(edges, table, key1, i);
        }
        assert(table.contains_key(edges[i]));
    }
}

/// The creases that a Loop refinement hands down: both halves of an edge lose one, and
/// while they are sharp they have it as their parent.
#[verifier::rlimit(60)]
pub proof fn loop_creases_decay<S: Scalar>(
    val: spec_fn(S) -> real,
    options: SchemeOptions,
    boundary_crease: S,
    parent: LevelData<S>,
    child: LevelData<S>,
    i: int,
    e: u32,
    v: u32,
)
    requires
        computes_exactly(val),
        loop_wf(parent),
        loop_refines(parent, options, boundary_crease, child),
        0 <= i < child.topo.edges().len(),
        child.topo.edge_key_to_index@[child.topo.edges()[i]] == i,
        e < parent.topo.edges().len(),
        v == parent.topo.edges()[e as int].0 || v == parent.topo.edges()[e as int].1,
        ({
            let (a, b) = child.topo.edges()[i];
            child.lineage.vertex_origin@[a as int] == VertexOrigin::Edge(e) && child.lineage.vertex_origin@[b as int]
                == VertexOrigin::Vertex(v)
        }),
        parent.n() + parent.topo.edges().len() <= u32::MAX,
    ensures
        val(child.mesh.edge_creases@[i]) == one_less(val(parent.effective_edge_creases@[e as int])),
        child.lineage.edge_parent@[i] == (if one_less(val(parent.effective_edge_creases@[e as int])) > 0 as real {
            e
        } else {
            u32::MAX
        }),
{
    let t = parent.topo;
    let p = loop_parent_of(t, parent.n());
    let edges = child.topo.edges();
    let creases = parent.effective_edge_creases@;
    let r = t.edges()[e as int];
    assert(r.0 < r.1 && r.1 < parent.n());
    assert(edges[i].0 < edges[i].1 && edges[i].1 < child.n());
    lemma_loop_half_keys(p, e as int, v, e as int, v);
    let (a, b) = edges[i];
    let origins = child.lineage.vertex_origin@;
    assert(origins == loop_origins(p) && origins.len() == child.n());
    assert(a == e && b == p.vertex_point(v as int)) by {
        assert(origins[a as int] == VertexOrigin::Edge(e));
        assert(origins[b as int] == VertexOrigin::Vertex(v));
    }
    lemma_loop_handed_down(
        p,
        creases,
        edges,
        child.topo.edge_key_to_index@,
        p.edges.len() as int,
        e as int,
        v,
        i,
    );
    lemma_one::<S>(val);
    lemma_decay(val, creases[e as int]);
}

/// The corners that a Loop refinement hands down stay as they are.
pub proof fn loop_corners_last<S: Scalar>(
    val: spec_fn(S) -> real,
    options: SchemeOptions,
    boundary_crease: S,
    parent: LevelData<S>,
    child: LevelData<S>,
    i: int,
)
    requires
        computes_exactly(val),
        loop_wf(parent),
        loop_refines(parent, options, boundary_crease, child),
        0 <= i < child.n(),
    ensures
        val(child.mesh.vertex_corners@[i]) == (match child.lineage.vertex_origin@[i] {
            VertexOrigin::Vertex(v) => val(parent.mesh.vertex_corners@[v as int]),
            _ => 0 as real,
        }),
{
    lemma_one::<S>(val);
}

/// The corners that a sqrt(3) refinement hands down.
pub proof fn sqrt3_corners_decay<S: Scalar>(
    val: spec_fn(S) -> real,
    options: SchemeOptions,
    boundary_crease: S,
    parent: LevelData<S>,
    child: LevelData<S>,
    i: int,
)
    requires
        computes_exactly(val),
        parent.wf(),
        sqrt3_refines(parent, options, boundary_crease, child),
        0 <= i < child.n(),
    ensures
        val(child.mesh.vertex_corners@[i]) == (match child.lineage.vertex_origin@[i] {
            VertexOrigin::Vertex(v) => {
                let c = val(parent.mesh.vertex_corners@[v as int]);
                if options.corner_normalize || c <= 0 as real {
                    c
                } else {
                    one_less(c)
                }
            },
            _ => 0 as real,
        }),
{
    lemma_one::<S>(val);
    let nf = parent.topo.faces@.len();
    if i >= nf {
        lemma_decay(val, parent.mesh.vertex_corners@[i - nf]);
    }
}

// ---------------------------------------------------------------------------
// Selections
// ---------------------------------------------------------------------------
/// Along the boundary of a selection that leaves faces out, where one side of an edge is
/// selected and the other is not, the crease is at least that of the boundary; elsewhere
/// it is as it was.
pub proof fn selections_sharpen_their_boundary<S: Scalar>(
    val: spec_fn(S) -> real,
    creases: Seq<S>,
    edge_faces: Seq<Seq<u32>>,
    selected: Seq<bool>,
    boundary_crease: S,
    e: int,
)
    requires
        computes_exactly(val),
        0 <= e < creases.len(),
    ensures
        ({
            let sides = edge_faces[e];
            let first = sides.len() > 0 && selected[sides[0] as int];
            let second = sides.len() > 1 && selected[sides[1] as int];
            let partial = exists|f: int| 0 <= f < selected.len() && !(#[trigger] selected[f]);
            let c = val(creases[e]);
            let b = val(boundary_crease);
            val(effective_creases(creases, edge_faces, selected, boundary_crease)[e]) == (if partial && first != second
                && b > 0 as real && b > c {
                b
            } else {
                c
            })
        }),
{
    lemma_one::<S>(val);
}

/// The parts of a face that is selected are selected, and no others.
pub proof fn selections_are_handed_down<S: Scalar>(
    options: SchemeOptions,
    boundary_crease: S,
    parent: LevelData<S>,
    child: LevelData<S>,
    q: int,
)
    requires
        cc_refines(parent, options, boundary_crease, child) || loop_refines(parent, options, boundary_crease, child)
            || sqrt3_refines(parent, options, boundary_crease, child),
        0 <= q < child.topo.faces@.len(),
    ensures
        child.face_selected@[q] == parent.face_selected@[child.lineage.face_parent@[q] as int],
{
}

} // verus!
