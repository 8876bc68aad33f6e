//! Refining a mesh by a number of levels.

use crate::base::{base_fault, base_level_data, copy_mesh, is_base, level_ok, same_mesh};
use crate::connectivity::{edge_key, edge_key_of, owner_rows, pairs};
use crate::csr::copied;
use crate::error::KernelError;
use crate::hashing::{edge_map_get, edge_map_insert, edge_map_new, EdgeKey, EdgeMap};
use crate::incidence::lemma_flat_locate;
use crate::level::{fault_text, LevelData};
use crate::options::{Scheme, SchemeOptions, UniformRefine};
use crate::output::{copy_adjacency, copy_lineage, same_adjacency, same_lineage, LineageMaps, RefinementResult, VertexOrigin};
use crate::face_varying::{all_linear_via_origin, child_fits, identity_values, linear_rows, smooth_modes, smooth_rows};
use crate::options::FaceVaryingInterpolation;
use crate::rows::{flat, views};
use crate::sqrt3::refine::numbers;
use crate::topology::FaceVaryingChannel;
use crate::scalar::Scalar;
use crate::stencil::{written_from, StencilTable};
use crate::topology::{all_below, Adjacency, Mesh};
use vstd::prelude::*;

verus! {

// ---------------------------------------------------------------------------
// One step, for each scheme
// ---------------------------------------------------------------------------
/// Why a level cannot be refined.
#[verifier::opaque]
pub open spec fn step_fault<S: Scalar>(scheme: Scheme, level: LevelData<S>) -> Option<&'static str> {
    match scheme {
        Scheme::CatmullClark => match crate::catmull_clark::refine::cc_fault(
            crate::catmull_clark::topology::parent_of(level.topo, level.n()),
            level.face_selected@,
        ) {
            Some(fault) => Some(fault_text(fault)),
            None => None,
        },
        Scheme::Loop => match crate::loop_subdivision::refine::loop_fault(
            crate::loop_subdivision::topology::parent_of(level.topo, level.n()),
            level.face_selected@,
        ) {
            Some(fault) => Some(fault_text(fault)),
            None => None,
        },
        Scheme::Sqrt3 => match crate::sqrt3::refine::parent_of(level).fault() {
            Some(fault) => Some(fault_text(fault)),
            None => None,
        },
        Scheme::DooSabin => match crate::doo_sabin::refine::ds_fault(level) {
            Some(fault) => Some(crate::doo_sabin::topology::fault_text(fault)),
            None => None,
        },
    }
}

/// `child` is the refinement of `parent`.
#[verifier::opaque]
pub open spec fn refines<S: Scalar>(
    scheme: Scheme,
    options: SchemeOptions,
    boundary_crease: S,
    parent: LevelData<S>,
    child: LevelData<S>,
) -> bool {
    match scheme {
        Scheme::CatmullClark => crate::catmull_clark::refine::cc_refines(parent, options, boundary_crease, child),
        Scheme::Loop => crate::loop_subdivision::refine::loop_refines(parent, options, boundary_crease, child),
        Scheme::Sqrt3 => crate::sqrt3::refine::sqrt3_refines(parent, options, boundary_crease, child),
        Scheme::DooSabin => crate::doo_sabin::refine::ds_refines(parent, options, boundary_crease, child),
    }
}

/// The stencils from a level to its refinement.
#[verifier::opaque]
pub open spec fn level_rows<S: Scalar>(
    scheme: Scheme,
    options: SchemeOptions,
    level: LevelData<S>,
) -> Seq<Seq<(u32, S)>> {
    match scheme {
        Scheme::CatmullClark => crate::catmull_clark::stencils::cc_rows(level, options),
        Scheme::Loop => crate::loop_subdivision::stencils::loop_rows(level),
        Scheme::Sqrt3 => crate::sqrt3::stencils::sqrt3_rows(level, options),
        Scheme::DooSabin => crate::doo_sabin::stencils::ds_rows(level, options),
    }
}

fn refine_once<S: Scalar>(
    scheme: Scheme,
    options: &SchemeOptions,
    boundary_crease: S,
    parent: &LevelData<S>,
) -> (r: Result<LevelData<S>, KernelError>)
    requires
        level_ok(scheme, *parent),
    ensures
        match step_fault(scheme, *parent) {
            Some(text) => r == Err::<LevelData<S>, _>(KernelError::InvalidTopology(text)),
            None => r is Ok && refines(scheme, *options, boundary_crease, *parent, r->Ok_0) && level_ok(
                scheme,
                r->Ok_0,
            ),
        },
{
    reveal(level_ok);
    reveal(step_fault);
    reveal(refines);
    match scheme {
        Scheme::CatmullClark => crate::catmull_clark::refine::refine_topology_once(parent, options, boundary_crease),
        Scheme::Loop => crate::loop_subdivision::refine::refine_topology_once(parent, options, boundary_crease),
        Scheme::Sqrt3 => crate::sqrt3::refine::refine_topology_once(parent, options, boundary_crease),
        Scheme::DooSabin => crate::doo_sabin::refine::refine_topology_once(parent, options, boundary_crease),
    }
}

fn level_stencils<S: Scalar>(scheme: Scheme, options: &SchemeOptions, level: &LevelData<S>) -> (r: StencilTable<S>)
    requires
        level_ok(scheme, *level),
    ensures
        written_from(r, level_rows(scheme, *options, *level)),
{
    reveal(level_ok);
    reveal(level_rows);
    match scheme {
        Scheme::CatmullClark => crate::catmull_clark::stencils::vertex_stencils_from_level(level, options),
        Scheme::Loop => crate::loop_subdivision::stencils::vertex_stencils_from_level(level),
        Scheme::Sqrt3 => crate::sqrt3::stencils::vertex_stencils_from_level(level, options),
        Scheme::DooSabin => crate::doo_sabin::stencils::vertex_stencils_from_level(level, options),
    }
}

/// The faces of a refinement have faces of the parent as parents.
pub proof fn refined_faces_have_parents<S: Scalar>(
    scheme: Scheme,
    options: SchemeOptions,
    boundary_crease: S,
    parent: LevelData<S>,
    child: LevelData<S>,
)
    requires
        level_ok(scheme, parent),
        step_fault(scheme, parent) is None,
        refines(scheme, options, boundary_crease, parent, child),
    ensures
        all_below(child.lineage.face_parent@, parent.topo.faces@.len() as int),
        child.lineage.face_parent@.len() == child.topo.faces@.len(),
{
    reveal(level_ok);
    reveal(step_fault);
    reveal(refines);
    match scheme {
        Scheme::CatmullClark => {
            let p = crate::catmull_clark::topology::parent_of(parent.topo, parent.n());
            let sel = parent.face_selected@;
            crate::catmull_clark::refine::lemma_parents_in_range(p, sel);
            crate::connectivity::lemma_same_starts(
                owner_rows(crate::catmull_clark::refine::cc_child_rows(p, sel)),
                crate::catmull_clark::refine::cc_child_rows(p, sel),
                0,
            );
        },
        Scheme::Loop => {
            crate::loop_subdivision::refine::lemma_loop_faces_proper(parent);
        },
        Scheme::Sqrt3 => {
            let p = crate::sqrt3::refine::parent_of(parent);
            crate::sqrt3::refine::lemma_split_proper(parent);
            crate::connectivity::lemma_same_starts(owner_rows(p.split_rows()), p.split_rows(), 0);
            crate::sqrt3::refine::lemma_flipped_len(p, p.edges.len() as int);
        },
        Scheme::DooSabin => {
            crate::doo_sabin::refine::lemma_ds_children_proper(parent);
            let children = crate::doo_sabin::refine::ds_children(parent);
            let parents = child.lineage.face_parent@;
            assert forall|i: int| 0 <= i < parents.len() implies (#[trigger] parents[i]) < parent.topo.faces@.len() by {
                assert(crate::doo_sabin::refine::proper_child(
                    children[i],
                    flat(parent.topo.faces@).len() as int,
                    parent.topo.faces@.len() as int,
                ));
            }
        },
    }
}

/// The stencils of a level read vertices of the level only, and there is one
/// for each vertex of the refinement.
pub proof fn level_rows_fit<S: Scalar>(
    scheme: Scheme,
    options: SchemeOptions,
    boundary_crease: S,
    parent: LevelData<S>,
    child: LevelData<S>,
)
    requires
        level_ok(scheme, parent),
        refines(scheme, options, boundary_crease, parent, child),
    ensures
        crate::stencil::rows_below(level_rows(scheme, options, parent), parent.n()),
        level_rows(scheme, options, parent).len() == child.n(),
{
    reveal(level_ok);
    reveal(refines);
    reveal(level_rows);
    match scheme {
        Scheme::CatmullClark => {
            crate::catmull_clark::stencils::cc_rows_fit(parent, options);
        },
        Scheme::Loop => {
            crate::loop_subdivision::stencils::loop_rows_fit(parent);
        },
        Scheme::Sqrt3 => {
            crate::sqrt3::stencils::sqrt3_rows_fit(parent, options);
        },
        Scheme::DooSabin => {
            crate::doo_sabin::stencils::ds_rows_fit(parent, options);
        },
    }
}

// ---------------------------------------------------------------------------
// Polylines
// ---------------------------------------------------------------------------
/// The last vertex with a given origin.
pub open spec fn last_with_origin(origins: Seq<VertexOrigin>, origin: VertexOrigin) -> Option<u32>
    decreases origins.len(),
{
    if origins.len() == 0 {
        None
    } else if origins.last() == origin {
        Some((origins.len() - 1) as u32)
    } else {
        last_with_origin(origins.drop_last(), origin)
    }
}

/// The last edge of a list with given end points.
pub open spec fn last_with_key(edges: Seq<EdgeKey>, key: EdgeKey) -> Option<int>
    decreases edges.len(),
{
    if edges.len() == 0 {
        None
    } else if edge_key_of(edges.last().0, edges.last().1) == key {
        Some(edges.len() - 1)
    } else {
        last_with_key(edges.drop_last(), key)
    }
}

/// The point that a vertex became; itself if it became none.
pub open spec fn moved_point(origins: Seq<VertexOrigin>, vertex_count: u32, v: u32) -> u32 {
    if v < vertex_count {
        match last_with_origin(origins, VertexOrigin::Vertex(v)) {
            Some(point) => point,
            None => v,
        }
    } else {
        v
    }
}

/// The point on the edge between two vertices, if there is one.
pub open spec fn split_point(origins: Seq<VertexOrigin>, edges: Seq<EdgeKey>, a: u32, b: u32) -> Seq<u32> {
    match last_with_key(edges, edge_key_of(a, b)) {
        Some(e) => if e <= u32::MAX {
            match last_with_origin(origins, VertexOrigin::Edge(e as u32)) {
                Some(point) => seq![point],
                None => Seq::empty(),
            }
        } else {
            Seq::empty()
        },
        None => Seq::empty(),
    }
}

/// The first `k` segments of a polyline, refined, without their end.
pub open spec fn refined_segments(
    origins: Seq<VertexOrigin>,
    edges: Seq<EdgeKey>,
    vertex_count: u32,
    poly: Seq<u32>,
    k: int,
) -> Seq<u32>
    decreases k,
{
    if k <= 0 {
        Seq::empty()
    } else {
        refined_segments(origins, edges, vertex_count, poly, k - 1).push(
            moved_point(origins, vertex_count, poly[k - 1]),
        ) + split_point(origins, edges, poly[k - 1], poly[k])
    }
}

/// A polyline one level on: every segment is split at its edge point.
pub open spec fn refined_polyline(
    origins: Seq<VertexOrigin>,
    edges: Seq<EdgeKey>,
    vertex_count: u32,
    poly: Seq<u32>,
) -> Seq<u32> {
    if poly.len() == 0 {
        Seq::empty()
    } else {
        refined_segments(origins, edges, vertex_count, poly, poly.len() - 1).push(
            moved_point(origins, vertex_count, poly.last()),
        )
    }
}

pub open spec fn refined_polylines(
    lineage: LineageMaps,
    edges: Seq<EdgeKey>,
    vertex_count: u32,
    polys: Seq<Seq<u32>>,
) -> Seq<Seq<u32>> {
    polys.map_values(|poly: Seq<u32>| refined_polyline(lineage.vertex_origin@, edges, vertex_count, poly))
}

/// Where every segment lies on an edge that was split, a polyline of `n`
/// segments becomes one of `2 n`.
pub proof fn polyline_segments_double(
    origins: Seq<VertexOrigin>,
    edges: Seq<EdgeKey>,
    vertex_count: u32,
    poly: Seq<u32>,
)
    requires
        poly.len() > 0,
        forall|k: int|
            0 <= k < poly.len() - 1 ==> (#[trigger] split_point(origins, edges, poly[k], poly[k + 1])).len() == 1,
    ensures
        refined_polyline(origins, edges, vertex_count, poly).len() - 1 == 2 * (poly.len() - 1),
{
    lemma_segments_double(origins, edges, vertex_count, poly, poly.len() - 1);
}

proof fn lemma_segments_double(
    origins: Seq<VertexOrigin>,
    edges: Seq<EdgeKey>,
    vertex_count: u32,
    poly: Seq<u32>,
    k: int,
)
    requires
        0 <= k < poly.len(),
        forall|k: int|
            0 <= k < poly.len() - 1 ==> (#[trigger] split_point(origins, edges, poly[k], poly[k + 1])).len() == 1,
    ensures
        refined_segments(origins, edges, vertex_count, poly, k).len() == 2 * k,
    decreases k,
{
    if k > 0 {
        lemma_segments_double(origins, edges, vertex_count, poly, k - 1);
        assert(split_point(origins, edges, poly[k - 1], poly[k - 1 + 1]).len() == 1);
    }
}

/// The vertices that vertices and edges became.
fn origin_tables(origins: &[VertexOrigin], vertex_count: usize, edge_count: usize) -> (r: (
    Vec<Option<u32>>,
    Vec<Option<u32>>,
))
    requires
        origins@.len() <= u32::MAX,
        forall|i: int|
            0 <= i < origins@.len() ==> match #[trigger] origins@[i] {
                VertexOrigin::Vertex(v) => v < vertex_count,
                VertexOrigin::Edge(e) => e < edge_count,
                VertexOrigin::Face(f) => true,
            },
    ensures
        r.0@.len() == vertex_count,
        r.1@.len() == edge_count,
        forall|v: int|
            0 <= v < vertex_count && v <= u32::MAX ==> #[trigger] r.0@[v] == last_with_origin(
                origins@,
                VertexOrigin::Vertex(v as u32),
            ),
        forall|e: int|
            0 <= e < edge_count && e <= u32::MAX ==> #[trigger] r.1@[e] == last_with_origin(
                origins@,
                VertexOrigin::Edge(e as u32),
            ),
{
    let mut vertices: Vec<Option<u32>> = Vec::new();
    let mut edges: Vec<Option<u32>> = Vec::new();
    let mut i: usize = 0;
    while i < vertex_count
        invariant
            i <= vertex_count,
            vertices@.len() == i,
            forall|v: int| 0 <= v < i ==> (#[trigger] vertices@[v]) is None,
        decreases vertex_count - i,
    {
        vertices.push(None);
        i += 1;
    }
    i = 0;
    while i < edge_count
        invariant
            i <= edge_count,
            edges@.len() == i,
            forall|v: int| 0 <= v < i ==> (#[trigger] edges@[v]) is None,
        decreases edge_count - i,
    {
        edges.push(None);
        i += 1;
    }
    i = 0;
    assert(origins@.take(0) =~= Seq::<VertexOrigin>::empty());
    while i < origins.len()
        invariant
            i <= origins.len(),
            origins@.len() <= u32::MAX,
            vertices@.len() == vertex_count,
            edges@.len() == edge_count,
            forall|i: int|
                0 <= i < origins@.len() ==> match #[trigger] origins@[i] {
                    VertexOrigin::Vertex(v) => v < vertex_count,
                    VertexOrigin::Edge(e) => e < edge_count,
                    VertexOrigin::Face(f) => true,
                },
            forall|v: int|
                0 <= v < vertex_count && v <= u32::MAX ==> #[trigger] vertices@[v] == last_with_origin(
                    origins@.take(i as int),
                    VertexOrigin::Vertex(v as u32),
                ),
            forall|e: int|
                0 <= e < edge_count && e <= u32::MAX ==> #[trigger] edges@[e] == last_with_origin(
                    origins@.take(i as int),
                    VertexOrigin::Edge(e as u32),
                ),
        decreases origins.len() - i,
    {
        let ghost vb = vertices@;
        let ghost eb = edges@;
        assert(origins@.take(i + 1).drop_last() =~= origins@.take(i as int));
        let origin: VertexOrigin = origins[i];
        assert(origin == origins@[i as int]);
        match origin {
            VertexOrigin::Vertex(v) => {
                vertices[v as usize] = Some(i as u32);
            },
            VertexOrigin::Edge(e) => {
                edges[e as usize] = Some(i as u32);
            },
            VertexOrigin::Face(_) => {},
        }
        proof {
            assert forall|v: int| 0 <= v < vertex_count && v <= u32::MAX implies #[trigger] vertices@[v]
                == last_with_origin(origins@.take(i + 1), VertexOrigin::Vertex(v as u32)) by {
                assert(vb[v] == last_with_origin(origins@.take(i as int), VertexOrigin::Vertex(v as u32)));
            }
            assert forall|e: int| 0 <= e < edge_count && e <= u32::MAX implies #[trigger] edges@[e]
                == last_with_origin(origins@.take(i + 1), VertexOrigin::Edge(e as u32)) by {
                assert(eb[e] == last_with_origin(origins@.take(i as int), VertexOrigin::Edge(e as u32)));
            }
        }
        i += 1;
    }
    assert(origins@.take(i as int) =~= origins@);
    (vertices, edges)
}

/// The edge list of a mesh, by end points.
fn key_index(edges: &[[u32; 2]]) -> (r: EdgeMap<usize>)
    ensures
        forall|k: EdgeKey|
            last_with_key(pairs(edges@), k) == (if #[trigger] r@.contains_key(k) {
                Some(r@[k] as int)
            } else {
                None
            }),
        forall|k: EdgeKey| #[trigger] r@.contains_key(k) ==> r@[k] < edges@.len(),
{
    let ghost all = pairs(edges@);
    let mut map: EdgeMap<usize> = edge_map_new();
    let mut e: usize = 0;
    assert(all.take(0) =~= Seq::<EdgeKey>::empty());
    while e < edges.len()
        invariant
            e <= edges.len(),
            all == pairs(edges@),
            forall|k: EdgeKey|
                last_with_key(all.take(e as int), k) == (if #[trigger] map@.contains_key(k) {
                    Some(map@[k] as int)
                } else {
                    None
                }),
            forall|k: EdgeKey| #[trigger] map@.contains_key(k) ==> map@[k] < edges@.len(),
        decreases edges.len() - e,
    {
        let key: EdgeKey = edge_key(edges[e][0], edges[e][1]);
        let ghost before = map@;
        assert(all[e as int] == (edges@[e as int]@[0], edges@[e as int]@[1]));
        assert(all.take(e + 1).drop_last() =~= all.take(e as int));
        edge_map_insert(&mut map, key, e);
        assert forall|k: EdgeKey|
            last_with_key(all.take(e + 1), k) == (if #[trigger] map@.contains_key(k) {
                Some(map@[k] as int)
            } else {
                None
            }) by {
            assert(last_with_key(all.take(e as int), k) == (if before.contains_key(k) {
                Some(before[k] as int)
            } else {
                None
            }));
        }
        e += 1;
    }
    assert(all.take(e as int) =~= all);
    map
}

fn moved<'a>(points: &'a [Option<u32>], v: u32) -> (r: u32)
    ensures
        r == (if v < points@.len() && points@[v as int] is Some {
            points@[v as int]->Some_0
        } else {
            v
        }),
{
    if (v as usize) < points.len() {
        match points[v as usize] {
            Some(point) => point,
            None => v,
        }
    } else {
        v
    }
}

/// Splits every segment of every polyline at its edge point.
fn refine_polylines(
    polylines: &[Vec<u32>],
    lineage: &LineageMaps,
    edge_vertices: &[[u32; 2]],
    vertex_count: u32,
) -> (r: Vec<Vec<u32>>)
    requires
        lineage.vertex_origin@.len() <= u32::MAX,
        forall|i: int|
            0 <= i < lineage.vertex_origin@.len() ==> match #[trigger] lineage.vertex_origin@[i] {
                VertexOrigin::Vertex(v) => v < vertex_count,
                VertexOrigin::Edge(e) => e < edge_vertices@.len(),
                VertexOrigin::Face(f) => true,
            },
    ensures
        views(r@) == refined_polylines(*lineage, pairs(edge_vertices@), vertex_count, views(polylines@)),
{
    let ghost origins = lineage.vertex_origin@;
    let ghost edges = pairs(edge_vertices@);
    let (vertex_points, edge_points) = origin_tables(
        &lineage.vertex_origin,
        vertex_count as usize,
        edge_vertices.len(),
    );
    let index: EdgeMap<usize> = key_index(edge_vertices);
    let ghost all = refined_polylines(*lineage, pairs(edge_vertices@), vertex_count, views(polylines@));
    let mut out: Vec<Vec<u32>> = Vec::new();
    let mut i: usize = 0;
    while i < polylines.len()
        invariant
            i <= polylines.len(),
            origins == lineage.vertex_origin@,
            edges == pairs(edge_vertices@),
            all == refined_polylines(*lineage, pairs(edge_vertices@), vertex_count, views(polylines@)),
            vertex_points@.len() == vertex_count,
            edge_points@.len() == edges.len(),
            forall|v: int|
                0 <= v < vertex_points@.len() && v <= u32::MAX ==> #[trigger] vertex_points@[v] == last_with_origin(
                    origins,
                    VertexOrigin::Vertex(v as u32),
                ),
            forall|e: int|
                0 <= e < edge_points@.len() && e <= u32::MAX ==> #[trigger] edge_points@[e] == last_with_origin(
                    origins,
                    VertexOrigin::Edge(e as u32),
                ),
            forall|k: EdgeKey|
                last_with_key(edges, k) == (if #[trigger] index@.contains_key(k) {
                    Some(index@[k] as int)
                } else {
                    None
                }),
            forall|k: EdgeKey| #[trigger] index@.contains_key(k) ==> index@[k] < edges.len(),
            views(out@) == all.take(i as int),
        decreases polylines.len() - i,
    {
        let poly: &Vec<u32> = &polylines[i];
        let mut line: Vec<u32> = Vec::new();
        if poly.len() > 0 {
            let mut k: usize = 0;
            while k + 1 < poly.len()
                invariant
                    k < poly.len(),
                    vertex_points@.len() == vertex_count,
                    edge_points@.len() == edges.len(),
                    forall|v: int|
                        0 <= v < vertex_points@.len() && v <= u32::MAX ==> #[trigger] vertex_points@[v]
                            == last_with_origin(origins, VertexOrigin::Vertex(v as u32)),
                    forall|e: int|
                        0 <= e < edge_points@.len() && e <= u32::MAX ==> #[trigger] edge_points@[e]
                            == last_with_origin(origins, VertexOrigin::Edge(e as u32)),
                    forall|k: EdgeKey|
                        last_with_key(edges, k) == (if #[trigger] index@.contains_key(k) {
                            Some(index@[k] as int)
                        } else {
                            None
                        }),
                    forall|k: EdgeKey| #[trigger] index@.contains_key(k) ==> index@[k] < edges.len(),
                    line@ == refined_segments(origins, edges, vertex_count, poly@, k as int),
                decreases poly.len() - k,
            {
                let a: u32 = poly[k];
                let b: u32 = poly[k + 1];
                let ghost before = line@;
                line.push(moved(&vertex_points, a));
                let ghost pushed = line@;
                let key: EdgeKey = edge_key(a, b);
                match edge_map_get(&index, key) {
                    Some(e) => {
                        assert(index@.contains_key(key));
                        let found: Option<u32> = if e <= u32::MAX as usize {
                            edge_points[e]
                        } else {
                            None
                        };
                        match found {
                            Some(point) => {
                                line.push(point);
                                assert(split_point(origins, edges, a, b) == seq![point]);
                                assert(line@ =~= pushed + seq![point]);
                            },
                            None => {
                                assert(split_point(origins, edges, a, b) =~= Seq::<u32>::empty());
                                assert(line@ =~= pushed + Seq::<u32>::empty());
                            },
                        }
                    },
                    None => {
                        assert(!index@.contains_key(key));
                        assert(line@ =~= pushed + Seq::<u32>::empty());
                    },
                }
                k += 1;
            }
            line.push(moved(&vertex_points, poly[poly.len() - 1]));
        }
        assert(line@ =~= all[i as int]);
        let ghost before = views(out@);
        out.push(line);
        assert(views(out@) =~= before.push(line@));
        i += 1;
        assert(views(out@) =~= all.take(i as int));
    }
    assert(all.take(i as int) =~= all);
    out
}

// ---------------------------------------------------------------------------
// Chains of levels
// ---------------------------------------------------------------------------
/// A chain of levels, each the refinement of the one before.
pub open spec fn chain<S: Scalar>(
    scheme: Scheme,
    options: SchemeOptions,
    boundary_crease: S,
    levels: Seq<LevelData<S>>,
) -> bool {
    &&& forall|k: int| 0 <= k < levels.len() ==> level_ok(scheme, #[trigger] levels[k])
    &&& forall|k: int|
        #![trigger levels[k]]
        0 <= k < levels.len() - 1 ==> step_fault(scheme, levels[k]) is None && refines(
            scheme,
            options,
            boundary_crease,
            levels[k],
            levels[k + 1],
        )
}

/// The edges of a mesh as polylines of one segment.
pub open spec fn edge_lines(edges: Seq<EdgeKey>) -> Seq<Seq<u32>> {
    edges.map_values(|e: EdgeKey| seq![e.0, e.1])
}

/// The polylines after the first `k` steps of a chain.
pub open spec fn traced<S: Scalar>(levels: Seq<LevelData<S>>, edges: Seq<EdgeKey>, k: int) -> Seq<Seq<u32>>
    decreases k,
{
    if k <= 0 {
        edge_lines(edges)
    } else {
        refined_polylines(
            levels[k].lineage,
            levels[k - 1].topo.edges(),
            levels[k - 1].mesh.vertex_count,
            traced(levels, edges, k - 1),
        )
    }
}

/// The root of each face of level `k`.
pub open spec fn roots<S: Scalar>(levels: Seq<LevelData<S>>, k: int) -> Seq<u32>
    decreases k,
{
    if k <= 0 {
        crate::sqrt3::refine::numbers(levels[0].topo.faces@.len())
    } else {
        levels[k].lineage.face_parent@.map_values(|f: u32| roots(levels, k - 1)[f as int])
    }
}

/// The root of every face is a face of the first level.
pub proof fn roots_are_base_faces<S: Scalar>(
    scheme: Scheme,
    options: SchemeOptions,
    boundary_crease: S,
    levels: Seq<LevelData<S>>,
    k: int,
)
    requires
        chain(scheme, options, boundary_crease, levels),
        0 <= k < levels.len(),
    ensures
        roots(levels, k).len() == levels[k].topo.faces@.len(),
        all_below(roots(levels, k), levels[0].topo.faces@.len() as int),
    decreases k,
{
    assert(level_ok(scheme, levels[0]));
    lemma_level_basics(scheme, levels[0]);
    if k > 0 {
        roots_are_base_faces(scheme, options, boundary_crease, levels, k - 1);
        assert(level_ok(scheme, levels[k - 1]));
        assert(step_fault(scheme, levels[k - 1]) is None);
        refined_faces_have_parents(scheme, options, boundary_crease, levels[k - 1], levels[k]);
        let parents = levels[k].lineage.face_parent@;
        let before = roots(levels, k - 1);
        assert forall|i: int| 0 <= i < parents.len() implies (#[trigger] roots(levels, k)[i])
            < levels[0].topo.faces@.len() by {
            assert(parents[i] < levels[k - 1].topo.faces@.len());
            assert(before[parents[i] as int] < levels[0].topo.faces@.len());
        }
    }
}

// ---------------------------------------------------------------------------
// Face-varying channels
// ---------------------------------------------------------------------------
/// The face-varying stencils from a level to its refinement, for a channel with
/// the given values at the corners.
#[verifier::opaque]
pub open spec fn fvar_rows<S: Scalar>(
    scheme: Scheme,
    options: SchemeOptions,
    parent: LevelData<S>,
    child: LevelData<S>,
    values: Seq<u32>,
    mode: FaceVaryingInterpolation,
) -> Seq<Seq<(u32, S)>> {
    let rows = level_rows(scheme, options, parent);
    match scheme {
        Scheme::CatmullClark => if mode == FaceVaryingInterpolation::Linear {
            crate::catmull_clark::face_varying::cc_linear_rows(parent, values)
        } else {
            smooth_rows(parent, child, values, rows, mode)
        },
        Scheme::Loop | Scheme::Sqrt3 => if mode == FaceVaryingInterpolation::Linear {
            linear_rows(parent, child, values)
        } else {
            smooth_rows(parent, child, values, rows, mode)
        },
        Scheme::DooSabin => if mode == FaceVaryingInterpolation::Linear {
            crate::doo_sabin::face_varying::ds_linear_rows::<S>(flat(child.topo.faces@), values)
        } else {
            crate::doo_sabin::face_varying::ds_smooth_rows(
                parent.topo.faces@,
                flat(child.topo.faces@),
                values,
                rows,
            )
        },
    }
}

/// The smooth modes of the Doo-Sabin scheme are one.
pub proof fn doo_sabin_smooth_modes_coincide<S: Scalar>(
    options: SchemeOptions,
    parent: LevelData<S>,
    child: LevelData<S>,
    values: Seq<u32>,
    a: FaceVaryingInterpolation,
    b: FaceVaryingInterpolation,
)
    requires
        a != FaceVaryingInterpolation::Linear,
        b != FaceVaryingInterpolation::Linear,
    ensures
        fvar_rows(Scheme::DooSabin, options, parent, child, values, a) == fvar_rows(
            Scheme::DooSabin,
            options,
            parent,
            child,
            values,
            b,
        ),
{
    reveal(fvar_rows);
}

/// The origins and parents of a refinement fit its parent level.
#[verifier::rlimit(60)]
pub(crate) proof fn lemma_child_fits<S: Scalar>(
    scheme: Scheme,
    options: SchemeOptions,
    boundary_crease: S,
    parent: LevelData<S>,
    child: LevelData<S>,
)
    requires
        level_ok(scheme, parent),
        step_fault(scheme, parent) is None,
        refines(scheme, options, boundary_crease, parent, child),
    ensures
        child_fits(parent, child, level_rows(scheme, options, parent).len()),
        parent.wf(),
        scheme == Scheme::DooSabin ==> child.n() == flat(parent.topo.faces@).len(),
{
    refined_faces_have_parents(scheme, options, boundary_crease, parent, child);
    level_rows_fit(scheme, options, boundary_crease, parent, child);
    reveal(level_ok);
    reveal(refines);
    let origins = child.lineage.vertex_origin@;
    if scheme == Scheme::DooSabin {
        let faces = parent.topo.faces@;
        crate::connectivity::lemma_corner_counts(faces);
        crate::face_varying::lemma_owners_below(faces);
        assert forall|i: int| 0 <= i < origins.len() implies match #[trigger] origins[i] {
            VertexOrigin::Edge(e) => e < parent.topo.edges().len(),
            VertexOrigin::Vertex(v) => true,
            VertexOrigin::Face(f) => f < faces.len(),
        } by {
            assert(corner_faces_at(faces, i) < faces.len());
        }
    }
}

spec fn corner_faces_at(faces: Seq<Seq<u32>>, i: int) -> u32 {
    crate::connectivity::corner_faces(faces)[i]
}

fn level_row_lists<S: Scalar>(scheme: Scheme, options: &SchemeOptions, level: &LevelData<S>) -> (r: Vec<Vec<(u32, S)>>)
    requires
        level_ok(scheme, *level),
    ensures
        views(r@) == level_rows(scheme, *options, *level),
{
    reveal(level_ok);
    reveal(level_rows);
    match scheme {
        Scheme::CatmullClark => crate::catmull_clark::stencils::vertex_row_lists(level, options),
        Scheme::Loop => crate::loop_subdivision::stencils::vertex_row_lists(level),
        Scheme::Sqrt3 => crate::sqrt3::stencils::vertex_row_lists(level, options),
        Scheme::DooSabin => crate::doo_sabin::stencils::face_vertex_stencils(level, options),
    }
}

fn is_linear(mode: FaceVaryingInterpolation) -> (r: bool)
    ensures
        r == (mode == FaceVaryingInterpolation::Linear),
{
    match mode {
        FaceVaryingInterpolation::Linear => true,
        _ => false,
    }
}

/// The face-varying stencils of one step.
fn fvar_stencils_once<S: Scalar>(
    scheme: Scheme,
    options: &SchemeOptions,
    parent: &LevelData<S>,
    child: &LevelData<S>,
    values: &[u32],
    mode: FaceVaryingInterpolation,
    Ghost(boundary_crease): Ghost<S>,
) -> (r: StencilTable<S>)
    requires
        level_ok(scheme, *parent),
        step_fault(scheme, *parent) is None,
        refines(scheme, *options, boundary_crease, *parent, *child),
        flat(parent.topo.faces@).len() <= values@.len(),
    ensures
        written_from(r, fvar_rows(scheme, *options, *parent, *child, values@, mode)),
{
    reveal(fvar_rows);
    proof {
        lemma_child_fits(scheme, *options, boundary_crease, *parent, *child);
    }
    let linear: bool = is_linear(mode);
    let rows: Vec<Vec<(u32, S)>> = match scheme {
        Scheme::CatmullClark => if linear {
            crate::catmull_clark::face_varying::all_linear_stencils(parent, values)
        } else {
            smooth_modes(parent, child, &level_row_lists(scheme, options, parent), values, mode)
        },
        Scheme::Loop | Scheme::Sqrt3 => if linear {
            all_linear_via_origin(parent, child, values)
        } else {
            smooth_modes(parent, child, &level_row_lists(scheme, options, parent), values, mode)
        },
        Scheme::DooSabin => {
            let verts: &[u32] = child.topo.faces.flat_values();
            proof {
                assert forall|i: int| 0 <= i < verts@.len() implies (#[trigger] verts@[i]) < child.n() by {
                    let (f, c) = lemma_flat_locate(child.topo.faces@, i);
                    assert(child.topo.faces@[f].len() >= 3 && all_below(child.topo.faces@[f], child.n() as int));
                }
            }
            if linear {
                crate::doo_sabin::face_varying::all_linear_copy_corners(verts, values)
            } else {
                crate::doo_sabin::face_varying::smooth_doo_sabin(
                    parent,
                    verts,
                    &level_row_lists(scheme, options, parent),
                    values,
                )
            }
        },
    };
    StencilTable::from_rows(&rows)
}

/// The values at the corners of level `k`: those of the channel at first, then
/// one per corner.
pub open spec fn level_values<S: Scalar>(levels: Seq<LevelData<S>>, channel: FaceVaryingChannel, k: int) -> Seq<u32> {
    if k == 0 {
        channel.indices@
    } else {
        numbers(flat(levels[k].topo.faces@).len())
    }
}

/// The tables are the face-varying stencils of a chain of levels.
pub open spec fn fvar_tables<S: Scalar>(
    scheme: Scheme,
    options: SchemeOptions,
    levels: Seq<LevelData<S>>,
    channel: FaceVaryingChannel,
    mode: FaceVaryingInterpolation,
    tables: Seq<StencilTable<S>>,
) -> bool {
    &&& tables.len() == levels.len() - 1
    &&& forall|k: int|
        0 <= k < tables.len() ==> written_from(
            #[trigger] tables[k],
            fvar_rows(
                scheme,
                options,
                levels[k],
                levels[k + 1],
                level_values(levels, channel, k),
                mode,
            ),
        )
}

/// The channel has a value for each corner, and smooth modes can count them.
pub open spec fn channel_fits(
    channel: FaceVaryingChannel,
    corners: nat,
    scheme: Scheme,
    mode: FaceVaryingInterpolation,
) -> bool {
    &&& corners <= channel.indices@.len()
    &&& (mode != FaceVaryingInterpolation::Linear && scheme != Scheme::DooSabin) ==> all_below(
        channel.indices@,
        channel.value_count as int,
    )
}

/// One value per corner.
fn identity_channel<S: Scalar>(level: &LevelData<S>, scheme: Scheme) -> (r: Vec<u32>)
    requires
        level_ok(scheme, *level),
    ensures
        r@ == numbers(flat(level.topo.faces@).len()),
{
    reveal(level_ok);
    identity_values(level.topo.faces.flat_values().len() as u32)
}

/// Levels of refined topology, ready for stencils.
#[must_use]
pub struct Refinement<S> {
    levels: Vec<LevelData<S>>,
    scheme: Scheme,
    options: SchemeOptions,
    /// Whether the request carried a selection.
    masked: bool,
    edge_polylines: Option<Vec<Vec<u32>>>,
}

/// The last level, taken apart.
#[non_exhaustive]
pub struct RefinedFinalParts<S> {
    pub topology: Mesh<S>,
    pub lineage: LineageMaps,
    pub adjacency: Adjacency,
    /// The selection, if the request carried one.
    pub selected_faces: Option<Vec<bool>>,
    pub edge_polylines: Option<Vec<Vec<u32>>>,
}

pub open spec fn polyline_views(polys: Option<Vec<Vec<u32>>>) -> Option<Seq<Seq<u32>>> {
    match polys {
        Some(p) => Some(views(p@)),
        None => None,
    }
}

impl<S: Scalar> Refinement<S> {
    pub closed spec fn chain_of(self) -> Seq<LevelData<S>> {
        self.levels@
    }

    pub closed spec fn scheme_of(self) -> Scheme {
        self.scheme
    }

    pub closed spec fn options_of(self) -> SchemeOptions {
        self.options
    }

    /// The request carried a selection.
    pub closed spec fn masked_of(self) -> bool {
        self.masked
    }

    /// There is a selection to hand back.
    pub open spec fn has_mask(self) -> bool {
        self.masked_of() && self.chain_of().len() > 1
    }

    pub closed spec fn polylines_of(self) -> Option<Seq<Seq<u32>>> {
        polyline_views(self.edge_polylines)
    }

    /// The levels form a chain.
    pub open spec fn wf(self) -> bool {
        &&& self.chain_of().len() > 0
        &&& exists|crease: S| #[trigger] chain(self.scheme_of(), self.options_of(), crease, self.chain_of())
    }

    pub fn scheme(&self) -> (r: Scheme)
        ensures
            r == self.scheme_of(),
    {
        self.scheme
    }

    /// The stencils of each step.
    pub fn vertex_stencils(&self) -> (r: Vec<StencilTable<S>>)
        requires
            self.wf(),
        ensures
            r@.len() == self.chain_of().len() - 1,
            forall|k: int|
                0 <= k < r@.len() ==> written_from(
                    #[trigger] r@[k],
                    level_rows(self.scheme_of(), self.options_of(), self.chain_of()[k]),
                ),
    {
        let count: usize = self.levels.len() - 1;
        let mut tables: Vec<StencilTable<S>> = Vec::new();
        let mut k: usize = 0;
        while k < count
            invariant
                k <= count,
                count == self.chain_of().len() - 1,
                self.wf(),
                tables@.len() == k,
                forall|j: int|
                    0 <= j < k ==> written_from(
                        #[trigger] tables@[j],
                        level_rows(self.scheme_of(), self.options_of(), self.chain_of()[j]),
                    ),
            decreases count - k,
        {
            assert(level_ok(self.scheme_of(), self.chain_of()[k as int]));
            tables.push(level_stencils(self.scheme, &self.options, &self.levels[k]));
            k += 1;
        }
        tables
    }

    /// The face-varying stencils of each step.
    pub fn face_varying_stencils(&self, channel: &FaceVaryingChannel, mode: FaceVaryingInterpolation) -> (r: Result<
        Vec<StencilTable<S>>,
        KernelError,
    >)
        requires
            self.wf(),
            channel_fits(*channel, flat(self.chain_of()[0].topo.faces@).len(), self.scheme_of(), mode),
        ensures
            r is Ok,
            fvar_tables(self.scheme_of(), self.options_of(), self.chain_of(), *channel, mode, r->Ok_0@),
    {
        let ghost levels = self.chain_of();
        let ghost crease = choose|crease: S| #[trigger]
            chain(self.scheme_of(), self.options_of(), crease, levels);
        let count: usize = self.levels.len() - 1;
        let mut tables: Vec<StencilTable<S>> = Vec::new();
        let mut values: Vec<u32> = copied(&channel.indices);
        let mut k: usize = 0;
        while k < count
            invariant
                k <= count,
                count == levels.len() - 1,
                levels == self.chain_of(),
                chain(self.scheme_of(), self.options_of(), crease, levels),
                values@ == level_values(levels, *channel, k as int),
                flat(levels[k as int].topo.faces@).len() <= values@.len(),
                tables@.len() == k,
                forall|j: int|
                    0 <= j < k ==> written_from(
                        #[trigger] tables@[j],
                        fvar_rows(
                            self.scheme_of(),
                            self.options_of(),
                            levels[j],
                            levels[j + 1],
                            level_values(levels, *channel, j),
                            mode,
                        ),
                    ),
            decreases count - k,
        {
            assert(level_ok(self.scheme_of(), levels[k as int]));
            assert(level_ok(self.scheme_of(), levels[k + 1]));
            assert(step_fault(self.scheme_of(), levels[k as int]) is None);
            tables.push(
                fvar_stencils_once(
                    self.scheme,
                    &self.options,
                    &self.levels[k],
                    &self.levels[k + 1],
                    &values,
                    mode,
                    Ghost(crease),
                ),
            );
            values = identity_channel(&self.levels[k + 1], self.scheme);
            k += 1;
        }
        Ok(tables)
    }

    /// The mesh of the last level.
    pub fn final_topology(&self) -> (r: &Mesh<S>)
        requires
            self.wf(),
        ensures
            *r == self.chain_of().last().mesh,
    {
        &self.levels[self.levels.len() - 1].mesh
    }

    /// Where the elements of the last level come from.
    pub fn lineage(&self) -> (r: &LineageMaps)
        requires
            self.wf(),
        ensures
            *r == self.chain_of().last().lineage,
    {
        &self.levels[self.levels.len() - 1].lineage
    }

    /// The adjacency tables of the last level.
    pub fn adjacency(&self) -> (r: &Adjacency)
        requires
            self.wf(),
        ensures
            *r == self.chain_of().last().adjacency,
    {
        &self.levels[self.levels.len() - 1].adjacency
    }

    /// The original edges, traced to the last level.
    pub fn edge_polylines(&self) -> (r: Option<&Vec<Vec<u32>>>)
        ensures
            match r {
                Some(p) => self.polylines_of() == Some(views(p@)),
                None => self.polylines_of() is None,
            },
    {
        match &self.edge_polylines {
            Some(p) => Some(p),
            None => None,
        }
    }

    /// The selection in the last level, if the request carried one and anything
    /// was refined.
    pub fn selected_faces(&self) -> (r: Option<&[bool]>)
        requires
            self.wf(),
        ensures
            match r {
                Some(s) => self.has_mask() && s@ == self.chain_of().last().face_selected@,
                None => !self.has_mask(),
            },
    {
        if !self.masked || self.levels.len() <= 1 {
            return None;
        }
        Some(self.levels[self.levels.len() - 1].face_selected.as_slice())
    }

    /// Number of refinement steps.
    pub fn refinement_steps(&self) -> (r: usize)
        requires
            self.wf(),
        ensures
            r == self.chain_of().len() - 1,
    {
        self.levels.len().saturating_sub(1)
    }

    /// Where the elements that step `step` made come from.
    pub fn level_lineage(&self, step: usize) -> (r: Option<&LineageMaps>)
        requires
            self.wf(),
        ensures
            match r {
                Some(l) => step + 1 < self.chain_of().len() && *l == self.chain_of()[step + 1].lineage,
                None => step + 1 >= self.chain_of().len(),
            },
    {
        if step < self.levels.len() - 1 {
            Some(&self.levels[step + 1].lineage)
        } else {
            None
        }
    }

    /// The last level, without copies.
    pub fn into_final_parts(self) -> (r: RefinedFinalParts<S>)
        requires
            self.wf(),
        ensures
            r.topology == self.chain_of().last().mesh,
            r.lineage == self.chain_of().last().lineage,
            r.adjacency == self.chain_of().last().adjacency,
            r.selected_faces == (if self.has_mask() {
                Some(self.chain_of().last().face_selected)
            } else {
                None
            }),
            polyline_views(r.edge_polylines) == self.polylines_of(),
    {
        let Refinement { levels, scheme: _, options: _, masked, edge_polylines } = self;
        let mut levels: Vec<LevelData<S>> = levels;
        let last: LevelData<S> = levels.pop().unwrap();
        let LevelData {
            mesh,
            topo: _,
            face_selected,
            effective_edge_creases: _,
            edge_has_selected_face: _,
            effective_vertex_corners: _,
            lineage,
            adjacency,
        } = last;
        RefinedFinalParts {
            topology: mesh,
            lineage,
            adjacency,
            selected_faces: if masked && levels.len() > 0 {
                Some(face_selected)
            } else {
                None
            },
            edge_polylines,
        }
    }
}

/// A mesh with the scheme that refines it.
pub struct Refiner<S> {
    topology: Mesh<S>,
    scheme: Scheme,
    options: SchemeOptions,
}

/// The faces to refine: those asked for, or all.
pub open spec fn active_of(requested: Option<Vec<bool>>, face_count: nat) -> Seq<bool> {
    match requested {
        Some(mask) => mask@,
        None => Seq::new(face_count, |i: int| true),
    }
}

impl<S: Scalar> Refiner<S> {
    pub closed spec fn mesh(self) -> Mesh<S> {
        self.topology
    }

    pub closed spec fn scheme_of(self) -> Scheme {
        self.scheme
    }

    pub closed spec fn options_of(self) -> SchemeOptions {
        self.options
    }

    /// The mesh keeps the rules of `Mesh::validate`.
    pub open spec fn wf(self) -> bool {
        self.mesh().broken_rule() is None
    }

    /// Takes a mesh that keeps the rules.
    pub fn new(topology: Mesh<S>, scheme: Scheme, options: SchemeOptions) -> (r: Result<Self, KernelError>)
        ensures
            match topology.broken_rule() {
                Some(rule) => r == Err::<Self, _>(KernelError::InvalidTopology(rule)),
                None => r is Ok && r->Ok_0.wf() && r->Ok_0.mesh() == topology && r->Ok_0.scheme_of() == scheme
                    && r->Ok_0.options_of() == options,
            },
    {
        match topology.validate() {
            Ok(_) => Ok(Refiner { topology, scheme, options }),
            Err(error) => Err(error),
        }
    }

    pub fn topology(&self) -> (r: &Mesh<S>)
        ensures
            *r == self.mesh(),
    {
        &self.topology
    }

    pub fn scheme(&self) -> (r: Scheme)
        ensures
            r == self.scheme_of(),
    {
        self.scheme
    }

    pub fn options(&self) -> (r: &SchemeOptions)
        ensures
            *r == self.options_of(),
    {
        &self.options
    }

    /// The faces to refine: those asked for, or all.
    fn active_selection(&self, req: &UniformRefine<S>) -> (r: Result<Vec<bool>, KernelError>)
        ensures
            match r {
                Ok(mask) => self.mask_fits(*req) && mask@ == active_of(
                    req.selected_faces,
                    self.mesh().face_vertex_counts@.len(),
                ),
                Err(error) => !self.mask_fits(*req) && error == KernelError::InvalidTopology(
                    "selected-face mask length does not match face count",
                ),
            },
    {
        let count: usize = self.topology.face_vertex_counts.len();
        match &req.selected_faces {
            Some(mask) => {
                if mask.len() == count {
                    Ok(copied(mask))
                } else {
                    Err(KernelError::InvalidTopology("selected-face mask length does not match face count"))
                }
            },
            None => {
                let mut all: Vec<bool> = Vec::new();
                let mut i: usize = 0;
                while i < count
                    invariant
                        i <= count,
                        all@.len() == i,
                        forall|j: int| 0 <= j < i ==> all@[j],
                    decreases count - i,
                {
                    all.push(true);
                    i += 1;
                }
                assert(all@ =~= Seq::new(count as nat, |i: int| true));
                Ok(all)
            },
        }
    }

    /// The selection has one entry per face.
    pub open spec fn mask_fits(self, req: UniformRefine<S>) -> bool {
        match req.selected_faces {
            Some(mask) => mask@.len() == self.mesh().face_vertex_counts@.len(),
            None => true,
        }
    }

    /// The levels are those that a request asks for, as far as they go.
    pub open spec fn begins(self, req: UniformRefine<S>, levels: Seq<LevelData<S>>) -> bool {
        &&& levels.len() > 0
        &&& is_base(
            self.scheme_of(),
            self.options_of(),
            self.mesh(),
            active_of(req.selected_faces, self.mesh().face_vertex_counts@.len()),
            req.selection_boundary_crease,
            levels[0],
        )
        &&& chain(self.scheme_of(), self.options_of(), req.selection_boundary_crease, levels)
    }

    /// The error of a request. A later level is at fault where a chain of
    /// levels ends in one that cannot be refined.
    pub open spec fn fails(self, req: UniformRefine<S>, error: KernelError) -> bool {
        let active = active_of(req.selected_faces, self.mesh().face_vertex_counts@.len());
        if !self.mask_fits(req) {
            error == KernelError::InvalidTopology("selected-face mask length does not match face count")
        } else {
            match base_fault(self.scheme_of(), self.mesh(), active) {
                Some(text) => error == KernelError::InvalidTopology(text),
                None => exists|levels: Seq<LevelData<S>>| #[trigger]
                    self.begins(req, levels) && levels.len() <= req.levels && (match step_fault(
                        self.scheme_of(),
                        levels.last(),
                    ) {
                        Some(text) => error == KernelError::InvalidTopology(text),
                        None => false,
                    }),
            }
        }
    }

    /// The refinement that a request asks for.
    pub open spec fn refined_to(self, req: UniformRefine<S>, r: Refinement<S>) -> bool {
        &&& self.mask_fits(req)
        &&& base_fault(
            self.scheme_of(),
            self.mesh(),
            active_of(req.selected_faces, self.mesh().face_vertex_counts@.len()),
        ) is None
        &&& r.scheme_of() == self.scheme_of()
        &&& r.options_of() == self.options_of()
        &&& r.masked_of() == (req.selected_faces is Some)
        &&& r.chain_of().len() == req.levels + 1
        &&& self.begins(req, r.chain_of())
        &&& r.polylines_of() == (if req.edge_polylines && self.scheme_of() != Scheme::DooSabin {
            Some(traced(r.chain_of(), pairs(self.mesh().edge_vertices@), req.levels as int))
        } else {
            None
        })
    }

    /// Refines the mesh.
    pub fn refine_topology(&self, req: &UniformRefine<S>) -> (r: Result<Refinement<S>, KernelError>)
        requires
            self.wf(),
        ensures
            match r {
                Ok(refinement) => self.refined_to(*req, refinement) && refinement.wf(),
                Err(error) => self.fails(*req, error),
            },
    {
        let active: Vec<bool> = match self.active_selection(req) {
            Ok(active) => active,
            Err(error) => {
                return Err(error);
            },
        };
        let base: LevelData<S> = match base_level_data(
            self.scheme,
            &self.options,
            &self.topology,
            active,
            req.selection_boundary_crease,
        ) {
            Ok(base) => base,
            Err(error) => {
                return Err(error);
            },
        };
        let ghost edges = pairs(self.topology.edge_vertices@);
        let trace: bool = req.edge_polylines && !is_doo_sabin(self.scheme);
        let mut polylines: Vec<Vec<u32>> = if trace {
            start_polylines(&self.topology.edge_vertices)
        } else {
            Vec::new()
        };
        let mut levels: Vec<LevelData<S>> = Vec::new();
        levels.push(base);
        let mut k: u8 = 0;
        while k < req.levels
            invariant
                k <= req.levels,
                levels@.len() == k + 1,
                self.wf(),
                self.mask_fits(*req),
                base_fault(
                    self.scheme_of(),
                    self.mesh(),
                    active_of(req.selected_faces, self.mesh().face_vertex_counts@.len()),
                ) is None,
                self.begins(*req, levels@),
                trace ==> self.scheme_of() != Scheme::DooSabin,
                edges == pairs(self.mesh().edge_vertices@),
                trace ==> views(polylines@) == traced(levels@, edges, k as int),
            decreases req.levels - k,
        {
            let parent: &LevelData<S> = &levels[levels.len() - 1];
            assert(level_ok(self.scheme_of(), levels@[k as int]));
            let child: LevelData<S> = match refine_once(
                self.scheme,
                &self.options,
                req.selection_boundary_crease,
                parent,
            ) {
                Ok(child) => child,
                Err(error) => {
                    assert(self.begins(*req, levels@));
                    return Err(error);
                },
            };
            if trace {
                proof {
                    lemma_origins_traceable(
                        self.scheme_of(),
                        self.options_of(),
                        req.selection_boundary_crease,
                        *parent,
                        child,
                    );
                }
                polylines = refine_polylines(
                    &polylines,
                    &child.lineage,
                    &parent.topo.edge_vertices,
                    parent.mesh.vertex_count,
                );
            }
            let ghost before = levels@;
            levels.push(child);
            proof {
                lemma_traced_prefix(before, levels@, edges, k as int);
                assert forall|j: int| 0 <= j < levels@.len() implies level_ok(
                    self.scheme_of(),
                    #[trigger] levels@[j],
                ) by {
                    if j <= k {
                        assert(levels@[j] == before[j]);
                    }
                }
                assert forall|j: int| #![trigger levels@[j]] 0 <= j < levels@.len() - 1 implies step_fault(
                    self.scheme_of(),
                    levels@[j],
                ) is None && refines(
                    self.scheme_of(),
                    self.options_of(),
                    req.selection_boundary_crease,
                    levels@[j],
                    levels@[j + 1],
                ) by {
                    assert(levels@[j] == before[j]);
                    if j < k {
                        assert(levels@[j + 1] == before[j + 1]);
                        assert(step_fault(self.scheme_of(), before[j]) is None);
                    }
                }
            }
            k += 1;
        }
        let edge_polylines: Option<Vec<Vec<u32>>> = if trace {
            Some(polylines)
        } else {
            None
        };
        let masked: bool = req.selected_faces.is_some();
        let refinement = Refinement { levels, scheme: self.scheme, options: self.options, masked, edge_polylines };
        assert(chain(
            refinement.scheme_of(),
            refinement.options_of(),
            req.selection_boundary_crease,
            refinement.chain_of(),
        ));
        Ok(refinement)
    }

    /// The face-varying stencils of each step that a request asks for.
    pub fn face_varying_stencils(
        &self,
        req: &UniformRefine<S>,
        channel: &FaceVaryingChannel,
        mode: FaceVaryingInterpolation,
    ) -> (r: Result<Vec<StencilTable<S>>, KernelError>)
        requires
            self.wf(),
            channel_fits(*channel, self.mesh().face_vertex_indices@.len(), self.scheme_of(), mode),
        ensures
            match r {
                Ok(tables) => exists|levels: Seq<LevelData<S>>| #[trigger]
                    self.begins(*req, levels) && levels.len() == req.levels + 1 && fvar_tables(
                        self.scheme_of(),
                        self.options_of(),
                        levels,
                        *channel,
                        mode,
                        tables@,
                    ),
                Err(error) => self.fails(*req, error),
            },
    {
        let untraced = UniformRefine {
            levels: req.levels,
            selected_faces: match &req.selected_faces {
                Some(mask) => Some(copied(mask)),
                None => None,
            },
            selection_boundary_crease: req.selection_boundary_crease,
            edge_polylines: false,
        };
        assert(active_of(untraced.selected_faces, self.mesh().face_vertex_counts@.len()) == active_of(
            req.selected_faces,
            self.mesh().face_vertex_counts@.len(),
        ));
        let refined: Refinement<S> = match self.refine_topology(&untraced) {
            Ok(refined) => refined,
            Err(error) => {
                proof {
                    self.lemma_fails_same(untraced, *req, error);
                }
                return Err(error);
            },
        };
        proof {
            lemma_base_corners(
                self.scheme_of(),
                self.options_of(),
                self.mesh(),
                active_of(req.selected_faces, self.mesh().face_vertex_counts@.len()),
                req.selection_boundary_crease,
                refined.chain_of()[0],
            );
            assert(self.begins(*req, refined.chain_of()));
        }
        refined.face_varying_stencils(channel, mode)
    }

    /// Whether polylines are asked for makes no difference to the error.
    proof fn lemma_fails_same(self, a: UniformRefine<S>, b: UniformRefine<S>, error: KernelError)
        requires
            a.levels == b.levels,
            a.selection_boundary_crease == b.selection_boundary_crease,
            self.mask_fits(a) == self.mask_fits(b),
            active_of(a.selected_faces, self.mesh().face_vertex_counts@.len()) == active_of(
                b.selected_faces,
                self.mesh().face_vertex_counts@.len(),
            ),
            self.fails(a, error),
        ensures
            self.fails(b, error),
    {
        let active = active_of(a.selected_faces, self.mesh().face_vertex_counts@.len());
        if self.mask_fits(a) && base_fault(self.scheme_of(), self.mesh(), active) is None {
            let levels = choose|levels: Seq<LevelData<S>>| #[trigger]
                self.begins(a, levels) && levels.len() <= a.levels && (match step_fault(
                    self.scheme_of(),
                    levels.last(),
                ) {
                    Some(text) => error == KernelError::InvalidTopology(text),
                    None => false,
                });
            assert(self.begins(b, levels));
        }
    }

    /// Refines the mesh and makes the stencils of all steps.
    pub fn refine_uniform(&self, req: &UniformRefine<S>) -> (r: Result<RefinementResult<S>, KernelError>)
        requires
            self.wf(),
        ensures
            match r {
                Ok(result) => exists|refinement: Refinement<S>|
                    self.refined_to(*req, refinement) && refinement.wf() && #[trigger] result_of(refinement, result),
                Err(error) => self.fails(*req, error),
            },
            r is Ok ==> (r->Ok_0.selected_faces is Some <==> req.selected_faces is Some && req.levels > 0),
    {
        let refined: Refinement<S> = match self.refine_topology(req) {
            Ok(refined) => refined,
            Err(error) => {
                return Err(error);
            },
        };
        let level_stencils: Vec<StencilTable<S>> = refined.vertex_stencils();
        let face_root: Vec<u32> = face_roots(&refined);
        let result = RefinementResult {
            topology: copy_mesh(refined.final_topology()),
            level_stencils,
            lineage: copy_lineage(refined.lineage()),
            face_root,
            selected_faces: match refined.selected_faces() {
                Some(s) => Some(copied(s)),
                None => None,
            },
            edge_polylines: match refined.edge_polylines() {
                Some(p) => Some(copy_polylines(p)),
                None => None,
            },
            adjacency: copy_adjacency(refined.adjacency()),
            scheme: self.scheme,
            options: self.options,
        };
        assert(result_of(refined, result));
        Ok(result)
    }
}

fn is_doo_sabin(scheme: Scheme) -> (r: bool)
    ensures
        r == (scheme == Scheme::DooSabin),
{
    match scheme {
        Scheme::DooSabin => true,
        _ => false,
    }
}

/// The result of a refinement: its last level, and the stencils of all steps.
pub open spec fn result_of<S: Scalar>(refinement: Refinement<S>, result: RefinementResult<S>) -> bool {
    let levels = refinement.chain_of();
    let last = levels.last();
    &&& same_mesh(result.topology, last.mesh)
    &&& result.level_stencils@.len() == levels.len() - 1
    &&& forall|k: int|
        0 <= k < result.level_stencils@.len() ==> written_from(
            #[trigger] result.level_stencils@[k],
            level_rows(refinement.scheme_of(), refinement.options_of(), levels[k]),
        )
    &&& same_lineage(result.lineage, last.lineage)
    &&& result.face_root@ == roots(levels, levels.len() - 1)
    &&& match result.selected_faces {
        Some(s) => refinement.has_mask() && s@ == last.face_selected@,
        None => !refinement.has_mask(),
    }
    &&& polyline_views(result.edge_polylines) == refinement.polylines_of()
    &&& same_adjacency(result.adjacency, last.adjacency)
    &&& result.scheme == refinement.scheme_of()
    &&& result.options == refinement.options_of()
}

fn copy_polylines(polys: &[Vec<u32>]) -> (r: Vec<Vec<u32>>)
    ensures
        views(r@) == views(polys@),
{
    let mut out: Vec<Vec<u32>> = Vec::new();
    let mut i: usize = 0;
    while i < polys.len()
        invariant
            i <= polys.len(),
            views(out@) == views(polys@).take(i as int),
        decreases polys.len() - i,
    {
        let ghost before = views(out@);
        let line: Vec<u32> = copied(&polys[i]);
        out.push(line);
        assert(views(out@) =~= before.push(line@));
        i += 1;
        assert(views(out@) =~= views(polys@).take(i as int));
    }
    assert(views(out@) =~= views(polys@));
    out
}

fn start_polylines(edges: &[[u32; 2]]) -> (r: Vec<Vec<u32>>)
    ensures
        views(r@) == edge_lines(pairs(edges@)),
{
    let ghost all = edge_lines(pairs(edges@));
    let mut out: Vec<Vec<u32>> = Vec::new();
    let mut i: usize = 0;
    while i < edges.len()
        invariant
            i <= edges.len(),
            all == edge_lines(pairs(edges@)),
            views(out@) == all.take(i as int),
        decreases edges.len() - i,
    {
        let ghost before = views(out@);
        let mut line: Vec<u32> = Vec::new();
        line.push(edges[i][0]);
        line.push(edges[i][1]);
        assert(line@ =~= all[i as int]);
        out.push(line);
        assert(views(out@) =~= before.push(line@));
        i += 1;
        assert(views(out@) =~= all.take(i as int));
    }
    assert(views(out@) =~= all);
    out
}

/// A level that can be refined has sound tables.
proof fn lemma_level_basics<S: Scalar>(scheme: Scheme, level: LevelData<S>)
    requires
        level_ok(scheme, level),
    ensures
        level.topo.faces.wf(),
        level.topo.faces@.len() <= u32::MAX,
{
    reveal(level_ok);
}

/// The root of each face of the last level.
fn face_roots<S: Scalar>(refined: &Refinement<S>) -> (r: Vec<u32>)
    requires
        refined.wf(),
    ensures
        r@ == roots(refined.chain_of(), refined.chain_of().len() - 1),
{
    let ghost levels = refined.chain_of();
    let ghost crease = choose|crease: S| #[trigger]
        chain(refined.scheme_of(), refined.options_of(), crease, levels);
    assert(level_ok(refined.scheme_of(), levels[0]));
    proof {
        lemma_level_basics(refined.scheme_of(), levels[0]);
    }
    let count: usize = refined.levels[0].topo.faces.len();
    let mut root: Vec<u32> = Vec::new();
    let mut i: usize = 0;
    while i < count
        invariant
            i <= count <= u32::MAX,
            root@ == crate::sqrt3::refine::numbers(count as nat).take(i as int),
        decreases count - i,
    {
        root.push(i as u32);
        i += 1;
        assert(root@ =~= crate::sqrt3::refine::numbers(count as nat).take(i as int));
    }
    assert(root@ =~= roots(levels, 0));
    let steps: usize = refined.refinement_steps();
    let mut k: usize = 0;
    while k < steps
        invariant
            k <= steps,
            steps == levels.len() - 1,
            levels == refined.chain_of(),
            chain(refined.scheme_of(), refined.options_of(), crease, levels),
            root@ == roots(levels, k as int),
        decreases steps - k,
    {
        proof {
            roots_are_base_faces(refined.scheme_of(), refined.options_of(), crease, levels, k as int);
            assert(level_ok(refined.scheme_of(), levels[k as int]));
            assert(step_fault(refined.scheme_of(), levels[k as int]) is None);
            refined_faces_have_parents(
                refined.scheme_of(),
                refined.options_of(),
                crease,
                levels[k as int],
                levels[k + 1],
            );
        }
        let parents: &Vec<u32> = &refined.levels[k + 1].lineage.face_parent;
        let ghost all = roots(levels, k + 1);
        let mut next: Vec<u32> = Vec::new();
        let mut j: usize = 0;
        while j < parents.len()
            invariant
                j <= parents.len(),
                parents@ == levels[k + 1].lineage.face_parent@,
                all_below(parents@, root@.len() as int),
                root@ == roots(levels, k as int),
                all == roots(levels, k + 1),
                next@ == all.take(j as int),
                k >= 0,
                all.len() == parents@.len(),
            decreases parents.len() - j,
        {
            assert(parents@[j as int] < root@.len());
            next.push(root[parents[j] as usize]);
            j += 1;
            assert(next@ =~= all.take(j as int));
        }
        assert(next@ =~= all);
        root = next;
        k += 1;
    }
    root
}

proof fn lemma_traced_prefix<S: Scalar>(
    a: Seq<LevelData<S>>,
    b: Seq<LevelData<S>>,
    edges: Seq<EdgeKey>,
    k: int,
)
    requires
        0 <= k < a.len() <= b.len(),
        forall|j: int| 0 <= j < a.len() ==> a[j] == b[j],
    ensures
        traced(a, edges, k) == traced(b, edges, k),
    decreases k,
{
    if k > 0 {
        lemma_traced_prefix(a, b, edges, k - 1);
    }
}

/// The origins of a refinement are elements of the parent.
proof fn lemma_origins_traceable<S: Scalar>(
    scheme: Scheme,
    options: SchemeOptions,
    boundary_crease: S,
    parent: LevelData<S>,
    child: LevelData<S>,
)
    requires
        level_ok(scheme, parent),
        refines(scheme, options, boundary_crease, parent, child),
        scheme != Scheme::DooSabin,
    ensures
        child.lineage.vertex_origin@.len() <= u32::MAX,
        forall|i: int|
            0 <= i < child.lineage.vertex_origin@.len() ==> match #[trigger] child.lineage.vertex_origin@[i] {
                VertexOrigin::Vertex(v) => v < parent.n(),
                VertexOrigin::Edge(e) => e < parent.topo.edges().len() && scheme != Scheme::Sqrt3,
                VertexOrigin::Face(f) => true,
            },
{
    reveal(level_ok);
    reveal(refines);
}

/// A base level has the corners of its mesh.
proof fn lemma_base_corners<S: Scalar>(
    scheme: Scheme,
    options: SchemeOptions,
    mesh: Mesh<S>,
    selected: Seq<bool>,
    boundary_crease: S,
    level: LevelData<S>,
)
    requires
        is_base(scheme, options, mesh, selected, boundary_crease, level),
    ensures
        flat(level.topo.faces@).len() == mesh.face_vertex_indices@.len(),
{
    reveal(is_base);
    reveal(level_ok);
}

} // verus!
