//! Cutting a quad with its surroundings out of a refined mesh and refining it
//! once more.

use crate::connectivity::{distinct, edge_key_of, lemma_distinct, next_corner, pairs};
use crate::error::KernelError;
use crate::hashing::{sort_dedup, strictly_ascending};
use crate::interpolate::Interpolatable;
use crate::inverse::{chain_values, chain_width, table_rows};
use crate::level::all_true;
use crate::limit::{find_place, is_place, limit_ready, place_of};
use crate::options::{Scheme, SchemeOptions, UniformRefine};
use crate::output::{tables_fit, RefinementResult, VertexOrigin};
use crate::patch::{patch_outcome, PatchTable};
use crate::refiner::{active_of, result_of, Refinement, Refiner};
use crate::results::{full_refinement_has_limits, quads_linked, refinement_tables_fit};
use crate::ring::{faces_at, faces_slice, quad_at, quad_edge, quad_slice, quads_ok};
use crate::rows::{flat, lemma_flat_take_next};
use crate::scalar::{zero_of, Scalar};
use crate::sharpness::{is_positive, positive};
use crate::topology::{all_below, Adjacency, Mesh};
use vstd::prelude::*;

verus! {

/// A refined mesh in which single quads can be looked at.
pub open spec fn eval_ready<S>(mesh: Mesh<S>, adj: Adjacency) -> bool {
    limit_ready(mesh, adj) && quads_linked(mesh, adj)
}

// ---------------------------------------------------------------------------
// Support
// ---------------------------------------------------------------------------
/// Face `f` touches a corner of quad `face`.
pub open spec fn touches<S>(mesh: Mesh<S>, adj: Adjacency, face: int, f: u32) -> bool {
    exists|c: int| 0 <= c < 4 && (#[trigger] faces_at(adj, quad_at(mesh, face)[c] as int)).contains(f)
}

/// The faces that touch a quad, in ascending order.
pub open spec fn is_support<S>(mesh: Mesh<S>, adj: Adjacency, face: int, support: Seq<u32>) -> bool {
    &&& strictly_ascending(support)
    &&& forall|f: u32| #[trigger] support.contains(f) <==> touches(mesh, adj, face, f)
}

/// The corners of the support, face by face.
pub open spec fn support_corners<S>(mesh: Mesh<S>, support: Seq<u32>) -> Seq<u32> {
    flat(support.map_values(|f: u32| quad_at(mesh, f as int)))
}

/// The vertices of the support, in order of first appearance.
pub open spec fn sub_vertices_of<S>(mesh: Mesh<S>, support: Seq<u32>) -> Seq<u32> {
    distinct(support_corners(mesh, support))
}

/// The number of a vertex in the support.
pub open spec fn number_in(list: Seq<u32>, v: u32) -> u32 {
    place_of(list, v)->Some_0 as u32
}

/// Edge `e` is a sharp edge of the support.
pub open spec fn sharp_in<S: Scalar>(mesh: Mesh<S>, adj: Adjacency, support: Seq<u32>, e: u32) -> bool {
    &&& positive(mesh.edge_creases@[e as int])
    &&& exists|i: int, k: int|
        0 <= i < support.len() && 0 <= k < 4 && #[trigger] adj.face_edges@[4 * support[i] + k] == e
}

/// The sharp edges of the support, in ascending order.
pub open spec fn is_sharp_list<S: Scalar>(mesh: Mesh<S>, adj: Adjacency, support: Seq<u32>, sharp: Seq<u32>) -> bool {
    &&& strictly_ascending(sharp)
    &&& forall|e: u32| #[trigger] sharp.contains(e) <==> sharp_in(mesh, adj, support, e)
}

/// The mesh of a support.
pub open spec fn is_submesh<S: Scalar>(mesh: Mesh<S>, support: Seq<u32>, sharp: Seq<u32>, sub: Mesh<S>) -> bool {
    let verts = sub_vertices_of(mesh, support);
    &&& sub.vertex_count == verts.len()
    &&& sub.face_vertex_counts@ == Seq::new(support.len(), |f: int| 4u32)
    &&& sub.face_vertex_indices@ == support_corners(mesh, support).map_values(|v: u32| number_in(verts, v))
    &&& pairs(sub.edge_vertices@) == sharp.map_values(
        |e: u32|
            (
                number_in(verts, pairs(mesh.edge_vertices@)[e as int].0),
                number_in(verts, pairs(mesh.edge_vertices@)[e as int].1),
            ),
    )
    &&& sub.edge_creases@ == sharp.map_values(|e: u32| mesh.edge_creases@[e as int])
    &&& sub.vertex_corners@ == verts.map_values(|v: u32| mesh.vertex_corners@[v as int])
}

/// An ascending list of numbers below `n` has at most `n` of them.
proof fn lemma_ascending_len(list: Seq<u32>, n: int)
    requires
        strictly_ascending(list),
        all_below(list, n),
    ensures
        list.len() <= n || list.len() == 0,
{
    if list.len() > 0 {
        lemma_ascending_grows(list, list.len() - 1);
        assert(list[list.len() - 1] < n);
    }
}

proof fn lemma_ascending_grows(list: Seq<u32>, i: int)
    requires
        strictly_ascending(list),
        0 <= i < list.len(),
    ensures
        i <= list[i],
    decreases i,
{
    if i > 0 {
        lemma_ascending_grows(list, i - 1);
        assert(list[i - 1] < list[i]);
    }
}

/// The faces that touch a quad.
pub(crate) fn collect_support<S: Scalar>(mesh: &Mesh<S>, adj: &Adjacency, face: u32) -> (r: Vec<u32>)
    requires
        quads_ok(*mesh, *adj),
        face < mesh.face_vertex_counts@.len(),
    ensures
        is_support(*mesh, *adj, face as int, r@),
        all_below(r@, mesh.face_vertex_counts@.len() as int),
{
    let ghost nf = mesh.face_vertex_counts@.len() as int;
    let corners: &[u32] = quad_slice(mesh, Ghost(*adj), face as usize);
    let mut all: Vec<u32> = Vec::new();
    let mut c: usize = 0;
    while c < 4
        invariant
            c <= 4,
            quads_ok(*mesh, *adj),
            corners@ == quad_at(*mesh, face as int),
            corners@.len() == 4,
            all_below(corners@, mesh.vertex_count as int),
            nf == mesh.face_vertex_counts@.len(),
            all_below(all@, nf),
            forall|f: u32| #[trigger]
                all@.contains(f) <==> exists|d: int|
                    0 <= d < c && (#[trigger] faces_at(*adj, quad_at(*mesh, face as int)[d] as int)).contains(f),
        decreases 4 - c,
    {
        assert(corners@[c as int] < mesh.vertex_count);
        let list: &[u32] = faces_slice(mesh, adj, corners[c] as usize);
        let ghost before = all@;
        let mut k: usize = 0;
        assert(before + list@.take(0) =~= before);
        while k < list.len()
            invariant
                k <= list.len(),
                all_below(list@, nf),
                all_below(all@, nf),
                all@ == before + list@.take(k as int),
            decreases list.len() - k,
        {
            assert(list@[k as int] < nf);
            all.push(list[k]);
            k += 1;
            assert(all@ =~= before + list@.take(k as int));
        }
        assert(list@.take(k as int) =~= list@);
        assert forall|f: u32| #[trigger] all@.contains(f) <==> exists|d: int|
            0 <= d < c + 1 && (#[trigger] faces_at(*adj, quad_at(*mesh, face as int)[d] as int)).contains(f) by {
            assert(all@.contains(f) <==> before.contains(f) || list@.contains(f)) by {
                if before.contains(f) {
                    let q = before.index_of(f);
                    assert(all@[q] == f);
                }
                if list@.contains(f) {
                    let q = list@.index_of(f);
                    assert(all@[before.len() + q] == f);
                }
                if all@.contains(f) {
                    let q = all@.index_of(f);
                    if q < before.len() {
                        assert(before[q] == f);
                    } else {
                        assert(list@[q - before.len()] == f);
                    }
                }
            }
            if list@.contains(f) {
                assert(faces_at(*adj, quad_at(*mesh, face as int)[c as int] as int).contains(f));
            }
        }
        c += 1;
    }
    let ghost gathered = all@;
    sort_dedup(&mut all);
    proof {
        assert forall|f: u32| #[trigger] all@.contains(f) <==> gathered.contains(f) by {
            assert(all@.to_set().contains(f) <==> gathered.to_set().contains(f));
        }
        assert forall|k: int| 0 <= k < all@.len() implies (#[trigger] all@[k]) < nf by {
            assert(all@.contains(all@[k]));
            let q = gathered.index_of(all@[k]);
            assert(gathered[q] < nf);
        }
        assert forall|f: u32| #[trigger] all@.contains(f) <==> touches(*mesh, *adj, face as int, f) by {
            assert(gathered.contains(f) <==> touches(*mesh, *adj, face as int, f));
        }
    }
    all
}

/// Numbers the vertices of the support.
fn number_corners<S: Scalar>(mesh: &Mesh<S>, Ghost(adj): Ghost<Adjacency>, support: &[u32]) -> (r: (
    Vec<u32>,
    Vec<u32>,
))
    requires
        quads_ok(*mesh, adj),
        all_below(support@, mesh.face_vertex_counts@.len() as int),
        4 * support@.len() <= u32::MAX,
    ensures
        r.0@ == sub_vertices_of(*mesh, support@),
        r.1@ == support_corners(*mesh, support@).map_values(
            |v: u32| number_in(sub_vertices_of(*mesh, support@), v),
        ),
        all_below(r.0@, mesh.vertex_count as int),
        all_below(r.1@, r.0@.len() as int),
        r.0@.len() <= u32::MAX,
        r.1@.len() == 4 * support@.len(),
{
    let ghost rows = support@.map_values(|f: u32| quad_at(*mesh, f as int));
    let ghost corners = support_corners(*mesh, support@);
    let mut verts: Vec<u32> = Vec::new();
    let mut flat_corners: Vec<u32> = Vec::new();
    let mut i: usize = 0;
    assert(rows.take(0) =~= Seq::<Seq<u32>>::empty());
    assert(distinct(Seq::<u32>::empty()) =~= Seq::<u32>::empty());
    while i < support.len()
        invariant
            i <= support.len(),
            quads_ok(*mesh, adj),
            all_below(support@, mesh.face_vertex_counts@.len() as int),
            rows == support@.map_values(|f: u32| quad_at(*mesh, f as int)),
            flat_corners@ == flat(rows.take(i as int)),
            flat_corners@.len() == 4 * i,
            all_below(flat_corners@, mesh.vertex_count as int),
            verts@ == distinct(flat_corners@),
        decreases support.len() - i,
    {
        assert(support@[i as int] < mesh.face_vertex_counts@.len());
        let quad: &[u32] = quad_slice(mesh, Ghost(adj), support[i] as usize);
        let ghost before = flat_corners@;
        let mut k: usize = 0;
        assert(before + quad@.take(0) =~= before);
        while k < 4
            invariant
                k <= 4,
                quad@.len() == 4,
                all_below(quad@, mesh.vertex_count as int),
                all_below(flat_corners@, mesh.vertex_count as int),
                flat_corners@ == before + quad@.take(k as int),
                verts@ == distinct(flat_corners@),
            decreases 4 - k,
        {
            assert(quad@[k as int] < mesh.vertex_count);
            let v: u32 = quad[k];
            let ghost seen = flat_corners@;
            flat_corners.push(v);
            assert(flat_corners@.drop_last() =~= seen);
            if !crate::connectivity::has_item(&verts, v) {
                verts.push(v);
            }
            k += 1;
            assert(flat_corners@ =~= before + quad@.take(k as int));
        }
        assert(quad@.take(k as int) =~= quad@);
        proof {
            lemma_flat_take_next(rows, i as int);
        }
        i += 1;
    }
    assert(rows.take(i as int) =~= rows);
    assert(flat_corners@ == corners);
    proof {
        lemma_distinct(corners);
    }
    let ghost all = corners.map_values(|v: u32| number_in(verts@, v));
    let mut numbers: Vec<u32> = Vec::new();
    let mut p: usize = 0;
    while p < flat_corners.len()
        invariant
            p <= flat_corners.len(),
            flat_corners@ == corners,
            verts@ == distinct(corners),
            verts@.len() <= u32::MAX,
            all == corners.map_values(|v: u32| number_in(verts@, v)),
            forall|x: u32| #[trigger] distinct(corners).contains(x) <==> corners.contains(x),
            numbers@ == all.take(p as int),
            all_below(numbers@, verts@.len() as int),
        decreases flat_corners.len() - p,
    {
        let v: u32 = flat_corners[p];
        assert(corners.contains(corners[p as int]));
        let at: usize = number(&verts, v);
        numbers.push(at as u32);
        p += 1;
        assert(numbers@ =~= all.take(p as int));
    }
    assert(all.take(p as int) =~= all);
    assert forall|k: int| 0 <= k < verts@.len() implies (#[trigger] verts@[k]) < mesh.vertex_count by {
        assert(verts@.contains(verts@[k]));
        let q = corners.index_of(verts@[k]);
        assert(corners[q] < mesh.vertex_count);
    }
    (verts, numbers)
}

/// The place of a vertex that is in the list.
fn number(list: &[u32], v: u32) -> (r: usize)
    requires
        list@.contains(v),
    ensures
        r < list@.len(),
        place_of(list@, v) == Some(r as int),
{
    proof {
        let k = list@.index_of(v);
        lemma_place_exists(list@, v, k);
    }
    match find_place(list, v) {
        Some(p) => p,
        None => 0,
    }
}

proof fn lemma_place_exists(list: Seq<u32>, v: u32, k: int)
    requires
        0 <= k < list.len(),
        list[k] == v,
    ensures
        exists|p: int| is_place(list, v, p),
    decreases k,
{
    if exists|q: int| 0 <= q < k && list[q] == v {
        let q = choose|q: int| 0 <= q < k && list[q] == v;
        lemma_place_exists(list, v, q);
    } else {
        assert(is_place(list, v, k));
    }
}

/// The sharp edges of the support.
fn collect_sharp<S: Scalar>(mesh: &Mesh<S>, adj: &Adjacency, support: &[u32]) -> (r: Vec<u32>)
    requires
        quads_ok(*mesh, *adj),
        all_below(support@, mesh.face_vertex_counts@.len() as int),
    ensures
        is_sharp_list(*mesh, *adj, support@, r@),
        all_below(r@, mesh.edge_vertices@.len() as int),
{
    let ghost ne = mesh.edge_vertices@.len() as int;
    let mut all: Vec<u32> = Vec::new();
    let mut i: usize = 0;
    while i < support.len()
        invariant
            i <= support.len(),
            quads_ok(*mesh, *adj),
            all_below(support@, mesh.face_vertex_counts@.len() as int),
            ne == mesh.edge_vertices@.len(),
            all_below(all@, ne),
            forall|e: u32| #[trigger] all@.contains(e) <==> sharp_upto(*mesh, *adj, support@, 4 * i, e),
        decreases support.len() - i,
    {
        assert(support@[i as int] < mesh.face_vertex_counts@.len());
        let mut k: usize = 0;
        while k < 4
            invariant
                k <= 4,
                i < support.len(),
                quads_ok(*mesh, *adj),
                support@[i as int] < mesh.face_vertex_counts@.len(),
                ne == mesh.edge_vertices@.len(),
                all_below(all@, ne),
                forall|e: u32| #[trigger] all@.contains(e) <==> sharp_upto(*mesh, *adj, support@, 4 * i + k, e),
            decreases 4 - k,
        {
            let e: u32 = quad_edge::<S>(Ghost(*mesh), adj, support[i] as usize, k);
            let ghost before = all@;
            proof {
                reveal(quads_ok);
            }
            let sharp: bool = is_positive(mesh.edge_creases[e as usize]);
            if sharp {
                all.push(e);
            }
            assert forall|x: u32| #[trigger] all@.contains(x) <==> sharp_upto(
                *mesh,
                *adj,
                support@,
                4 * i + k + 1,
                x,
            ) by {
                assert(before.contains(x) <==> sharp_upto(*mesh, *adj, support@, 4 * i + k, x));
                assert((4 * i + k) / 4 == i && (4 * i + k) % 4 == k);
                if sharp {
                    assert(all@.contains(x) <==> before.contains(x) || x == e) by {
                        if before.contains(x) {
                            let q = before.index_of(x);
                            assert(all@[q] == x);
                        }
                        assert(all@[before.len() as int] == e);
                    }
                }
            }
            k += 1;
        }
        i += 1;
    }
    let ghost gathered = all@;
    sort_dedup(&mut all);
    proof {
        assert forall|e: u32| #[trigger] all@.contains(e) <==> sharp_in(*mesh, *adj, support@, e) by {
            assert(all@.to_set().contains(e) <==> gathered.to_set().contains(e));
            assert(gathered.contains(e) <==> sharp_upto(*mesh, *adj, support@, 4 * support@.len() as int, e));
            lemma_sharp_upto(*mesh, *adj, support@, 4 * support@.len() as int, e);
        }
        assert forall|k: int| 0 <= k < all@.len() implies (#[trigger] all@[k]) < ne by {
            assert(all@.contains(all@[k]));
            assert(all@.to_set().contains(all@[k]) <==> gathered.to_set().contains(all@[k]));
            let q = gathered.index_of(all@[k]);
            assert(gathered[q] < ne);
        }
    }
    all
}

/// Edge `e` is sharp and among the first `m` corners of the support.
spec fn sharp_upto<S: Scalar>(mesh: Mesh<S>, adj: Adjacency, support: Seq<u32>, m: int, e: u32) -> bool
    decreases m,
{
    if m <= 0 {
        false
    } else {
        sharp_upto(mesh, adj, support, m - 1, e) || (adj.face_edges@[4 * support[(m - 1) / 4] + (m - 1) % 4] == e
            && positive(mesh.edge_creases@[e as int]))
    }
}

proof fn lemma_sharp_upto<S: Scalar>(mesh: Mesh<S>, adj: Adjacency, support: Seq<u32>, m: int, e: u32)
    requires
        0 <= m <= 4 * support.len(),
    ensures
        sharp_upto(mesh, adj, support, m, e) <==> positive(mesh.edge_creases@[e as int]) && exists|i: int, k: int|
            0 <= i < support.len() && 0 <= k < 4 && 4 * i + k < m && #[trigger] adj.face_edges@[4 * support[i] + k]
                == e,
    decreases m,
{
    if m > 0 {
        lemma_sharp_upto(mesh, adj, support, m - 1, e);
        let i0 = (m - 1) / 4;
        let k0 = (m - 1) % 4;
        assert(4 * i0 + k0 == m - 1);
        if sharp_upto(mesh, adj, support, m, e) {
            if sharp_upto(mesh, adj, support, m - 1, e) {
                let (i, k) = choose|i: int, k: int|
                    0 <= i < support.len() && 0 <= k < 4 && 4 * i + k < m - 1 && #[trigger] adj.face_edges@[4
                        * support[i] + k] == e;
                assert(adj.face_edges@[4 * support[i] + k] == e);
            } else {
                assert(adj.face_edges@[4 * support[i0] + k0] == e);
            }
        }
        if positive(mesh.edge_creases@[e as int]) && exists|i: int, k: int|
            0 <= i < support.len() && 0 <= k < 4 && 4 * i + k < m && #[trigger] adj.face_edges@[4 * support[i] + k]
                == e {
            let (i, k) = choose|i: int, k: int|
                0 <= i < support.len() && 0 <= k < 4 && 4 * i + k < m && #[trigger] adj.face_edges@[4 * support[i]
                    + k] == e;
            if 4 * i + k == m - 1 {
                assert(i == i0 && k == k0);
            } else {
                assert(adj.face_edges@[4 * support[i] + k] == e);
            }
        }
    }
}

/// The ends of an edge of the support are vertices of the support.
proof fn lemma_sharp_ends<S: Scalar>(mesh: Mesh<S>, adj: Adjacency, support: Seq<u32>, e: u32)
    requires
        quads_ok(mesh, adj),
        quads_linked(mesh, adj),
        all_below(support, mesh.face_vertex_counts@.len() as int),
        sharp_in(mesh, adj, support, e),
    ensures
        sub_vertices_of(mesh, support).contains(pairs(mesh.edge_vertices@)[e as int].0),
        sub_vertices_of(mesh, support).contains(pairs(mesh.edge_vertices@)[e as int].1),
{
    reveal(quads_linked);
    reveal(quads_ok);
    let corners = support_corners(mesh, support);
    let rows = support.map_values(|f: u32| quad_at(mesh, f as int));
    let (i, k) = choose|i: int, k: int|
        0 <= i < support.len() && 0 <= k < 4 && #[trigger] adj.face_edges@[4 * support[i] + k] == e;
    let f = support[i] as int;
    assert(support[i] < mesh.face_vertex_counts@.len());
    let nk = next_corner(k, 4);
    assert(pairs(mesh.edge_vertices@)[adj.face_edges@[4 * f + k] as int] == edge_key_of(
        quad_at(mesh, f)[k],
        quad_at(mesh, f)[nk],
    ));
    crate::connectivity::lemma_flat_at(rows, i, k);
    crate::connectivity::lemma_flat_at(rows, i, nk);
    lemma_distinct(corners);
    assert(corners.contains(quad_at(mesh, f)[k])) by {
        assert(corners[crate::rows::row_start(rows, i) + k] == quad_at(mesh, f)[k]);
    }
    assert(corners.contains(quad_at(mesh, f)[nk])) by {
        assert(corners[crate::rows::row_start(rows, i) + nk] == quad_at(mesh, f)[nk]);
    }
}

/// A support and its mesh.
pub struct Cutout<S> {
    pub support: Vec<u32>,
    pub sharp: Vec<u32>,
    pub vertices: Vec<u32>,
    pub mesh: Mesh<S>,
}

/// The support of a quad and its mesh.
pub open spec fn is_cutout<S: Scalar>(mesh: Mesh<S>, adj: Adjacency, face: int, cut: Cutout<S>) -> bool {
    &&& is_support(mesh, adj, face, cut.support@)
    &&& is_sharp_list(mesh, adj, cut.support@, cut.sharp@)
    &&& cut.vertices@ == sub_vertices_of(mesh, cut.support@)
    &&& is_submesh(mesh, cut.support@, cut.sharp@, cut.mesh)
}

/// Cuts a quad out with all that touches it.
pub fn cut_out<S: Scalar>(mesh: &Mesh<S>, adj: &Adjacency, face: u32) -> (r: Cutout<S>)
    requires
        quads_ok(*mesh, *adj),
        quads_linked(*mesh, *adj),
        face < mesh.face_vertex_counts@.len(),
    ensures
        is_cutout(*mesh, *adj, face as int, r),
        all_below(r.vertices@, mesh.vertex_count as int),
{
    let support: Vec<u32> = collect_support(mesh, adj, face);
    proof {
        lemma_ascending_len(support@, mesh.face_vertex_counts@.len() as int);
        reveal(quads_ok);
    }
    let (vertices, indices) = number_corners(mesh, Ghost(*adj), &support);
    let sharp: Vec<u32> = collect_sharp(mesh, adj, &support);
    let ghost verts = vertices@;
    let ghost pe = pairs(mesh.edge_vertices@);
    let ghost all_edges = sharp@.map_values(
        |e: u32| (number_in(verts, pe[e as int].0), number_in(verts, pe[e as int].1)),
    );
    let ghost all_creases = sharp@.map_values(|e: u32| mesh.edge_creases@[e as int]);
    let mut edges: Vec<[u32; 2]> = Vec::new();
    let mut creases: Vec<S> = Vec::new();
    let mut i: usize = 0;
    assert(pairs(edges@) =~= all_edges.take(0));
    while i < sharp.len()
        invariant
            i <= sharp.len(),
            quads_ok(*mesh, *adj),
            quads_linked(*mesh, *adj),
            all_below(support@, mesh.face_vertex_counts@.len() as int),
            is_sharp_list(*mesh, *adj, support@, sharp@),
            all_below(sharp@, mesh.edge_vertices@.len() as int),
            vertices@ == sub_vertices_of(*mesh, support@),
            verts == vertices@,
            verts.len() <= u32::MAX,
            pe == pairs(mesh.edge_vertices@),
            all_edges == sharp@.map_values(
                |e: u32| (number_in(verts, pe[e as int].0), number_in(verts, pe[e as int].1)),
            ),
            all_creases == sharp@.map_values(|e: u32| mesh.edge_creases@[e as int]),
            pairs(edges@) == all_edges.take(i as int),
            creases@ == all_creases.take(i as int),
        decreases sharp.len() - i,
    {
        assert(sharp@[i as int] < mesh.edge_vertices@.len());
        let e: usize = sharp[i] as usize;
        proof {
            assert(sharp@.contains(sharp@[i as int]));
            lemma_sharp_ends(*mesh, *adj, support@, sharp@[i as int]);
            assert(pe[e as int] == (mesh.edge_vertices@[e as int]@[0], mesh.edge_vertices@[e as int]@[1]));
            reveal(quads_ok);
        }
        let a: usize = number(&vertices, mesh.edge_vertices[e][0]);
        let b: usize = number(&vertices, mesh.edge_vertices[e][1]);
        let ghost before = pairs(edges@);
        edges.push([a as u32, b as u32]);
        creases.push(mesh.edge_creases[e]);
        assert(pairs(edges@) =~= before.push((a as u32, b as u32)));
        i += 1;
        assert(pairs(edges@) =~= all_edges.take(i as int));
        assert(creases@ =~= all_creases.take(i as int));
    }
    assert(all_edges.take(i as int) =~= all_edges);
    assert(all_creases.take(i as int) =~= all_creases);
    let ghost all_corners = verts.map_values(|v: u32| mesh.vertex_corners@[v as int]);
    let mut corners: Vec<S> = Vec::new();
    let mut counts: Vec<u32> = Vec::new();
    let mut k: usize = 0;
    while k < vertices.len()
        invariant
            k <= vertices.len(),
            verts == vertices@,
            quads_ok(*mesh, *adj),
            all_below(verts, mesh.vertex_count as int),
            all_corners == verts.map_values(|v: u32| mesh.vertex_corners@[v as int]),
            corners@ == all_corners.take(k as int),
        decreases vertices.len() - k,
    {
        assert(verts[k as int] < mesh.vertex_count);
        proof {
            reveal(quads_ok);
        }
        corners.push(mesh.vertex_corners[vertices[k] as usize]);
        k += 1;
        assert(corners@ =~= all_corners.take(k as int));
    }
    assert(all_corners.take(k as int) =~= all_corners);
    k = 0;
    while k < support.len()
        invariant
            k <= support.len(),
            counts@.len() == k,
            forall|j: int| 0 <= j < k ==> counts@[j] == 4,
        decreases support.len() - k,
    {
        counts.push(4);
        k += 1;
    }
    assert(counts@ =~= Seq::new(support@.len(), |f: int| 4u32));
    let sub = Mesh {
        vertex_count: vertices.len() as u32,
        face_vertex_counts: counts,
        face_vertex_indices: indices,
        edge_vertices: edges,
        edge_creases: creases,
        vertex_corners: corners,
    };
    Cutout { support, sharp, vertices, mesh: sub }
}

// ---------------------------------------------------------------------------
// Quadrants
// ---------------------------------------------------------------------------
/// The first corner of a refined quad, from `r` on, that is the point of one of
/// the given vertices: its place in the quad and that of the vertex.
pub open spec fn corner_from(
    origins: Seq<VertexOrigin>,
    quad: Seq<u32>,
    corners: Seq<u32>,
    r: int,
) -> Option<(int, int)>
    decreases 4 - r,
{
    if r >= 4 {
        None
    } else {
        let here = match origins[quad[r] as int] {
            VertexOrigin::Vertex(v) => place_of(corners, v),
            _ => None,
        };
        match here {
            Some(k) => Some((r, k)),
            None => corner_from(origins, quad, corners, r + 1),
        }
    }
}

/// A refined quad in a quadrant: its number and the place of the corner that it
/// shares with the parent.
pub type Quadrants = Seq<Option<(u32, int)>>;

/// The quadrants of quad `central`, after the first `m` refined quads; none if
/// one of its children has no corner of it.
pub open spec fn quadrants_upto<S>(
    refined: RefinementResult<S>,
    central: u32,
    corners: Seq<u32>,
    m: int,
) -> Option<Quadrants>
    decreases m,
{
    if m <= 0 {
        Some(seq![None, None, None, None])
    } else {
        match quadrants_upto(refined, central, corners, m - 1) {
            None => None,
            Some(before) => if refined.lineage.face_parent@[m - 1] != central {
                Some(before)
            } else {
                match corner_from(
                    refined.lineage.vertex_origin@,
                    quad_at(refined.topology, m - 1),
                    corners,
                    0,
                ) {
                    None => None,
                    Some((r, k)) => Some(before.update(k, Some(((m - 1) as u32, r)))),
                }
            },
        }
    }
}

/// The quadrants of quad `central`, or why it has not got them.
pub open spec fn quadrants_of<S>(refined: RefinementResult<S>, central: u32, corners: Seq<u32>) -> Result<
    Seq<(u32, int)>,
    &'static str,
> {
    match quadrants_upto(refined, central, corners, refined.lineage.face_parent@.len() as int) {
        None => Err("central child quad has no central-corner vertex point"),
        Some(q) => if q[0] is Some && q[1] is Some && q[2] is Some && q[3] is Some {
            Ok(Seq::new(4, |k: int| q[k]->Some_0))
        } else {
            Err("central quad did not refine into four quadrant children")
        },
    }
}

/// A refined quad in a quadrant.
#[derive(Clone, Copy)]
pub struct QuadrantChild {
    pub face: u32,
    /// Which corner of the child is the corner of the parent.
    pub turn: usize,
}

pub open spec fn child_view(c: QuadrantChild) -> (u32, int) {
    (c.face, c.turn as int)
}

pub open spec fn children_view(c: Seq<QuadrantChild>) -> Seq<(u32, int)> {
    c.map_values(|c: QuadrantChild| child_view(c))
}

fn find_corner(origins: &[VertexOrigin], quad: &[u32], corners: &[u32]) -> (r: Option<(usize, usize)>)
    requires
        quad@.len() == 4,
        all_below(quad@, origins@.len() as int),
    ensures
        match r {
            Some((at, k)) => corner_from(origins@, quad@, corners@, 0) == Some((at as int, k as int)) && at < 4 && k
                < corners@.len(),
            None => corner_from(origins@, quad@, corners@, 0) is None,
        },
{
    let mut r: usize = 0;
    while r < 4
        invariant
            r <= 4,
            quad@.len() == 4,
            all_below(quad@, origins@.len() as int),
            corner_from(origins@, quad@, corners@, 0) == corner_from(origins@, quad@, corners@, r as int),
        decreases 4 - r,
    {
        assert(quad@[r as int] < origins@.len());
        let origin: VertexOrigin = origins[quad[r] as usize];
        assert(origin == origins@[quad@[r as int] as int]);
        match origin {
            VertexOrigin::Vertex(v) => match find_place(corners, v) {
                Some(k) => {
                    return Some((r, k));
                },
                None => {},
            },
            _ => {},
        }
        r += 1;
    }
    None
}

proof fn lemma_quadrants_fault<S>(refined: RefinementResult<S>, central: u32, corners: Seq<u32>, j: int, m: int)
    requires
        0 <= j <= m,
        quadrants_upto(refined, central, corners, j) is None,
    ensures
        quadrants_upto(refined, central, corners, m) is None,
    decreases m,
{
    if j < m {
        lemma_quadrants_fault(refined, central, corners, j, m - 1);
    }
}

/// The four children of a quad, by the corner that they keep.
pub fn quadrant_children<S: Scalar>(refined: &RefinementResult<S>, central: u32, central_corners: &[u32]) -> (r: Result<
    Vec<QuadrantChild>,
    KernelError,
>)
    requires
        quads_ok(refined.topology, refined.adjacency),
        refined.lineage.face_parent@.len() == refined.topology.face_vertex_counts@.len(),
        refined.lineage.vertex_origin@.len() == refined.topology.vertex_count,
        central_corners@.len() == 4,
    ensures
        match quadrants_of(*refined, central, central_corners@) {
            Ok(q) => r is Ok && children_view(r->Ok_0@) == q && r->Ok_0@.len() == 4 && forall|k: int|
                0 <= k < 4 ==> (#[trigger] r->Ok_0@[k]).face < refined.topology.face_vertex_counts@.len()
                    && r->Ok_0@[k].turn < 4,
            Err(text) => r == Err::<Vec<QuadrantChild>, _>(KernelError::InvalidTopology(text)),
        },
{
    let ghost corners = central_corners@;
    let count: usize = refined.lineage.face_parent.len();
    assert(4 * count <= u32::MAX) by {
        reveal(quads_ok);
    }
    let mut found: [Option<QuadrantChild>; 4] = [None, None, None, None];
    let mut m: usize = 0;
    let ghost mut q: Quadrants = seq![None, None, None, None];
    while m < count
        invariant
            m <= count,
            count == refined.lineage.face_parent@.len(),
            4 * count <= u32::MAX,
            quads_ok(refined.topology, refined.adjacency),
            refined.lineage.face_parent@.len() == refined.topology.face_vertex_counts@.len(),
            refined.lineage.vertex_origin@.len() == refined.topology.vertex_count,
            corners == central_corners@,
            corners.len() == 4,
            q.len() == 4,
            quadrants_upto(*refined, central, corners, m as int) == Some(q),
            forall|k: int|
                0 <= k < 4 ==> match #[trigger] found@[k] {
                    Some(c) => q[k] == Some(child_view(c)) && c.face < count && c.turn < 4,
                    None => q[k] is None,
                },
        decreases count - m,
    {
        if refined.lineage.face_parent[m] == central {
            let quad: &[u32] = quad_slice(&refined.topology, Ghost(refined.adjacency), m);
            match find_corner(&refined.lineage.vertex_origin, quad, central_corners) {
                None => {
                    proof {
                        assert(quadrants_upto(*refined, central, corners, m + 1) is None);
                        lemma_quadrants_fault(*refined, central, corners, m + 1, count as int);
                    }
                    return Err(
                        KernelError::InvalidTopology("central child quad has no central-corner vertex point"),
                    );
                },
                Some((at, k)) => {
                    let ghost before = found@;
                    let child = QuadrantChild { face: m as u32, turn: at };
                    found[k] = Some(child);
                    proof {
                        q = q.update(k as int, Some((m as u32, at as int)));
                        assert forall|j: int| 0 <= j < 4 implies match #[trigger] found@[j] {
                            Some(c) => q[j] == Some(child_view(c)) && c.face < count && c.turn < 4,
                            None => q[j] is None,
                        } by {
                            if j != k {
                                assert(found@[j] == before[j]);
                            }
                        }
                    }
                },
            }
        }
        m += 1;
    }
    assert(found@[0] == found[0] && found@[1] == found[1] && found@[2] == found[2] && found@[3] == found[3]);
    match (found[0], found[1], found[2], found[3]) {
        (Some(a), Some(b), Some(c), Some(d)) => {
            let mut out: Vec<QuadrantChild> = Vec::new();
            out.push(a);
            out.push(b);
            out.push(c);
            out.push(d);
            assert(children_view(out@) =~= Seq::new(4, |k: int| q[k]->Some_0));
            Ok(out)
        },
        _ => Err(KernelError::InvalidTopology("central quad did not refine into four quadrant children")),
    }
}

// ---------------------------------------------------------------------------
// Isolation
// ---------------------------------------------------------------------------
/// A quad with its surroundings, refined once.
pub struct IsolationNode<S> {
    pub refined: RefinementResult<S>,
    pub positions: Vec<[S; 3]>,
    pub table: PatchTable,
    /// The vertices of the cutout in the mesh it was cut from.
    pub sub_vertices: Vec<u32>,
    pub children: Vec<QuadrantChild>,
}

/// A request for one level on all faces.
pub open spec fn single_step<S: Scalar>(req: UniformRefine<S>) -> bool {
    &&& req.levels == 1
    &&& req.selected_faces is None
    &&& req.selection_boundary_crease == zero_of::<S>()
    &&& !req.edge_polylines
}

/// A refiner of the cutout.
pub open spec fn refines_cutout<S: Scalar>(refiner: Refiner<S>, cut: Cutout<S>, options: SchemeOptions) -> bool {
    &&& refiner.mesh() == cut.mesh
    &&& refiner.scheme_of() == Scheme::CatmullClark
    &&& refiner.options_of() == options
    &&& refiner.wf()
}

/// The positions of the vertices of a cutout.
pub open spec fn sub_positions<T>(positions: Seq<T>, vertices: Seq<u32>) -> Seq<T> {
    vertices.map_values(|v: u32| positions[v as int])
}

/// The refined cutout that a node holds.
pub open spec fn refined_cutout<S: Scalar>(
    cut: Cutout<S>,
    options: SchemeOptions,
    refined: RefinementResult<S>,
) -> bool {
    exists|refiner: Refiner<S>, req: UniformRefine<S>, refinement: Refinement<S>|
        refines_cutout(refiner, cut, options) && single_step(req) && #[trigger] refiner.refined_to(req, refinement)
            && result_of(refinement, refined)
}

/// The node of a quad.
#[verifier::opaque]
pub open spec fn is_node<S: Scalar>(
    mesh: Mesh<S>,
    adj: Adjacency,
    options: SchemeOptions,
    positions: Seq<[S; 3]>,
    face: u32,
    node: IsolationNode<S>,
) -> bool {
    exists|cut: Cutout<S>| #[trigger]
        is_cutout(mesh, adj, face as int, cut) && place_of(cut.support@, face) is Some && refined_cutout(
            cut,
            options,
            node.refined,
        ) && node.sub_vertices@ == cut.vertices@ && node.positions@ == chain_values::<S, [S; 3]>(
            table_rows(node.refined.level_stencils@),
            sub_positions(positions, cut.vertices@),
        ) && patch_outcome(node.refined, Ok(node.table)) && quadrants_of(
            node.refined,
            place_of(cut.support@, face)->Some_0 as u32,
            quad_at(mesh, face as int).map_values(|v: u32| number_in(cut.vertices@, v)),
        ) == Ok::<_, &'static str>(children_view(node.children@)) && node.refined.level_stencils@[0].indices@.len()
            <= u32::MAX && node_ok(node, mesh.vertex_count as int)
}

/// Why the refined cutout of a quad makes no node.
pub open spec fn refined_fails<S: Scalar>(
    mesh: Mesh<S>,
    face: u32,
    cut: Cutout<S>,
    refined: RefinementResult<S>,
    error: KernelError,
) -> bool {
    ||| refined.level_stencils@[0].indices@.len() > u32::MAX && error == KernelError::InvalidTopology(
        "mesh does not fit 32-bit indices",
    )
    ||| patch_outcome(refined, Err(error))
    ||| match quadrants_of(
        refined,
        place_of(cut.support@, face)->Some_0 as u32,
        quad_at(mesh, face as int).map_values(|v: u32| number_in(cut.vertices@, v)),
    ) {
        Err(text) => error == KernelError::InvalidTopology(text),
        Ok(_) => false,
    }
}

/// Why the cutout of a quad makes no node.
pub open spec fn cut_fails<S: Scalar>(
    mesh: Mesh<S>,
    options: SchemeOptions,
    face: u32,
    cut: Cutout<S>,
    error: KernelError,
) -> bool {
    ||| place_of(cut.support@, face) is None && error == KernelError::InvalidTopology(
        "central quad is not incident to its own corners",
    )
    ||| cut.mesh.broken_rule() is Some && error == KernelError::InvalidTopology(cut.mesh.broken_rule()->Some_0)
    ||| exists|refiner: Refiner<S>, req: UniformRefine<S>| #[trigger]
        refines_cutout(refiner, cut, options) && single_step(req) && #[trigger] refiner.fails(req, error)
    ||| exists|refined: RefinementResult<S>| #[trigger]
        refined_cutout(cut, options, refined) && refined_fails(mesh, face, cut, refined, error)
}

/// Why a quad has no node.
#[verifier::opaque]
pub open spec fn node_fails<S: Scalar>(
    mesh: Mesh<S>,
    adj: Adjacency,
    options: SchemeOptions,
    face: u32,
    error: KernelError,
) -> bool {
    exists|cut: Cutout<S>| #[trigger]
        is_cutout(mesh, adj, face as int, cut) && cut_fails(mesh, options, face, cut, error)
}

/// The refined cutout of a node can be evaluated, its quadrants are quads of it, and its
/// stencils read the vertices of the cutout.
#[verifier::opaque]
pub open spec fn node_ok<S: Scalar>(node: IsolationNode<S>, parent_vertices: int) -> bool {
    &&& eval_ready(node.refined.topology, node.refined.adjacency)
    &&& node.table.of(node.refined.topology, node.refined.adjacency)
    &&& node.positions@.len() == node.refined.topology.vertex_count
    &&& node.children@.len() == 4
    &&& forall|k: int|
        0 <= k < 4 ==> (#[trigger] node.children@[k]).face < node.refined.topology.face_vertex_counts@.len()
            && node.children@[k].turn < 4
    &&& all_below(node.sub_vertices@, parent_vertices)
    &&& node.refined.level_stencils@.len() == 1
    &&& node.refined.level_stencils@[0].wf()
    &&& node.refined.level_stencils@[0]@.len() == node.refined.topology.vertex_count
    &&& crate::stencil::rows_below(node.refined.level_stencils@[0]@, node.sub_vertices@.len())
}

fn gather<S: Scalar>(positions: &[[S; 3]], vertices: &[u32]) -> (r: Vec<[S; 3]>)
    requires
        all_below(vertices@, positions@.len() as int),
    ensures
        r@ == sub_positions(positions@, vertices@),
{
    let ghost all = sub_positions(positions@, vertices@);
    let mut out: Vec<[S; 3]> = Vec::new();
    let mut k: usize = 0;
    while k < vertices.len()
        invariant
            k <= vertices.len(),
            all_below(vertices@, positions@.len() as int),
            all == sub_positions(positions@, vertices@),
            out@ == all.take(k as int),
        decreases vertices.len() - k,
    {
        assert(vertices@[k as int] < positions@.len());
        out.push(positions[vertices[k] as usize]);
        k += 1;
        assert(out@ =~= all.take(k as int));
    }
    assert(out@ =~= all);
    out
}

/// The corners of a quad of the support are vertices of the support.
proof fn lemma_corner_in_support<S: Scalar>(mesh: Mesh<S>, adj: Adjacency, support: Seq<u32>, i: int, c: int)
    requires
        quads_ok(mesh, adj),
        all_below(support, mesh.face_vertex_counts@.len() as int),
        0 <= i < support.len(),
        0 <= c < 4,
    ensures
        sub_vertices_of(mesh, support).contains(quad_at(mesh, support[i] as int)[c]),
{
    reveal(quads_ok);
    let corners = support_corners(mesh, support);
    let rows = support.map_values(|f: u32| quad_at(mesh, f as int));
    assert(support[i] < mesh.face_vertex_counts@.len());
    crate::connectivity::lemma_flat_at(rows, i, c);
    lemma_distinct(corners);
    assert(corners[crate::rows::row_start(rows, i) + c] == quad_at(mesh, support[i] as int)[c]);
}

/// Cuts a quad out and refines it once.
#[verifier::rlimit(60)]
pub fn isolation_node<S: Scalar>(
    mesh: &Mesh<S>,
    adj: &Adjacency,
    positions: &[[S; 3]],
    face: u32,
    options: &SchemeOptions,
) -> (r: Result<IsolationNode<S>, KernelError>)
    requires
        eval_ready(*mesh, *adj),
        face < mesh.face_vertex_counts@.len(),
        positions@.len() == mesh.vertex_count,
    ensures
        match r {
            Ok(node) => is_node(*mesh, *adj, *options, positions@, face, node),
            Err(error) => node_fails(*mesh, *adj, *options, face, error),
        },
{
    reveal(is_node);
    reveal(node_fails);
    let cut: Cutout<S> = cut_out(mesh, adj, face);
    let ghost gcut = cut;
    assert(is_cutout(*mesh, *adj, face as int, gcut));
    let central: usize = match find_place(&cut.support, face) {
        Some(central) => central,
        None => {
            return Err(KernelError::InvalidTopology("central quad is not incident to its own corners"));
        },
    };
    let points: Vec<[S; 3]> = gather(positions, &cut.vertices);
    let corners: &[u32] = quad_slice(mesh, Ghost(*adj), face as usize);
    let ghost wanted = quad_at(*mesh, face as int).map_values(|v: u32| number_in(cut.vertices@, v));
    let mut central_corners: Vec<u32> = Vec::new();
    let mut c: usize = 0;
    proof {
        assert(is_place(cut.support@, face, central as int)) by {
            assert(place_of(cut.support@, face) == Some(central as int));
            let p = choose|p: int| is_place(cut.support@, face, p);
            assert(exists|p: int| is_place(cut.support@, face, p));
        }
    }
    assert(all_below(cut.support@, mesh.face_vertex_counts@.len() as int)) by {
        lemma_support_below(*mesh, *adj, face as int, cut.support@);
    }
    while c < 4
        invariant
            c <= 4,
            quads_ok(*mesh, *adj),
            corners@ == quad_at(*mesh, face as int),
            corners@.len() == 4,
            cut.vertices@ == sub_vertices_of(*mesh, cut.support@),
            all_below(cut.support@, mesh.face_vertex_counts@.len() as int),
            central < cut.support@.len(),
            cut.support@[central as int] == face,
            wanted == quad_at(*mesh, face as int).map_values(|v: u32| number_in(cut.vertices@, v)),
            central_corners@ == wanted.take(c as int),
        decreases 4 - c,
    {
        proof {
            lemma_corner_in_support(*mesh, *adj, cut.support@, central as int, c as int);
        }
        let at: usize = number(&cut.vertices, corners[c]);
        central_corners.push(at as u32);
        c += 1;
        assert(central_corners@ =~= wanted.take(c as int));
    }
    assert(wanted.take(4) =~= wanted);
    let Cutout { support, sharp, vertices, mesh: sub } = cut;
    let refiner: Refiner<S> = match Refiner::new(sub, Scheme::CatmullClark, *options) {
        Ok(refiner) => refiner,
        Err(error) => {
            assert(gcut.mesh.broken_rule() is Some);
            return Err(error);
        },
    };
    let req: UniformRefine<S> = UniformRefine::default();
    assert(refines_cutout(refiner, gcut, *options));
    assert(single_step(req));
    let refined: RefinementResult<S> = match refiner.refine_uniform(&req) {
        Ok(refined) => refined,
        Err(error) => {
            assert(refiner.fails(req, error));
            return Err(error);
        },
    };
    let ghost refinement = choose|refinement: Refinement<S>|
        refiner.refined_to(req, refinement) && refinement.wf() && #[trigger] result_of(refinement, refined);
    assert(refined_cutout(gcut, *options, refined)) by {
        assert(refiner.refined_to(req, refinement));
    }
    proof {
        assert(all_true(active_of(req.selected_faces, refiner.mesh().face_vertex_counts@.len())));
        full_refinement_has_limits(refiner, req, refinement, refined);
        assert(refined.level_stencils@.len() == 1);
    }
    if refined.level_stencils[0].indices.len() > u32::MAX as usize {
        return Err(KernelError::InvalidTopology("mesh does not fit 32-bit indices"));
    }
    proof {
        refinement_tables_fit(refiner, req, refinement, refined);
        lemma_single_table(refined, points@.len());
    }
    let refined_positions: Vec<[S; 3]> = refined.interpolate(&points);
    let table: PatchTable = match refined.patch_table() {
        Ok(table) => table,
        Err(error) => {
            assert(patch_outcome(refined, Err(error)));
            return Err(error);
        },
    };
    let children: Vec<QuadrantChild> = match quadrant_children(&refined, central as u32, &central_corners) {
        Ok(children) => children,
        Err(error) => {
            return Err(error);
        },
    };
    let node = IsolationNode { refined, positions: refined_positions, table, sub_vertices: vertices, children };
    proof {
        crate::inverse::lemma_chain_values_len::<S, [S; 3]>(
            table_rows(node.refined.level_stencils@),
            points@,
        );
        assert(node_ok(node, mesh.vertex_count as int)) by {
            reveal(node_ok);
        }
        assert(is_node(*mesh, *adj, *options, positions@, face, node)) by {
            assert(is_cutout(*mesh, *adj, face as int, gcut));
        }
    }
    Ok(node)
}

/// What a chain of a single table comes to.
proof fn lemma_single_table<S: Scalar>(refined: RefinementResult<S>, n: nat)
    requires
        refined.level_stencils@.len() == 1,
        tables_fit(refined.level_stencils@, n),
        chain_width(table_rows(refined.level_stencils@), n) == refined.topology.vertex_count,
    ensures
        refined.level_stencils@[0].wf(),
        refined.level_stencils@[0]@.len() == refined.topology.vertex_count,
        crate::stencil::rows_below(refined.level_stencils@[0]@, n),
{
    let rows = table_rows(refined.level_stencils@);
    assert(rows.last() == refined.level_stencils@[0]@);
    assert(rows.drop_last().len() == 0);
    assert(chain_width(rows.drop_last(), n) == n);
}

proof fn lemma_support_below<S: Scalar>(mesh: Mesh<S>, adj: Adjacency, face: int, support: Seq<u32>)
    requires
        quads_ok(mesh, adj),
        0 <= face < mesh.face_vertex_counts@.len(),
        is_support(mesh, adj, face, support),
    ensures
        all_below(support, mesh.face_vertex_counts@.len() as int),
{
    reveal(quads_ok);
    let nf = mesh.face_vertex_counts@.len() as int;
    assert forall|k: int| 0 <= k < support.len() implies (#[trigger] support[k]) < nf by {
        assert(support.contains(support[k]));
        assert(touches(mesh, adj, face, support[k]));
        let c = choose|c: int|
            0 <= c < 4 && (#[trigger] faces_at(adj, quad_at(mesh, face)[c] as int)).contains(support[k]);
        let v = quad_at(mesh, face)[c] as int;
        assert(quad_at(mesh, face)[c] == mesh.face_vertex_indices@[4 * face + c]);
        let list = faces_at(adj, v);
        let q = list.index_of(support[k]);
        let o = adj.vertex_face_offsets@;
        assert(o[v] <= o[v + 1]);
        assert(o[v + 1] <= o[o.len() - 1]);
        assert(list[q] == adj.vertex_faces@[o[v] + q]);
    }
}

/// A node can be evaluated.
pub proof fn node_is_ok<S: Scalar>(
    mesh: Mesh<S>,
    adj: Adjacency,
    options: SchemeOptions,
    positions: Seq<[S; 3]>,
    face: u32,
    node: IsolationNode<S>,
)
    requires
        is_node(mesh, adj, options, positions, face, node),
    ensures
        node_ok(node, mesh.vertex_count as int),
{
    reveal(is_node);
}

} // verus!
