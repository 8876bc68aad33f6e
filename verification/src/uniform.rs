//! Meshes that are refined in full: the general construction takes their faces.

use crate::catmull_clark::topology as cc;
use crate::chains::{lemma_tables_unique, same_topology, topologies_are_unique};
use crate::connectivity::{
    corner_faces, corner_keys, distinct, face_keys, incident, key_label, key_labels, lemma_corner,
    lemma_corner_counts, lemma_distinct, lemma_incident, lemma_key_label_injective, next_corner, prev_corner,
};
use crate::hashing::EdgeKey;
use crate::incidence::{corner_fault, edge_fault, first_corner_fault, lemma_flat_locate, mesh_fault, Topology};
use crate::level::{corner_counts, lemma_proper_faces_fault};
use crate::loop_subdivision::topology as lp;
use crate::rows::{flat, row_start};
use crate::scalar::{zero_of, Scalar};
use crate::slots::{lemma_distinct_bound, lemma_partition_numbers, same_partition};
use crate::topology::all_below;
use vstd::prelude::*;

verus! {

// ---------------------------------------------------------------------------
// Two faces at an edge
// ---------------------------------------------------------------------------
/// No edge has more than two owners.
spec fn two_owners(keys: Seq<EdgeKey>, owners: Seq<u32>) -> bool {
    forall|x: int, y: int, z: int|
        #![trigger keys[x], keys[y], keys[z]]
        0 <= x < keys.len() && 0 <= y < keys.len() && 0 <= z < keys.len() && keys[x] == keys[y] && keys[y] == keys[z]
            ==> owners[x] == owners[y] || owners[y] == owners[z] || owners[x] == owners[z]
}

proof fn lemma_no_corner_fault(keys: Seq<EdgeKey>, owners: Seq<u32>, p: int)
    requires
        keys.len() == owners.len(),
        0 <= p <= keys.len(),
        forall|x: int| 0 <= x < keys.len() ==> (#[trigger] keys[x]).0 != keys[x].1,
        two_owners(keys, owners),
    ensures
        first_corner_fault(keys, owners, p) is None,
    decreases p,
{
    if p > 0 {
        lemma_no_corner_fault(keys, owners, p - 1);
        let q = p - 1;
        let labels = key_labels(keys).take(q);
        let items = owners.take(q);
        let label = key_label(keys[q]);
        let seen = incident(labels, items, label);
        lemma_incident(labels, items, label);
        assert(keys[q].0 != keys[q].1);
        if !seen.contains(owners[q]) && seen.len() >= 2 {
            assert(seen.contains(seen[0]) && seen.contains(seen[1]));
            let i = choose|i: int| 0 <= i < labels.len() && #[trigger] labels[i] == label && items[i] == seen[0];
            let j = choose|j: int| 0 <= j < labels.len() && #[trigger] labels[j] == label && items[j] == seen[1];
            lemma_key_label_injective(keys[i], keys[q]);
            lemma_key_label_injective(keys[j], keys[q]);
            assert(keys[i] == keys[j] && keys[j] == keys[q]);
            assert(false);
        }
    }
}

/// Where no corner is at fault, the owners of an edge among the first `p` corners are
/// two at most.
proof fn lemma_two_incident(keys: Seq<EdgeKey>, owners: Seq<u32>, key: EdgeKey, p: int)
    requires
        keys.len() == owners.len(),
        0 <= p <= keys.len(),
        first_corner_fault(keys, owners, p) is None,
    ensures
        incident(key_labels(keys).take(p), owners.take(p), key_label(key)).len() <= 2,
    decreases p,
{
    if p > 0 {
        let q = p - 1;
        lemma_two_incident(keys, owners, key, q);
        let labels = key_labels(keys);
        assert(labels.take(p).drop_last() =~= labels.take(q));
        assert(owners.take(p).drop_last() =~= owners.take(q));
        assert(corner_fault(keys, owners, q) is None);
        assert(labels.take(p).last() == key_label(keys[q]));
        if key_label(keys[q]) == key_label(key) {
            lemma_key_label_injective(keys[q], key);
        }
    }
}

proof fn lemma_faces_have_two_owners(faces: Seq<Seq<u32>>)
    requires
        edge_fault(faces) is None,
    ensures
        two_owners(corner_keys(faces), corner_faces(faces)),
{
    let keys = corner_keys(faces);
    let owners = corner_faces(faces);
    lemma_corner_counts(faces);
    let labels = key_labels(keys);
    let n = keys.len() as int;
    assert(labels.take(n) =~= labels);
    assert(owners.take(n) =~= owners);
    assert forall|x: int, y: int, z: int|
        #![trigger keys[x], keys[y], keys[z]]
        0 <= x < keys.len() && 0 <= y < keys.len() && 0 <= z < keys.len() && keys[x] == keys[y] && keys[y]
            == keys[z] implies owners[x] == owners[y] || owners[y] == owners[z] || owners[x] == owners[z] by {
        let label = key_label(keys[x]);
        let all = incident(labels, owners, label);
        lemma_two_incident(keys, owners, keys[x], n);
        lemma_incident(labels, owners, label);
        assert(labels[x] == label && labels[y] == label && labels[z] == label);
        assert(all.contains(owners[x]) && all.contains(owners[y]) && all.contains(owners[z]));
        let i = all.index_of(owners[x]);
        let j = all.index_of(owners[y]);
        let k = all.index_of(owners[z]);
        assert(i == j || j == k || i == k);
    }
}

/// Labels that reach every number below `m` make `m` edges.
proof fn lemma_distinct_all(labels: Seq<int>, m: int)
    requires
        0 <= m,
        forall|p: int| 0 <= p < labels.len() ==> 0 <= #[trigger] labels[p] < m,
        forall|s: int| 0 <= s < m ==> #[trigger] labels.contains(s),
    ensures
        distinct(labels).len() == m,
{
    let d = distinct(labels);
    lemma_distinct(labels);
    lemma_distinct_bound(labels, m);
    d.unique_seq_to_set();
    vstd::set_lib::lemma_int_range(0, m);
    let range = vstd::set_lib::set_int_range(0, m);
    assert(range.subset_of(d.to_set())) by {
        assert forall|x: int| range.contains(x) implies d.to_set().contains(x) by {
            assert(labels.contains(x));
            assert(d.contains(x));
        }
    }
    assert(d.to_set().finite());
    vstd::set_lib::lemma_len_subset(range, d.to_set());
}

// ---------------------------------------------------------------------------
// Catmull-Clark
// ---------------------------------------------------------------------------
/// Two corners of quads of one face on the same half of an edge are in one quad.
proof fn lemma_cc_pair(p: cc::Parent, f: int, c: int, k: int, d: int, m: int)
    requires
        p.ok(),
        p.simple(),
        0 <= f < p.faces.len(),
        0 <= c < p.faces[f].len(),
        0 <= d < p.faces[f].len(),
        k == 1 || k == 2,
        m == 1 || m == 2,
        p.quad_slots(f, c)[k] == p.quad_slots(f, d)[m],
    ensures
        c == d,
{
    reveal(cc::Parent::ok);
    let n = p.faces[f].len() as int;
    let fe = p.face_edges[f];
    assert(p.faces[f].len() >= 3);
    assert(fe.len() == n && all_below(fe, p.edges.len() as int) && fe.no_duplicates());
    let i = if k == 1 {
        prev_corner(c, n)
    } else {
        c
    };
    let j = if m == 1 {
        prev_corner(d, n)
    } else {
        d
    };
    let e = fe[i] as int;
    let g = fe[j] as int;
    let v = p.faces[f][c];
    let w = p.faces[f][d];
    assert(2 * e + p.side(e, v) == 2 * g + p.side(g, w));
    assert(e == g);
    assert(i == j);
    if k != m {
        assert(p.edges[fe[i] as int] == face_keys(p.faces[f])[i]);
        assert(fe[i] < p.edges.len());
        assert(p.edges[e].0 < p.edges[e].1);
        let x = p.faces[f][i];
        let y = p.faces[f][next_corner(i, n)];
        assert((v == x && w == y) || (v == y && w == x));
        assert(false);
    }
}

/// Where corner `at` of the refined faces is.
proof fn lemma_cc_place(p: cc::Parent, at: int) -> (r: (int, int, int))
    requires
        p.ok(),
        0 <= at < p.slots().len(),
    ensures
        0 <= r.0 < p.faces.len(),
        0 <= r.1 < p.faces[r.0].len(),
        0 <= r.2 < 4,
        p.slots()[at] == p.quad_slots(r.0, r.1)[r.2],
        corner_faces(p.quads())[at] == (row_start(p.faces, r.0) + r.1) as u32,
{
    cc::lemma_quad_counts(p);
    let (f, c) = lemma_flat_locate(p.faces, at / 4);
    cc::lemma_refined_corner(p, f, c, at % 4);
    (f, c, at % 4)
}

/// Two corners on the same spoke: their face is the same.
proof fn lemma_cc_spoke(p: cc::Parent, f: int, c: int, g: int, d: int)
    requires
        p.ok(),
        0 <= f < p.faces.len(),
        0 <= c < p.faces[f].len(),
        0 <= g < p.faces.len(),
        0 <= d < p.faces[g].len(),
        p.spoke_slot(f, c) == p.spoke_slot(g, d),
    ensures
        f == g,
        c == d,
{
    reveal(cc::Parent::ok);
    lemma_corner(p.faces, f, c);
    lemma_corner(p.faces, g, d);
}

/// A slot of a spoke is below those of the halves of edges.
proof fn lemma_cc_kind(p: cc::Parent, f: int, c: int, k: int)
    requires
        p.ok(),
        0 <= f < p.faces.len(),
        0 <= c < p.faces[f].len(),
        0 <= k < 4,
    ensures
        p.quad_slots(f, c)[k] < flat(p.faces).len() <==> k == 0 || k == 3,
{
    reveal(cc::Parent::ok);
    assert(p.faces[f].len() >= 3);
    let n = p.faces[f].len() as int;
    lemma_corner(p.faces, f, c);
    lemma_corner(p.faces, f, prev_corner(c, n));
}

/// The edge of corner `k` of a quad on half an edge, and where the parent has it.
proof fn lemma_cc_edge(p: cc::Parent, f: int, c: int, k: int) -> (r: int)
    requires
        p.ok(),
        0 <= f < p.faces.len(),
        0 <= c < p.faces[f].len(),
        k == 1 || k == 2,
    ensures
        0 <= r < p.faces[f].len(),
        p.face_edges[f][r] == (p.quad_slots(f, c)[k] - flat(p.faces).len()) / 2,
        corner_keys(p.faces)[row_start(p.faces, f) + r] == p.edges[p.face_edges[f][r] as int],
        corner_faces(p.faces)[row_start(p.faces, f) + r] == f as u32,
        0 <= row_start(p.faces, f) + r < corner_keys(p.faces).len(),
{
    reveal(cc::Parent::ok);
    let n = p.faces[f].len() as int;
    assert(n >= 3);
    let i = if k == 1 {
        prev_corner(c, n)
    } else {
        c
    };
    lemma_corner(p.faces, f, i);
    assert(p.edges[p.face_edges[f][i] as int] == face_keys(p.faces[f])[i]);
    i
}

#[verifier::rlimit(60)]
proof fn lemma_cc_two_owners(p: cc::Parent)
    requires
        p.ok(),
        p.simple(),
        edge_fault(p.faces) is None,
    ensures
        two_owners(corner_keys(p.quads()), corner_faces(p.quads())),
{
    let keys = corner_keys(p.quads());
    let owners = corner_faces(p.quads());
    let s = p.slots();
    cc::lemma_quad_counts(p);
    cc::lemma_refined_corners(p);
    lemma_faces_have_two_owners(p.faces);
    assert(p.faces.len() <= u32::MAX) by {
        reveal(cc::Parent::ok);
    }
    assert forall|x: int, y: int, z: int|
        #![trigger keys[x], keys[y], keys[z]]
        0 <= x < keys.len() && 0 <= y < keys.len() && 0 <= z < keys.len() && keys[x] == keys[y] && keys[y]
            == keys[z] implies owners[x] == owners[y] || owners[y] == owners[z] || owners[x] == owners[z] by {
        assert(p.slot_key(s[x]) == keys[x] && p.slot_key(s[y]) == keys[y] && p.slot_key(s[z]) == keys[z]);
        cc::lemma_slot_keys_differ(p, s[x], s[y]);
        cc::lemma_slot_keys_differ(p, s[y], s[z]);
        let (f, c, k) = lemma_cc_place(p, x);
        let (g, d, m) = lemma_cc_place(p, y);
        let (h, b, l) = lemma_cc_place(p, z);
        lemma_cc_kind(p, f, c, k);
        lemma_cc_kind(p, g, d, m);
        lemma_cc_kind(p, h, b, l);
        if k == 0 || k == 3 {
            cc::lemma_quad_indices(p, f, c);
            cc::lemma_quad_indices(p, g, d);
            cc::lemma_quad_indices(p, h, b);
            let i = if k == 0 { prev_corner(c, p.faces[f].len() as int) } else { c };
            let j = if m == 0 { prev_corner(d, p.faces[g].len() as int) } else { d };
            let o = if l == 0 { prev_corner(b, p.faces[h].len() as int) } else { b };
            lemma_cc_spoke(p, f, i, g, j);
            lemma_cc_spoke(p, g, j, h, o);
            assert(k == m || m == l || k == l);
        } else {
            let i = lemma_cc_edge(p, f, c, k);
            let j = lemma_cc_edge(p, g, d, m);
            let o = lemma_cc_edge(p, h, b, l);
            let pk = corner_keys(p.faces);
            let a1 = row_start(p.faces, f) + i;
            let a2 = row_start(p.faces, g) + j;
            let a3 = row_start(p.faces, h) + o;
            assert(pk[a1] == pk[a2] && pk[a2] == pk[a3]);
            if f == g {
                lemma_cc_pair(p, f, c, k, d, m);
            } else if g == h {
                lemma_cc_pair(p, g, d, m, b, l);
            } else {
                assert(f == h);
                lemma_cc_pair(p, f, c, k, b, l);
            }
        }
    }
}

/// The general construction takes the refined faces of a mesh that it took, where no
/// face passes an edge twice.
pub proof fn catmull_clark_faces_are_taken(p: cc::Parent)
    requires
        p.ok(),
        p.simple(),
        p.refined_vertex_count() > 0,
        edge_fault(p.faces) is None,
    ensures
        edge_fault(p.quads()) is None,
        mesh_fault(corner_counts(p.quads()), flat(p.quads()), p.refined_vertex_count() as int, true) is None,
        p.quads().len() == flat(p.faces).len(),
        forall|q: int| 0 <= q < p.quads().len() ==> (#[trigger] p.quads()[q]).len() == 4,
{
    let keys = corner_keys(p.quads());
    let a = p.slots();
    let b = key_labels(keys);
    cc::lemma_quad_counts(p);
    cc::lemma_refined_corners(p);
    lemma_cc_two_owners(p);
    lemma_no_corner_fault(keys, corner_faces(p.quads()), keys.len() as int);
    assert forall|x: int, y: int| 0 <= x < a.len() && 0 <= y < a.len() implies (a[x] == a[y] <==> #[trigger] b[x]
        == #[trigger] b[y]) by {
        assert(p.slot_key(a[x]) == keys[x]);
        assert(p.slot_key(a[y]) == keys[y]);
        if b[x] == b[y] {
            lemma_key_label_injective(keys[x], keys[y]);
            cc::lemma_slot_keys_differ(p, a[x], a[y]);
        }
    }
    assert(same_partition(a, b));
    lemma_partition_numbers(a, b);
    assert(4 * flat(p.faces).len() < u32::MAX && 2 * p.slot_count() <= u32::MAX && 0 <= p.slot_count()) by {
        reveal(cc::Parent::ok);
    }
    lemma_distinct_bound(a, p.slot_count());
    assert forall|q: int| 0 <= q < p.quads().len() implies 3 <= (#[trigger] p.quads()[q]).len() <= u32::MAX
        && all_below(p.quads()[q], p.refined_vertex_count() as int) by {}
    lemma_proper_faces_fault(p.quads(), p.refined_vertex_count() as int);
}

/// The quads of a refinement have four different corners, where no face of the parent
/// passes an edge twice.
pub proof fn catmull_clark_corners_differ(p: cc::Parent, q: int)
    requires
        p.ok(),
        p.simple(),
        0 <= q < p.quads().len(),
    ensures
        p.quads()[q].no_duplicates(),
{
    cc::lemma_quad_counts(p);
    let (f, c) = lemma_flat_locate(p.faces, q);
    cc::lemma_quad_at(p, f, c);
    cc::lemma_quad_indices(p, f, c);
    let n = p.faces[f].len() as int;
    let fe = p.face_edges[f];
    assert(fe.no_duplicates());
    assert(prev_corner(c, n) != c);
    assert(fe[prev_corner(c, n)] != fe[c]);
    assert(p.quads()[q] == p.quad(f, c));
}

// ---------------------------------------------------------------------------
// Loop
// ---------------------------------------------------------------------------
/// Where corner `at` of the refined faces is.
proof fn lemma_loop_place(p: lp::Parent, at: int) -> (r: (int, int, int))
    requires
        p.ok(),
        0 <= at < p.slots().len(),
    ensures
        0 <= r.0 < p.faces.len(),
        0 <= r.1 < 4,
        0 <= r.2 < 3,
        p.slots()[at] == p.child_slots(r.0, r.1)[r.2],
        corner_faces(p.children())[at] == (4 * r.0 + r.1) as u32,
{
    lp::lemma_child_counts(p);
    let f = at / 12;
    let j = (at % 12) / 3;
    let k = at % 3;
    assert(at == 12 * f + 3 * j + k);
    lp::lemma_refined_corner(p, f, j, k);
    (f, j, k)
}

/// A slot inside a face is below those of the halves of edges.
proof fn lemma_loop_kind(p: lp::Parent, f: int, j: int, k: int)
    requires
        p.ok(),
        0 <= f < p.faces.len(),
        0 <= j < 4,
        0 <= k < 3,
    ensures
        p.child_slots(f, j)[k] < 3 * p.faces.len() <==> j == 3 || k == 1,
        j < 3 && k == 1 ==> p.child_slots(f, j)[k] == 3 * f + j,
        j == 3 ==> 3 * f <= p.child_slots(f, j)[k] < 3 * f + 3,
{
    lp::lemma_face_indices(p, f);
    if j < 3 {
        assert(p.face_edges[f][j] < p.edges.len());
        assert(p.face_edges[f][prev_corner(j, 3)] < p.edges.len());
    }
}

proof fn lemma_loop_pair(p: lp::Parent, f: int, c: int, k: int, d: int, m: int)
    requires
        p.ok(),
        0 <= f < p.faces.len(),
        0 <= c < 3,
        0 <= d < 3,
        k == 0 || k == 2,
        m == 0 || m == 2,
        p.child_slots(f, c)[k] == p.child_slots(f, d)[m],
    ensures
        c == d,
{
    lp::lemma_face_indices(p, f);
    let fe = p.face_edges[f];
    let fv = p.faces[f];
    let i = if k == 2 {
        prev_corner(c, 3)
    } else {
        c
    };
    let j = if m == 2 {
        prev_corner(d, 3)
    } else {
        d
    };
    let e = fe[i] as int;
    let g = fe[j] as int;
    let v = fv[c];
    let w = fv[d];
    assert(2 * e + p.side(e, v) == 2 * g + p.side(g, w));
    assert(e == g);
    let e0 = p.edges[fe[0] as int];
    let e1 = p.edges[fe[1] as int];
    let e2 = p.edges[fe[2] as int];
    assert(fe[0] != fe[1] && fe[1] != fe[2] && fe[2] != fe[0]);
    assert(i == j);
    if k != m {
        let x = fv[i];
        let y = fv[next_corner(i, 3)];
        assert(p.edges[fe[i] as int] == crate::connectivity::edge_key_of(x, y) && x != y);
        assert((v == x && w == y) || (v == y && w == x));
        assert(false);
    }
}

proof fn lemma_loop_edge(p: lp::Parent, f: int, c: int, k: int) -> (r: int)
    requires
        p.ok(),
        0 <= f < p.faces.len(),
        0 <= c < 3,
        k == 0 || k == 2,
    ensures
        0 <= r < 3,
        p.face_edges[f][r] == (p.child_slots(f, c)[k] - 3 * p.faces.len()) / 2,
        corner_keys(p.faces)[row_start(p.faces, f) + r] == p.edges[p.face_edges[f][r] as int],
        corner_faces(p.faces)[row_start(p.faces, f) + r] == f as u32,
        0 <= row_start(p.faces, f) + r < corner_keys(p.faces).len(),
{
    lp::lemma_face_indices(p, f);
    let i = if k == 2 {
        prev_corner(c, 3)
    } else {
        c
    };
    lemma_corner(p.faces, f, i);
    assert(p.edges[p.face_edges[f][i] as int] == face_keys(p.faces[f])[i]) by {
        reveal(lp::Parent::ok);
    }
    i
}

#[verifier::rlimit(60)]
proof fn lemma_loop_two_owners(p: lp::Parent)
    requires
        p.ok(),
        p.simple(),
        edge_fault(p.faces) is None,
    ensures
        two_owners(corner_keys(p.children()), corner_faces(p.children())),
{
    let keys = corner_keys(p.children());
    let owners = corner_faces(p.children());
    let s = p.slots();
    lp::lemma_child_counts(p);
    lp::lemma_refined_corners(p);
    lemma_faces_have_two_owners(p.faces);
    assert(p.faces.len() <= u32::MAX) by {
        reveal(lp::Parent::ok);
    }
    assert forall|x: int, y: int, z: int|
        #![trigger keys[x], keys[y], keys[z]]
        0 <= x < keys.len() && 0 <= y < keys.len() && 0 <= z < keys.len() && keys[x] == keys[y] && keys[y]
            == keys[z] implies owners[x] == owners[y] || owners[y] == owners[z] || owners[x] == owners[z] by {
        assert(p.slot_key(s[x]) == keys[x] && p.slot_key(s[y]) == keys[y] && p.slot_key(s[z]) == keys[z]);
        lp::lemma_slot_keys_differ(p, s[x], s[y]);
        lp::lemma_slot_keys_differ(p, s[y], s[z]);
        let (f, c, k) = lemma_loop_place(p, x);
        let (g, d, m) = lemma_loop_place(p, y);
        let (h, b, l) = lemma_loop_place(p, z);
        lemma_loop_kind(p, f, c, k);
        lemma_loop_kind(p, g, d, m);
        lemma_loop_kind(p, h, b, l);
        if s[x] < 3 * p.faces.len() {
            assert(f == g && g == h);
            assert(c == d || d == b || c == b);
        } else {
            let i = lemma_loop_edge(p, f, c, k);
            let j = lemma_loop_edge(p, g, d, m);
            let o = lemma_loop_edge(p, h, b, l);
            let pk = corner_keys(p.faces);
            let a1 = row_start(p.faces, f) + i;
            let a2 = row_start(p.faces, g) + j;
            let a3 = row_start(p.faces, h) + o;
            assert(pk[a1] == pk[a2] && pk[a2] == pk[a3]);
            if f == g {
                lemma_loop_pair(p, f, c, k, d, m);
            } else if g == h {
                lemma_loop_pair(p, g, d, m, b, l);
            } else {
                assert(f == h);
                lemma_loop_pair(p, f, c, k, b, l);
            }
        }
    }
}

/// The general construction takes the refined faces of a triangle mesh that it took,
/// where no two corners of the parent lie between the same two edges.
pub proof fn loop_faces_are_taken(p: lp::Parent)
    requires
        p.ok(),
        p.simple(),
        p.refined_vertex_count() > 0,
        edge_fault(p.faces) is None,
    ensures
        edge_fault(p.children()) is None,
        mesh_fault(corner_counts(p.children()), flat(p.children()), p.refined_vertex_count() as int, true) is None,
{
    let keys = corner_keys(p.children());
    let a = p.slots();
    let b = key_labels(keys);
    lp::lemma_child_counts(p);
    lp::lemma_refined_corners(p);
    lemma_loop_two_owners(p);
    lemma_no_corner_fault(keys, corner_faces(p.children()), keys.len() as int);
    assert forall|x: int, y: int| 0 <= x < a.len() && 0 <= y < a.len() implies (a[x] == a[y] <==> #[trigger] b[x]
        == #[trigger] b[y]) by {
        assert(p.slot_key(a[x]) == keys[x]);
        assert(p.slot_key(a[y]) == keys[y]);
        if b[x] == b[y] {
            lemma_key_label_injective(keys[x], keys[y]);
            lp::lemma_slot_keys_differ(p, a[x], a[y]);
        }
    }
    assert(same_partition(a, b));
    lemma_partition_numbers(a, b);
    assert(12 * p.faces.len() < u32::MAX && 2 * p.slot_count() <= u32::MAX && 0 <= p.slot_count()) by {
        reveal(lp::Parent::ok);
    }
    lemma_distinct_bound(a, p.slot_count());
    assert forall|q: int| 0 <= q < p.children().len() implies 3 <= (#[trigger] p.children()[q]).len() <= u32::MAX
        && all_below(p.children()[q], p.refined_vertex_count() as int) by {}
    lemma_proper_faces_fault(p.children(), p.refined_vertex_count() as int);
}

/// Every edge of the parent is an edge of some face.
pub open spec fn edges_used(face_edges: Seq<Seq<u32>>, count: nat) -> bool {
    forall|e: int| 0 <= e < count ==> #[trigger] edge_used(face_edges, e)
}

pub open spec fn edge_used(face_edges: Seq<Seq<u32>>, e: int) -> bool {
    exists|f: int, c: int|
        0 <= f < face_edges.len() && 0 <= c < face_edges[f].len() && #[trigger] face_edges[f][c] == e
}

/// The edges of the tables of a mesh are edges of its faces.
pub proof fn edges_of_tables_are_used<S: Scalar>(t: Topology<S>, faces: Seq<Seq<u32>>, labels: Seq<int>, n: nat)
    requires
        t.describes_edges(faces, labels, n),
    ensures
        edges_used(t.face_edges@, t.edges().len()),
{
    let d = distinct(labels);
    let ids = flat(t.face_edges@);
    lemma_distinct(labels);
    assert forall|e: int| 0 <= e < t.edges().len() implies #[trigger] edge_used(t.face_edges@, e) by {
        assert(d.contains(d[e]));
        assert(labels.contains(d[e]));
        let at = labels.index_of(d[e]);
        assert(d[ids[at] as int] == labels[at]);
        let (f, c) = lemma_flat_locate(t.face_edges@, at);
        assert(t.face_edges@[f][c] == e);
    }
}

/// The slot of half an edge is taken by a corner of the refined mesh.
proof fn lemma_loop_slot_taken(p: lp::Parent, s: int)
    requires
        p.ok(),
        edges_used(p.face_edges, p.edges.len()),
        0 <= s < p.slot_count(),
    ensures
        p.slots().contains(s),
{
    let nf = p.faces.len() as int;
    lp::lemma_child_counts(p);
    if s < 3 * nf {
        let f = s / 3;
        let j = s % 3;
        lp::lemma_refined_corner(p, f, j, 1);
        assert(p.slots()[12 * f + 3 * j + 1] == s);
    } else {
        let e = (s - 3 * nf) / 2;
        let side = (s - 3 * nf) % 2;
        assert(edge_used(p.face_edges, e));
        let (f, c) = choose|f: int, c: int|
            0 <= f < p.face_edges.len() && 0 <= c < p.face_edges[f].len() && #[trigger] p.face_edges[f][c] == e;
        assert(p.face_edges.len() == nf) by {
            reveal(lp::Parent::ok);
        }
        lp::lemma_face_indices(p, f);
        let d = next_corner(c, 3);
        let x = p.faces[f][c];
        let y = p.faces[f][d];
        assert(p.edges[p.face_edges[f][c] as int] == crate::connectivity::edge_key_of(x, y) && x != y);
        lp::lemma_refined_corner(p, f, c, 0);
        lp::lemma_refined_corner(p, f, d, 2);
        assert(prev_corner(d, 3) == c);
        if p.side(e, x) == side {
            assert(p.slots()[12 * f + 3 * c] == s);
        } else {
            assert(p.side(e, y) == side);
            assert(p.slots()[12 * f + 3 * d + 2] == s);
        }
    }
}

/// A triangle mesh with `E` edges and `F` faces has `2E + 3F` edges when it is refined.
pub proof fn loop_refinement_has_all_edges<S: Scalar>(p: lp::Parent, t: Topology<S>)
    requires
        p.ok(),
        edges_used(p.face_edges, p.edges.len()),
        t.describes(p.children(), p.slots(), p.refined_vertex_count()),
    ensures
        t.edges().len() == 2 * p.edges.len() + 3 * p.faces.len(),
{
    lp::lemma_refined_corners(p);
    assert forall|s: int| 0 <= s < p.slot_count() implies #[trigger] p.slots().contains(s) by {
        lemma_loop_slot_taken(p, s);
    }
    lemma_distinct_all(p.slots(), p.slot_count());
}

/// The direct construction of a refined triangle mesh is the general one: where no two
/// corners of the parent lie between the same two edges, the general construction takes
/// the refined faces, and what it makes of them without creases is the same in every
/// table, with `2E + 3F` edges.
pub proof fn loop_direct_construction_is_the_general_one<S: Scalar>(p: lp::Parent, t: Topology<S>, g: Topology<S>)
    requires
        p.ok(),
        p.simple(),
        p.refined_vertex_count() > 0,
        edge_fault(p.faces) is None,
        edges_used(p.face_edges, p.edges.len()),
        t.describes(p.children(), p.slots(), p.refined_vertex_count()),
        t.edge_creases@ == Seq::new(t.edges().len(), |e: int| zero_of::<S>()),
        g.describes(p.children(), key_labels(corner_keys(p.children())), p.refined_vertex_count()),
        g.edge_creases@ == Seq::new(g.edges().len(), |e: int| zero_of::<S>()),
    ensures
        mesh_fault(corner_counts(p.children()), flat(p.children()), p.refined_vertex_count() as int, true) is None,
        same_topology(t, g),
        g.edges().len() == 2 * p.edges.len() + 3 * p.faces.len(),
{
    loop_faces_are_taken(p);
    lp::refined_uniform_matches_generic(p, t);
    loop_refinement_has_all_edges(p, t);
    let faces = p.children();
    let labels = key_labels(corner_keys(faces));
    lemma_tables_unique(t, g, faces, labels, p.refined_vertex_count());
    topologies_are_unique(t, g, faces, labels, p.refined_vertex_count());
}

/// The slot of a spoke or of half an edge is taken by a corner of the refined mesh.
proof fn lemma_cc_slot_taken(p: cc::Parent, s: int)
    requires
        p.ok(),
        edges_used(p.face_edges, p.edges.len()),
        0 <= s < p.slot_count(),
    ensures
        p.slots().contains(s),
{
    let corners = flat(p.faces).len() as int;
    cc::lemma_quad_counts(p);
    if s < corners {
        let (f, c) = lemma_flat_locate(p.faces, s);
        cc::lemma_refined_corner(p, f, c, 3);
        assert(p.slots()[4 * (row_start(p.faces, f) + c) + 3] == s);
    } else {
        let e = (s - corners) / 2;
        let side = (s - corners) % 2;
        assert(edge_used(p.face_edges, e));
        let (f, c) = choose|f: int, c: int|
            0 <= f < p.face_edges.len() && 0 <= c < p.face_edges[f].len() && #[trigger] p.face_edges[f][c] == e;
        assert(p.face_edges.len() == p.faces.len() && p.face_edges[f].len() == p.faces[f].len()
            && p.faces[f].len() >= 3 && p.edges[p.face_edges[f][c] as int] == face_keys(p.faces[f])[c]
            && p.edges[e].0 < p.edges[e].1) by {
            reveal(cc::Parent::ok);
            assert(p.faces[f].len() >= 3);
        }
        let n = p.faces[f].len() as int;
        let d = next_corner(c, n);
        let x = p.faces[f][c];
        let y = p.faces[f][d];
        cc::lemma_refined_corner(p, f, c, 2);
        cc::lemma_refined_corner(p, f, d, 1);
        assert(prev_corner(d, n) == c);
        if p.side(e, x) == side {
            assert(p.slots()[4 * (row_start(p.faces, f) + c) + 2] == s);
        } else {
            assert(p.side(e, y) == side);
            assert(p.slots()[4 * (row_start(p.faces, f) + d) + 1] == s);
        }
    }
}

/// A mesh with `E` edges and `C` corners has `2E + C` edges when it is refined into
/// quads.
pub proof fn catmull_clark_refinement_has_all_edges<S: Scalar>(p: cc::Parent, t: Topology<S>)
    requires
        p.ok(),
        edges_used(p.face_edges, p.edges.len()),
        t.describes(p.quads(), p.slots(), p.refined_vertex_count()),
    ensures
        t.edges().len() == 2 * p.edges.len() + flat(p.faces).len(),
{
    cc::lemma_refined_corners(p);
    assert forall|s: int| 0 <= s < p.slot_count() implies #[trigger] p.slots().contains(s) by {
        lemma_cc_slot_taken(p, s);
    }
    lemma_distinct_all(p.slots(), p.slot_count());
}

/// The direct construction of a Catmull-Clark refinement is the general one: where no
/// face of the parent passes an edge twice, the general construction takes the quads,
/// and what it makes of them without creases is the same in every table, with `2E + C`
/// edges.
pub proof fn catmull_clark_direct_construction_is_the_general_one<S: Scalar>(
    p: cc::Parent,
    t: Topology<S>,
    g: Topology<S>,
)
    requires
        p.ok(),
        p.simple(),
        p.refined_vertex_count() > 0,
        edge_fault(p.faces) is None,
        edges_used(p.face_edges, p.edges.len()),
        t.describes(p.quads(), p.slots(), p.refined_vertex_count()),
        t.edge_creases@ == Seq::new(t.edges().len(), |e: int| zero_of::<S>()),
        g.describes(p.quads(), key_labels(corner_keys(p.quads())), p.refined_vertex_count()),
        g.edge_creases@ == Seq::new(g.edges().len(), |e: int| zero_of::<S>()),
    ensures
        mesh_fault(corner_counts(p.quads()), flat(p.quads()), p.refined_vertex_count() as int, true) is None,
        same_topology(t, g),
        g.edges().len() == 2 * p.edges.len() + flat(p.faces).len(),
{
    catmull_clark_faces_are_taken(p);
    cc::refined_uniform_matches_generic(p, t);
    catmull_clark_refinement_has_all_edges(p, t);
    let faces = p.quads();
    let labels = key_labels(corner_keys(faces));
    lemma_tables_unique(t, g, faces, labels, p.refined_vertex_count());
    topologies_are_unique(t, g, faces, labels, p.refined_vertex_count());
}

} // verus!
