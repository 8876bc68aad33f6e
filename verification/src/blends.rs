//! Limit points are what the weights of the refined points give, where
//! arithmetic does not round.

use crate::copies::{copies_have_the_same_limits, nodes_are_unique, nodes_do_not_fail, twins};
use crate::error::KernelError;
use crate::hashing::strictly_ascending;
use crate::interpolate::{components_moved, Interpolatable};
use crate::inverse::{chain_values, table_rows};
use crate::isolation::{eval_ready, is_node, node_fails, node_is_ok, node_ok, sub_positions, IsolationNode};
use crate::limit_eval::{
    applied, applied_sum, corner_sample, corner_weights, in_parent, keys_of, lemma_node_quadrant, lifted,
    lifted_entries, merged_row, narrowed, nearest_corner_of, node_frame, patch_weights, place, quadrant_of, sampled,
    snap_target_of, weighed, LimitEvaluator, SampleModel, MAX_ISOLATION_DEPTH,
};
use crate::means::orders_exactly;
use crate::options::SchemeOptions;
use crate::patch::{basis_of, grid_of, grids_of, regular_quad, tensor_of, tensor_sum};
use crate::scalar::{zero_of, Scalar, Wide};
use crate::stencil::{blend, blend_all, row_below, rows_below};
use crate::topology::{Adjacency, Mesh};
use crate::unity::{
    lemma_corner_range, lemma_value_collected, lemma_value_lifted, lemma_value_merged, lemma_weighed_node,
    lemma_widened, reads_both, value,
    weights_partition_unity,
};
use crate::weights::{lemma_one, reads_exactly, total};
use vstd::prelude::*;

verus! {

/// A coordinate of the points of a list.
pub open spec fn coordinate<S>(val: spec_fn(S) -> real, points: Seq<[S; 3]>, c: int) -> spec_fn(u32) -> real {
    |i: u32| val(points[i as int]@[c])
}

/// The node that a sample was found by way of.
pub(crate) proof fn lemma_sampled_node<S: Scalar, W: Wide<S>>(
    mesh: Mesh<S>,
    adj: Adjacency,
    options: SchemeOptions,
    positions: Seq<[S; 3]>,
    face: u32,
    uv: (W, W),
    left: nat,
    s: SampleModel<S, W>,
) -> (n: (IsolationNode<S>, Result<SampleModel<S, W>, KernelError>))
    requires
        sampled::<S, W>(mesh, adj, options, positions, face, uv, left, Ok(s)),
        !regular_quad(mesh, adj, face as int),
        snap_target_of(mesh, adj, options, face, uv) is None,
        left > 0,
    ensures
        is_node(mesh, adj, options, positions, face, n.0),
        sampled::<S, W>(
            n.0.refined.topology,
            n.0.refined.adjacency,
            options,
            n.0.positions@,
            n.0.children@[quadrant_of(uv)].face,
            node_frame::<S, W>(n.0, quadrant_of(uv)).inside(uv),
            (left - 1) as nat,
            n.1,
        ),
        Ok::<SampleModel<S, W>, KernelError>(s) == in_parent(node_frame::<S, W>(n.0, quadrant_of(uv)), n.1),
{
    reveal(sampled);
    let out = Ok::<SampleModel<S, W>, KernelError>(s);
    let (node, inner) = choose|node: IsolationNode<S>, inner: Result<SampleModel<S, W>, KernelError>| #[trigger]
        is_node(mesh, adj, options, positions, face, node) && sampled::<S, W>(
            node.refined.topology,
            node.refined.adjacency,
            options,
            node.positions@,
            node.children@[quadrant_of(uv)].face,
            node_frame::<S, W>(node, quadrant_of(uv)).inside(uv),
            (left - 1) as nat,
            inner,
        ) && out == #[trigger] in_parent(node_frame::<S, W>(node, quadrant_of(uv)), inner);
    (node, inner)
}

// ---------------------------------------------------------------------------
// Values
// ---------------------------------------------------------------------------
/// A move of a point moves its coordinates.
proof fn lemma_point_moved<S: Scalar>(a: [S; 3], b: [S; 3], w: S)
    ensures
        a.moved(b, w)@ == components_moved(a@, b@, w),
{
    let m = components_moved(a@, b@, w);
    let r: [S; 3] = [m[0], m[1], m[2]];
    assert(r@ =~= m);
}

proof fn lemma_point_origin<S: Scalar>()
    ensures
        <[S; 3] as Interpolatable<S>>::origin_of()@ == Seq::new(3, |k: int| zero_of::<S>()),
{
    let z = zero_of::<S>();
    let r: [S; 3] = [z, z, z];
    assert(r@ =~= Seq::new(3, |k: int| zero_of::<S>()));
}

/// A coordinate of a blend is the value of the row.
pub(crate) proof fn lemma_blend_value<S: Scalar>(
    val: spec_fn(S) -> real,
    row: Seq<(u32, S)>,
    input: Seq<[S; 3]>,
    c: int,
)
    requires
        reads_exactly(val),
        0 <= c < 3,
    ensures
        val(blend::<S, [S; 3]>(row, input)@[c]) == value(val, coordinate(val, input, c), row),
    decreases row.len(),
{
    lemma_one::<S>(val);
    if row.len() == 0 {
        lemma_point_origin::<S>();
    } else {
        let front = row.drop_last();
        let (i, w) = row.last();
        lemma_blend_value(val, front, input, c);
        let x = blend::<S, [S; 3]>(front, input);
        let b = input[i as int];
        lemma_point_moved(x, b, w);
        let p = val(b@[c]);
        let v = val(w);
        assert(val(S::times_of(b@[c], w)) == p * v);
        assert(p * v == v * p) by (nonlinear_arith);
    }
}

pub(crate) proof fn lemma_applied_value<S: Scalar, W: Wide<S>>(
    val: spec_fn(S) -> real,
    wal: spec_fn(W) -> real,
    row: Seq<(u32, S)>,
    positions: Seq<[S; 3]>,
    c: int,
    k: int,
)
    requires
        reads_both::<S, W>(val, wal),
        0 <= k <= row.len(),
    ensures
        wal(applied_sum::<S, W>(row, positions, c, k)) == value(val, coordinate(val, positions, c), row.take(k)),
    decreases k,
{
    lemma_one::<W>(wal);
    if k == 0 {
        assert(row.take(0).len() == 0);
    } else {
        lemma_applied_value::<S, W>(val, wal, row, positions, c, k - 1);
        assert(row.take(k).drop_last() =~= row.take(k - 1));
        assert(row.take(k).last() == row[k - 1]);
    }
}

pub(crate) proof fn lemma_tensor_value<S: Scalar, W: Wide<S>>(
    val: spec_fn(S) -> real,
    wal: spec_fn(W) -> real,
    points: Seq<u32>,
    uv: (W, W),
    positions: Seq<[S; 3]>,
    c: int,
    k: int,
)
    requires
        reads_both::<S, W>(val, wal),
        0 <= k <= 16,
    ensures
        ({
            let u = basis_of(W::widen_of(W::narrow_of(uv.0)));
            let v = basis_of(W::widen_of(W::narrow_of(uv.1)));
            wal(tensor_sum::<S, W>(points, u, v, positions, c, k)) == value(
                wal,
                coordinate(val, positions, c),
                patch_weights::<S, W>(points, uv).take(k),
            )
        }),
    decreases k,
{
    let row = patch_weights::<S, W>(points, uv);
    lemma_one::<W>(wal);
    if k == 0 {
        assert(row.take(0).len() == 0);
    } else {
        lemma_tensor_value::<S, W>(val, wal, points, uv, positions, c, k - 1);
        assert(row.take(k).drop_last() =~= row.take(k - 1));
        assert(row.take(k).last() == row[k - 1]);
    }
}

proof fn lemma_corner_value<S: Scalar, W: Wide<S>>(
    val: spec_fn(S) -> real,
    wal: spec_fn(W) -> real,
    mesh: Mesh<S>,
    adj: Adjacency,
    options: SchemeOptions,
    positions: Seq<[S; 3]>,
    face: u32,
    corner: int,
    s: SampleModel<S, W>,
    row: Seq<(u32, W)>,
    c: int,
)
    requires
        reads_both::<S, W>(val, wal),
        0 <= c < 3,
        corner_sample::<S, W>(mesh, adj, options, positions, face, corner) == Ok::<_, KernelError>(s),
        corner_weights::<S, W>(mesh, adj, options, face, corner) == Ok::<_, KernelError>(row),
    ensures
        val(s.p[c]) == value(wal, coordinate(val, positions, c), row),
{
    let x = coordinate(val, positions, c);
    let position = crate::limit::corner_sector_of::<S, W>(mesh, adj, options, face, corner)->Ok_0.0;
    lemma_widened::<S, W>(val, wal, x, position);
    lemma_applied_value::<S, W>(val, wal, position, positions, c, position.len() as int);
    assert(position.take(position.len() as int) =~= position);
    let a = applied::<S, W>(position, positions);
    assert(s.p == narrowed::<S, W>(a));
    assert(s.p[c] == W::narrow_of(a[c]));
}

/// Where a node puts its points.
pub(crate) proof fn lemma_node_points<S: Scalar>(
    val: spec_fn(S) -> real,
    mesh: Mesh<S>,
    adj: Adjacency,
    options: SchemeOptions,
    positions: Seq<[S; 3]>,
    face: u32,
    node: IsolationNode<S>,
    j: int,
    c: int,
)
    requires
        reads_exactly(val),
        is_node(mesh, adj, options, positions, face, node),
        0 <= j < node.refined.level_stencils@[0]@.len(),
        rows_below(node.refined.level_stencils@[0]@, node.sub_vertices@.len()),
        0 <= c < 3,
    ensures
        val(node.positions@[j]@[c]) == value(
            val,
            |i: u32| coordinate(val, positions, c)(node.sub_vertices@[i as int]),
            node.refined.level_stencils@[0]@[j],
        ),
{
    let rows = node.refined.level_stencils@[0]@;
    let input = sub_positions(positions, node.sub_vertices@);
    assert(node.positions@ == blend_all::<S, [S; 3]>(rows, input)) by {
        reveal(is_node);
        node_is_ok(mesh, adj, options, positions, face, node);
        reveal(node_ok);
        let levels = table_rows(node.refined.level_stencils@);
        assert(levels.len() == 1);
        assert(levels.last() == rows);
        assert(levels.drop_last().len() == 0);
        assert(chain_values::<S, [S; 3]>(levels.drop_last(), input) == input);
    }
    lemma_blend_value(val, rows[j], input, c);
    assert(row_below(rows[j], node.sub_vertices@.len()));
    lemma_value_same(
        val,
        coordinate(val, input, c),
        |i: u32| coordinate(val, positions, c)(node.sub_vertices@[i as int]),
        rows[j],
        node.sub_vertices@.len(),
    );
}

proof fn lemma_value_same<S>(
    val: spec_fn(S) -> real,
    x: spec_fn(u32) -> real,
    y: spec_fn(u32) -> real,
    row: Seq<(u32, S)>,
    n: nat,
)
    requires
        row_below(row, n),
        forall|i: u32| i < n ==> #[trigger] x(i) == y(i),
    ensures
        value(val, x, row) == value(val, y, row),
    decreases row.len(),
{
    if row.len() > 0 {
        let front = row.drop_last();
        assert forall|k: int| 0 <= k < front.len() implies (#[trigger] front[k]).0 < n by {
            assert(row[k] == front[k]);
        }
        lemma_value_same(val, x, y, front, n);
        assert(row[row.len() - 1].0 < n);
        assert(x(row.last().0) == y(row.last().0));
    }
}

proof fn lemma_same_sample<S: Scalar, W: Wide<S>>(
    other: Mesh<S>,
    other_adj: Adjacency,
    mesh: Mesh<S>,
    adj: Adjacency,
    options: SchemeOptions,
    positions: Seq<[S; 3]>,
    face: u32,
    uv: (W, W),
    left: nat,
    s: SampleModel<S, W>,
    t: SampleModel<S, W>,
)
    requires
        twins(other, other_adj, mesh, adj),
        sampled::<S, W>(other, other_adj, options, positions, face, uv, left, Ok(s)),
        sampled::<S, W>(mesh, adj, options, positions, face, uv, left, Ok(t)),
    ensures
        s == t,
    decreases left,
{
    let snap = snap_target_of(mesh, adj, options, face, uv);
    let corner = match snap {
        Some(corner) => corner,
        None => nearest_corner_of(uv),
    };
    copies_have_the_same_limits::<S, W>(other, other_adj, mesh, adj, options, face, uv, corner);
    if regular_quad(mesh, adj, face as int) || snap is Some || left == 0 {
        reveal(sampled);
    } else {
        let (first, s1) = lemma_sampled_node::<S, W>(other, other_adj, options, positions, face, uv, left, s);
        let (node, t1) = lemma_sampled_node::<S, W>(mesh, adj, options, positions, face, uv, left, t);
        nodes_are_unique(other, other_adj, mesh, adj, options, positions, face, first, node);
        let k = quadrant_of(uv);
        lemma_corner_range(uv);
        assert(first.children@[k].face == node.children@[k].face && first.children@[k].turn
            == node.children@[k].turn);
        lemma_same_sample::<S, W>(
            first.refined.topology,
            first.refined.adjacency,
            node.refined.topology,
            node.refined.adjacency,
            options,
            node.positions@,
            node.children@[k].face,
            node_frame::<S, W>(node, k).inside(uv),
            (left - 1) as nat,
            s1->Ok_0,
            t1->Ok_0,
        );
    }
}

/// A place of a quad has one sample.
pub proof fn samples_are_unique<S: Scalar, W: Wide<S>>(
    mesh: Mesh<S>,
    adj: Adjacency,
    options: SchemeOptions,
    positions: Seq<[S; 3]>,
    face: u32,
    uv: (W, W),
    left: nat,
    s: SampleModel<S, W>,
    t: SampleModel<S, W>,
)
    requires
        sampled::<S, W>(mesh, adj, options, positions, face, uv, left, Ok(s)),
        sampled::<S, W>(mesh, adj, options, positions, face, uv, left, Ok(t)),
    ensures
        s == t,
{
    lemma_same_sample::<S, W>(mesh, adj, mesh, adj, options, positions, face, uv, left, s, t);
}

/// A sample on a mesh and the weights on a copy of it.
proof fn lemma_points_on_copies<S: Scalar, W: Wide<S>>(
    val: spec_fn(S) -> real,
    wal: spec_fn(W) -> real,
    other: Mesh<S>,
    other_adj: Adjacency,
    mesh: Mesh<S>,
    adj: Adjacency,
    options: SchemeOptions,
    positions: Seq<[S; 3]>,
    face: u32,
    uv: (W, W),
    left: nat,
    s: SampleModel<S, W>,
    row: Seq<(u32, W)>,
    c: int,
)
    requires
        reads_both::<S, W>(val, wal),
        twins(other, other_adj, mesh, adj),
        eval_ready(mesh, adj),
        grids_of(mesh, adj, mesh.face_vertex_counts@.len() as int) is Ok,
        face < mesh.face_vertex_counts@.len(),
        0 <= c < 3,
        sampled::<S, W>(other, other_adj, options, positions, face, uv, left, Ok(s)),
        weighed::<S, W>(mesh, adj, options, positions, face, uv, left, Ok(row)),
    ensures
        val(s.p[c]) == value(wal, coordinate(val, positions, c), row),
    decreases left,
{
    let x = coordinate(val, positions, c);
    let snap = snap_target_of(mesh, adj, options, face, uv);
    let corner = match snap {
        Some(corner) => corner,
        None => nearest_corner_of(uv),
    };
    copies_have_the_same_limits::<S, W>(other, other_adj, mesh, adj, options, face, uv, corner);
    if regular_quad(mesh, adj, face as int) {
        reveal(sampled);
        reveal(weighed);
        let points = grid_of(mesh, adj, face as int, 4)->Ok_0;
        lemma_tensor_value::<S, W>(val, wal, points, uv, positions, c, 16);
        assert(row.take(16) =~= row);
        let u = basis_of(W::widen_of(W::narrow_of(uv.0)));
        let v = basis_of(W::widen_of(W::narrow_of(uv.1)));
        assert(s.p == tensor_of::<S, W>(points, u, v, positions));
        assert(s.p[c] == W::narrow_of(tensor_sum::<S, W>(points, u, v, positions, c, 16)));
    } else if snap is Some || left == 0 {
        reveal(sampled);
        reveal(weighed);
        lemma_corner_value::<S, W>(val, wal, mesh, adj, options, positions, face, corner, s, row, c);
    } else {
        let (first, s1) = lemma_sampled_node::<S, W>(
            other,
            other_adj,
            options,
            positions,
            face,
            uv,
            left,
            s,
        );
        let (node, inner) = lemma_weighed_node::<S, W>(mesh, adj, options, positions, face, uv, left, row);
        nodes_are_unique(other, other_adj, mesh, adj, options, positions, face, first, node);
        let k = quadrant_of(uv);
        node_is_ok(mesh, adj, options, positions, face, node);
        lemma_node_quadrant(node, mesh.vertex_count as int, k);
        assert(first.children@[k].face == node.children@[k].face && first.children@[k].turn
            == node.children@[k].turn);
        lemma_points_on_copies::<S, W>(
            val,
            wal,
            first.refined.topology,
            first.refined.adjacency,
            node.refined.topology,
            node.refined.adjacency,
            options,
            node.positions@,
            node.children@[k].face,
            node_frame::<S, W>(node, k).inside(uv),
            (left - 1) as nat,
            s1->Ok_0,
            inner,
            c,
        );
        weights_partition_unity::<S, W>(
            val,
            wal,
            node.refined.topology,
            node.refined.adjacency,
            options,
            node.positions@,
            node.children@[k].face,
            node_frame::<S, W>(node, k).inside(uv),
            (left - 1) as nat,
            inner,
        );
        let rows = node.refined.level_stencils@[0]@;
        let vertices = node.sub_vertices@;
        assert(rows.len() == node.refined.topology.vertex_count && rows_below(rows, vertices.len())) by {
            reveal(node_ok);
        }
        let z = coordinate(val, node.positions@, c);
        assert forall|e: int| 0 <= e < inner.len() implies z((#[trigger] inner[e]).0) == value(
            val,
            |i: u32| x(vertices[i as int]),
            rows[inner[e].0 as int],
        ) by {
            assert(inner[e].0 < rows.len());
            lemma_node_points(val, mesh, adj, options, positions, face, node, inner[e].0 as int, c);
        }
        lemma_value_lifted::<S, W>(val, wal, x, z, inner, rows, vertices, inner.len() as int);
        assert(inner.take(inner.len() as int) =~= inner);
        lemma_value_collected(
            wal,
            x,
            lifted_entries(inner, rows, vertices, inner.len() as int),
            row,
        );
    }
}

/// A limit point is what its weights give of the refined points: the sample of a
/// place and its weights agree, however each was found.
pub proof fn points_are_blends_of_their_weights<S: Scalar, W: Wide<S>>(
    val: spec_fn(S) -> real,
    wal: spec_fn(W) -> real,
    mesh: Mesh<S>,
    adj: Adjacency,
    options: SchemeOptions,
    positions: Seq<[S; 3]>,
    face: u32,
    uv: (W, W),
    left: nat,
    s: SampleModel<S, W>,
    row: Seq<(u32, W)>,
    c: int,
)
    requires
        reads_both::<S, W>(val, wal),
        eval_ready(mesh, adj),
        grids_of(mesh, adj, mesh.face_vertex_counts@.len() as int) is Ok,
        face < mesh.face_vertex_counts@.len(),
        0 <= c < 3,
        sampled::<S, W>(mesh, adj, options, positions, face, uv, left, Ok(s)),
        weighed::<S, W>(mesh, adj, options, positions, face, uv, left, Ok(row)),
    ensures
        val(s.p[c]) == value(wal, coordinate(val, positions, c), row),
        forall|out: Seq<(u32, S)>| #[trigger]
            merged_row::<S, W>(row, out) ==> val(s.p[c]) == value(val, coordinate(val, positions, c), out),
{
    let x = coordinate(val, positions, c);
    lemma_points_on_copies::<S, W>(
        val,
        wal,
        mesh,
        adj,
        mesh,
        adj,
        options,
        positions,
        face,
        uv,
        left,
        s,
        row,
        c,
    );
    assert forall|out: Seq<(u32, S)>| #[trigger] merged_row::<S, W>(row, out) implies val(s.p[c]) == value(
        val,
        x,
        out,
    ) by {
        lemma_value_merged::<S, W>(val, wal, x, row, out);
    }
}

/// Where a sample was found on a mesh, weights are found on a copy of it, and the other
/// way round.
proof fn lemma_success_on_copies<S: Scalar, W: Wide<S>>(
    other: Mesh<S>,
    other_adj: Adjacency,
    mesh: Mesh<S>,
    adj: Adjacency,
    options: SchemeOptions,
    positions: Seq<[S; 3]>,
    face: u32,
    uv: (W, W),
    left: nat,
    s: Result<SampleModel<S, W>, KernelError>,
    r: Result<Seq<(u32, W)>, KernelError>,
)
    requires
        twins(other, other_adj, mesh, adj),
        sampled::<S, W>(other, other_adj, options, positions, face, uv, left, s),
        weighed::<S, W>(mesh, adj, options, positions, face, uv, left, r),
    ensures
        s is Ok <==> r is Ok,
    decreases left,
{
    let snap = snap_target_of(mesh, adj, options, face, uv);
    let corner = match snap {
        Some(corner) => corner,
        None => nearest_corner_of(uv),
    };
    copies_have_the_same_limits::<S, W>(other, other_adj, mesh, adj, options, face, uv, corner);
    reveal(sampled);
    reveal(weighed);
    if !regular_quad(mesh, adj, face as int) && snap is None && left > 0 {
        let k = quadrant_of(uv);
        let s_fails = s is Err && node_fails(other, other_adj, options, face, s->Err_0);
        let r_fails = r is Err && node_fails(mesh, adj, options, face, r->Err_0);
        if !s_fails {
            let (first, s1) = choose|node: IsolationNode<S>, inner: Result<SampleModel<S, W>, KernelError>| #[trigger]
                is_node(other, other_adj, options, positions, face, node) && sampled::<S, W>(
                    node.refined.topology,
                    node.refined.adjacency,
                    options,
                    node.positions@,
                    node.children@[k].face,
                    node_frame::<S, W>(node, k).inside(uv),
                    (left - 1) as nat,
                    inner,
                ) && s == #[trigger] in_parent(node_frame::<S, W>(node, k), inner);
            if r_fails {
                nodes_do_not_fail(other, other_adj, mesh, adj, options, positions, face, first, r->Err_0);
            } else {
                let (node, r1) = choose|node: IsolationNode<S>, inner: Result<Seq<(u32, W)>, KernelError>| #[trigger]
                    is_node(mesh, adj, options, positions, face, node) && weighed::<S, W>(
                        node.refined.topology,
                        node.refined.adjacency,
                        options,
                        node.positions@,
                        node.children@[k].face,
                        node_frame::<S, W>(node, k).inside(uv),
                        (left - 1) as nat,
                        inner,
                    ) && #[trigger] lifted::<S, W>(node, inner, r);
                nodes_are_unique(other, other_adj, mesh, adj, options, positions, face, first, node);
                lemma_corner_range(uv);
                assert(first.children@[k].face == node.children@[k].face && first.children@[k].turn
                    == node.children@[k].turn);
                lemma_success_on_copies::<S, W>(
                    first.refined.topology,
                    first.refined.adjacency,
                    node.refined.topology,
                    node.refined.adjacency,
                    options,
                    node.positions@,
                    node.children@[k].face,
                    node_frame::<S, W>(node, k).inside(uv),
                    (left - 1) as nat,
                    s1,
                    r1,
                );
            }
        } else if !r_fails {
            let (node, r1) = choose|node: IsolationNode<S>, inner: Result<Seq<(u32, W)>, KernelError>| #[trigger]
                is_node(mesh, adj, options, positions, face, node) && weighed::<S, W>(
                    node.refined.topology,
                    node.refined.adjacency,
                    options,
                    node.positions@,
                    node.children@[k].face,
                    node_frame::<S, W>(node, k).inside(uv),
                    (left - 1) as nat,
                    inner,
                ) && #[trigger] lifted::<S, W>(node, inner, r);
            nodes_do_not_fail(mesh, adj, other, other_adj, options, positions, face, node, s->Err_0);
        }
    }
}

/// A place has weights if and only if it has a limit point.
pub proof fn points_and_weights_come_together<S: Scalar, W: Wide<S>>(
    mesh: Mesh<S>,
    adj: Adjacency,
    options: SchemeOptions,
    positions: Seq<[S; 3]>,
    face: u32,
    uv: (W, W),
    left: nat,
    s: Result<SampleModel<S, W>, KernelError>,
    r: Result<Seq<(u32, W)>, KernelError>,
)
    requires
        sampled::<S, W>(mesh, adj, options, positions, face, uv, left, s),
        weighed::<S, W>(mesh, adj, options, positions, face, uv, left, r),
    ensures
        s is Ok <==> r is Ok,
{
    lemma_success_on_copies::<S, W>(mesh, adj, mesh, adj, options, positions, face, uv, left, s, r);
}

/// The weights that an evaluator hands out, and the point that it evaluates: the
/// indices ascend and are vertices of the mesh, the weights sum up to one, and they
/// give the point.
pub proof fn weights_give_the_point<'a, S: Scalar, W: Wide<S>>(
    val: spec_fn(S) -> real,
    wal: spec_fn(W) -> real,
    ev: LimitEvaluator<'a, S>,
    face: u32,
    uv: Seq<S>,
    s: SampleModel<S, W>,
    row: Seq<(u32, W)>,
    out: Seq<(u32, S)>,
    c: int,
)
    requires
        reads_both::<S, W>(val, wal),
        ev.wf(),
        face < ev.mesh().face_vertex_counts@.len(),
        0 <= c < 3,
        ev.sample_at::<W>(face, uv, Ok(s)),
        weighed::<S, W>(
            ev.mesh(),
            ev.adj(),
            ev.result.options,
            ev.positions@,
            face,
            place::<S, W>(uv),
            MAX_ISOLATION_DEPTH as nat,
            Ok(row),
        ),
        merged_row::<S, W>(row, out),
    ensures
        strictly_ascending(keys_of(out)),
        row_below(out, ev.mesh().vertex_count as nat),
        total(val, out) == 1 as real,
        val(s.p[c]) == value(val, coordinate(val, ev.positions@, c), out),
{
    let left = MAX_ISOLATION_DEPTH as nat;
    let at = place::<S, W>(uv);
    points_are_blends_of_their_weights::<S, W>(
        val,
        wal,
        ev.mesh(),
        ev.adj(),
        ev.result.options,
        ev.positions@,
        face,
        at,
        left,
        s,
        row,
        c,
    );
    weights_partition_unity::<S, W>(
        val,
        wal,
        ev.mesh(),
        ev.adj(),
        ev.result.options,
        ev.positions@,
        face,
        at,
        left,
        row,
    );
    assert forall|k: int| 0 <= k < out.len() implies (#[trigger] out[k]).0 < ev.mesh().vertex_count by {
        let x = out[k].0;
        assert(keys_of(out)[k] == x);
        assert(keys_of(out).contains(x));
        assert(keys_of(row).contains(x));
        let j = keys_of(row).index_of(x);
        assert(row[j].0 == x);
    }
}

/// A place outside of the unit square is taken for the nearest place of the square, and
/// that place for itself.
pub proof fn places_are_clamped<S: Scalar, W: Wide<S>>(
    val: spec_fn(S) -> real,
    wal: spec_fn(W) -> real,
    uv: Seq<S>,
)
    requires
        reads_both::<S, W>(val, wal),
        orders_exactly(wal),
    ensures
        ({
            let x = val(uv[0]);
            let y = val(uv[1]);
            let at = place::<S, W>(uv);
            &&& wal(at.0) == (if x < 0 as real {
                0 as real
            } else if x > 1 as real {
                1 as real
            } else {
                x
            })
            &&& wal(at.1) == (if y < 0 as real {
                0 as real
            } else if y > 1 as real {
                1 as real
            } else {
                y
            })
            &&& wal(place::<S, W>(seq![W::narrow_of(at.0), W::narrow_of(at.1)]).0) == wal(at.0)
            &&& wal(place::<S, W>(seq![W::narrow_of(at.0), W::narrow_of(at.1)]).1) == wal(at.1)
        }),
{
    lemma_one::<W>(wal);
    let at = place::<S, W>(uv);
    assert(wal(W::widen_of(W::narrow_of(at.0))) == wal(at.0));
    assert(wal(W::widen_of(W::narrow_of(at.1))) == wal(at.1));
    assert(wal(W::widen_of(uv[0])) == val(uv[0]));
    assert(wal(W::widen_of(uv[1])) == val(uv[1]));
}

} // verus!
