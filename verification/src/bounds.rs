//! Boxes around refined quads and a tree of them.

use crate::error::KernelError;
use crate::isolation::{collect_support, is_support, support_corners};
use crate::limit_eval::LimitEvaluator;
use crate::metric::{bounded, bounded_of, Metric};
use crate::patch::{grid_of, patch_of_quad, patches_and_quads_agree, regular_quad};
use crate::ring::{quad_at, quad_slice, quads_ok};
use crate::rows::{flat, lemma_flat_take_next};
use crate::scalar::{Scalar, Wide};
use crate::topology::{all_below, Adjacency, Mesh};
use vstd::prelude::*;

verus! {

/// Faces in a leaf of the tree.
pub const LEAF_SIZE: usize = 4;

// ---------------------------------------------------------------------------
// Boxes
// ---------------------------------------------------------------------------
/// A box along the axes.
#[derive(Clone, Copy)]
pub struct Aabb<S> {
    pub min: [S; 3],
    pub max: [S; 3],
}

#[verifier::ext_equal]
pub struct BoxModel<S> {
    pub min: Seq<S>,
    pub max: Seq<S>,
}

impl<S> Aabb<S> {
    pub open spec fn view(self) -> BoxModel<S> {
        BoxModel { min: self.min@, max: self.max@ }
    }
}

impl<S: Metric> BoxModel<S> {
    /// The box without points.
    pub open spec fn empty() -> BoxModel<S> {
        let inf = S::infinity_of();
        let low = S::negated_of(inf);
        BoxModel { min: seq![inf, inf, inf], max: seq![low, low, low] }
    }

    /// The box of this one and a point.
    pub open spec fn with(self, p: Seq<S>) -> BoxModel<S> {
        BoxModel {
            min: Seq::new(3, |c: int| S::smaller_of(self.min[c], p[c])),
            max: Seq::new(3, |c: int| S::larger_of(self.max[c], p[c])),
        }
    }

    /// The box of this one and another.
    pub open spec fn joined(self, other: BoxModel<S>) -> BoxModel<S> {
        BoxModel {
            min: Seq::new(3, |c: int| S::smaller_of(self.min[c], other.min[c])),
            max: Seq::new(3, |c: int| S::larger_of(self.max[c], other.max[c])),
        }
    }

    pub open spec fn centroid<W: Wide<S>>(self) -> Seq<W> {
        Seq::new(
            3,
            |c: int|
                W::times_of(
                    W::plus_of(W::widen_of(self.min[c]), W::widen_of(self.max[c])),
                    W::ratio_of(1, 2),
                ),
        )
    }

    /// How far the box is from a point along an axis, squared.
    pub open spec fn gap<W: Wide<S>>(self, q: Seq<W>, c: int) -> W {
        let t = W::minus_of(bounded_of(q[c], W::widen_of(self.min[c]), W::widen_of(self.max[c])), q[c]);
        W::times_of(t, t)
    }

    /// The square of the distance from a point.
    pub open spec fn distance2<W: Wide<S>>(self, q: Seq<W>) -> W {
        W::plus_of(W::plus_of(self.gap(q, 0), self.gap(q, 1)), self.gap(q, 2))
    }

    pub open spec fn extent2<W: Wide<S>>(self, c: int) -> W {
        let t = W::widen_of(S::minus_of(self.max[c], self.min[c]));
        W::times_of(t, t)
    }

    pub open spec fn diagonal<W: Wide<S>>(self) -> W {
        W::sqrt_of(W::plus_of(W::plus_of(self.extent2(0), self.extent2(1)), self.extent2(2)))
    }
}

impl<S: Metric> Aabb<S> {
    /// The box without points.
    pub fn empty() -> (r: Self)
        ensures
            r@ == BoxModel::<S>::empty(),
    {
        let inf: S = S::infinity();
        let low: S = inf.negated();
        let r = Aabb { min: [inf, inf, inf], max: [low, low, low] };
        assert(r@ =~= BoxModel::<S>::empty());
        r
    }

    /// Takes in a point.
    pub fn take_in(&mut self, p: &[S; 3])
        ensures
            final(self)@ == old(self)@.with(p@),
    {
        let min: [S; 3] = [self.min[0].smaller(p[0]), self.min[1].smaller(p[1]), self.min[2].smaller(p[2])];
        let max: [S; 3] = [self.max[0].larger(p[0]), self.max[1].larger(p[1]), self.max[2].larger(p[2])];
        let ghost before = self@;
        self.min = min;
        self.max = max;
        assert(self@ =~= before.with(p@));
    }

    /// The box of two boxes.
    pub fn union(&self, other: &Aabb<S>) -> (r: Aabb<S>)
        ensures
            r@ == self@.joined(other@),
    {
        let r = Aabb {
            min: [
                self.min[0].smaller(other.min[0]),
                self.min[1].smaller(other.min[1]),
                self.min[2].smaller(other.min[2]),
            ],
            max: [
                self.max[0].larger(other.max[0]),
                self.max[1].larger(other.max[1]),
                self.max[2].larger(other.max[2]),
            ],
        };
        assert(r@ =~= self@.joined(other@));
        r
    }

    fn middle<W: Wide<S>>(&self, c: usize) -> (r: W)
        requires
            c < 3,
        ensures
            r == self@.centroid::<W>()[c as int],
    {
        W::widen(self.min[c]).plus(W::widen(self.max[c])).times(W::ratio(1, 2))
    }

    pub fn centroid<W: Wide<S>>(&self) -> (r: [W; 3])
        ensures
            r@ == self@.centroid::<W>(),
    {
        let r: [W; 3] = [self.middle(0), self.middle(1), self.middle(2)];
        assert(r@ =~= self@.centroid::<W>());
        r
    }

    fn gap<W: Wide<S>>(&self, q: &[W; 3], c: usize) -> (r: W)
        requires
            c < 3,
        ensures
            r == self@.gap(q@, c as int),
    {
        let t: W = bounded(q[c], W::widen(self.min[c]), W::widen(self.max[c])).minus(q[c]);
        t.times(t)
    }

    /// The square of the distance from a point; nought inside.
    pub fn distance2<W: Wide<S>>(&self, q: &[W; 3]) -> (r: W)
        ensures
            r == self@.distance2(q@),
    {
        self.gap(q, 0).plus(self.gap(q, 1)).plus(self.gap(q, 2))
    }

    fn extent2<W: Wide<S>>(&self, c: usize) -> (r: W)
        requires
            c < 3,
        ensures
            r == self@.extent2::<W>(c as int),
    {
        let t: W = W::widen(self.max[c].minus(self.min[c]));
        t.times(t)
    }

    pub fn diagonal<W: Wide<S>>(&self) -> (r: W)
        ensures
            r == self@.diagonal::<W>(),
    {
        let x: W = self.extent2(0);
        x.plus(self.extent2(1)).plus(self.extent2(2)).sqrt()
    }
}

/// The box of the first `k` of some points.
pub open spec fn box_of<S: Metric>(points: Seq<u32>, positions: Seq<[S; 3]>, k: int) -> BoxModel<S>
    decreases k,
{
    if k <= 0 {
        BoxModel::empty()
    } else {
        box_of(points, positions, k - 1).with(positions[points[k - 1] as int]@)
    }
}

fn point_box<S: Metric>(points: &[u32], positions: &[[S; 3]]) -> (r: Aabb<S>)
    requires
        all_below(points@, positions@.len() as int),
    ensures
        r@ == box_of(points@, positions@, points@.len() as int),
{
    let mut out: Aabb<S> = Aabb::empty();
    let mut k: usize = 0;
    while k < points.len()
        invariant
            k <= points.len(),
            all_below(points@, positions@.len() as int),
            out@ == box_of(points@, positions@, k as int),
        decreases points.len() - k,
    {
        assert(points@[k as int] < positions@.len());
        out.take_in(&positions[points[k] as usize]);
        k += 1;
    }
    out
}

/// The points that span the box of a quad: the control points of its patch, or
/// the corners of all faces that touch it.
pub open spec fn spans<S: Scalar>(mesh: Mesh<S>, adj: Adjacency, face: int, points: Seq<u32>) -> bool {
    if regular_quad(mesh, adj, face) {
        grid_of(mesh, adj, face, 4) == Ok::<_, &'static str>(points)
    } else {
        exists|support: Seq<u32>| #[trigger]
            is_support(mesh, adj, face, support) && points == support_corners(mesh, support)
    }
}

/// The box of a quad.
pub open spec fn is_face_box<S: Metric>(
    mesh: Mesh<S>,
    adj: Adjacency,
    positions: Seq<[S; 3]>,
    face: int,
    b: BoxModel<S>,
) -> bool {
    exists|points: Seq<u32>| #[trigger]
        spans(mesh, adj, face, points) && b == box_of(points, positions, points.len() as int)
}

fn corners_of<S: Scalar>(mesh: &Mesh<S>, Ghost(adj): Ghost<Adjacency>, support: &[u32]) -> (r: Vec<u32>)
    requires
        quads_ok(*mesh, adj),
        all_below(support@, mesh.face_vertex_counts@.len() as int),
    ensures
        r@ == support_corners(*mesh, support@),
        all_below(r@, mesh.vertex_count as int),
{
    let ghost rows = support@.map_values(|f: u32| quad_at(*mesh, f as int));
    let mut out: Vec<u32> = Vec::new();
    let mut i: usize = 0;
    assert(rows.take(0) =~= Seq::<Seq<u32>>::empty());
    while i < support.len()
        invariant
            i <= support.len(),
            quads_ok(*mesh, adj),
            all_below(support@, mesh.face_vertex_counts@.len() as int),
            rows == support@.map_values(|f: u32| quad_at(*mesh, f as int)),
            out@ == flat(rows.take(i as int)),
            all_below(out@, mesh.vertex_count as int),
        decreases support.len() - i,
    {
        assert(support@[i as int] < mesh.face_vertex_counts@.len());
        let quad: &[u32] = quad_slice(mesh, Ghost(adj), support[i] as usize);
        let ghost before = out@;
        let mut k: usize = 0;
        assert(before + quad@.take(0) =~= before);
        while k < 4
            invariant
                k <= 4,
                quad@.len() == 4,
                all_below(quad@, mesh.vertex_count as int),
                all_below(out@, mesh.vertex_count as int),
                out@ == before + quad@.take(k as int),
            decreases 4 - k,
        {
            assert(quad@[k as int] < mesh.vertex_count);
            out.push(quad[k]);
            k += 1;
            assert(out@ =~= before + quad@.take(k as int));
        }
        assert(quad@.take(4) =~= quad@);
        proof {
            lemma_flat_take_next(rows, i as int);
        }
        i += 1;
    }
    assert(rows.take(i as int) =~= rows);
    out
}

/// The box of a quad.
pub fn face_box<'a, S: Metric>(evaluator: &LimitEvaluator<'a, S>, face: u32) -> (r: Aabb<S>)
    requires
        evaluator.wf(),
        face < evaluator.mesh().face_vertex_counts@.len(),
    ensures
        is_face_box(evaluator.mesh(), evaluator.adj(), evaluator.positions@, face as int, r@),
{
    let mesh: &Mesh<S> = &evaluator.result.topology;
    let adj: &Adjacency = &evaluator.result.adjacency;
    proof {
        patches_and_quads_agree(*mesh, *adj, face as int);
        if regular_quad(*mesh, *adj, face as int) {
            patch_of_quad(*mesh, *adj, face as int);
        }
    }
    match evaluator.table.face_patch(face) {
        Some(patch) => {
            let points: &[u32; 16] = evaluator.table.control_points(patch as usize);
            let r: Aabb<S> = point_box(points, evaluator.positions);
            assert(spans(*mesh, *adj, face as int, points@));
            r
        },
        None => {
            let support: Vec<u32> = collect_support(mesh, adj, face);
            let points: Vec<u32> = corners_of(mesh, Ghost(*adj), &support);
            let r: Aabb<S> = point_box(&points, evaluator.positions);
            assert(is_support(*mesh, *adj, face as int, support@));
            assert(spans(*mesh, *adj, face as int, points@));
            r
        },
    }
}

// ---------------------------------------------------------------------------
// Sorting by a key
// ---------------------------------------------------------------------------
/// The keys of the items do not fall.
pub open spec fn keys_ascend(items: Seq<u32>, keys: Seq<i64>) -> bool {
    forall|i: int, j: int|
        #![trigger items[i], items[j]]
        0 <= i <= j < items.len() ==> keys[items[i] as int] <= keys[items[j] as int]
}

fn merge_by_key(a: &[u32], b: &[u32], keys: &[i64]) -> (r: Vec<u32>)
    requires
        all_below(a@, keys@.len() as int),
        all_below(b@, keys@.len() as int),
        keys_ascend(a@, keys@),
        keys_ascend(b@, keys@),
    ensures
        r@.to_multiset() == (a@ + b@).to_multiset(),
        keys_ascend(r@, keys@),
        r@.len() == a@.len() + b@.len(),
        all_below(r@, keys@.len() as int),
{
    broadcast use vstd::seq_lib::group_to_multiset_ensures;

    let mut out: Vec<u32> = Vec::new();
    let mut i: usize = 0;
    let mut j: usize = 0;
    proof {
        assert(a@.take(0) + b@.take(0) =~= out@);
    }
    let total_a: usize = a.len();
    let total_b: usize = b.len();
    while i < total_a || j < total_b
        invariant
            i <= total_a,
            j <= total_b,
            total_a == a@.len(),
            total_b == b@.len(),
            all_below(a@, keys@.len() as int),
            all_below(b@, keys@.len() as int),
            keys_ascend(a@, keys@),
            keys_ascend(b@, keys@),
            out@.len() == i + j,
            out@.to_multiset() == (a@.take(i as int) + b@.take(j as int)).to_multiset(),
            all_below(out@, keys@.len() as int),
            keys_ascend(out@, keys@),
            forall|x: int, y: int|
                #![trigger out@[x], a@[y]]
                0 <= x < out@.len() && i <= y < a@.len() ==> keys@[out@[x] as int] <= keys@[a@[y] as int],
            forall|x: int, y: int|
                #![trigger out@[x], b@[y]]
                0 <= x < out@.len() && j <= y < b@.len() ==> keys@[out@[x] as int] <= keys@[b@[y] as int],
        decreases total_a - i + total_b - j,
    {
        let from_a: bool = if i < total_a && j < total_b {
            assert(a@[i as int] < keys@.len());
            assert(b@[j as int] < keys@.len());
            keys[a[i] as usize] <= keys[b[j] as usize]
        } else {
            i < total_a
        };
        let ghost before = out@;
        let ghost seen = a@.take(i as int) + b@.take(j as int);
        if from_a {
            assert(a@[i as int] < keys@.len());
            out.push(a[i]);
            proof {
                before.to_multiset_ensures();
                lemma_insert_multiset(a@.take(i as int), b@.take(j as int), a@[i as int]);
                assert(a@.take(i + 1) =~= a@.take(i as int).push(a@[i as int]));
            }
            i += 1;
        } else {
            assert(b@[j as int] < keys@.len());
            out.push(b[j]);
            proof {
                before.to_multiset_ensures();
                seen.to_multiset_ensures();
                assert(a@.take(i as int) + b@.take(j + 1) =~= seen.push(b@[j as int]));
            }
            j += 1;
        }
    }
    assert(a@.take(i as int) =~= a@);
    assert(b@.take(j as int) =~= b@);
    out
}

proof fn lemma_insert_multiset(a: Seq<u32>, b: Seq<u32>, x: u32)
    ensures
        (a.push(x) + b).to_multiset() == (a + b).to_multiset().insert(x),
{
    vstd::seq_lib::lemma_multiset_commutative(a.push(x), b);
    vstd::seq_lib::lemma_multiset_commutative(a, b);
    a.to_multiset_ensures();
    assert((a.push(x) + b).to_multiset() =~= (a + b).to_multiset().insert(x));
}

/// The items in the order of their keys.
fn sort_by_key(items: &[u32], keys: &[i64]) -> (r: Vec<u32>)
    requires
        all_below(items@, keys@.len() as int),
    ensures
        r@.to_multiset() == items@.to_multiset(),
        r@.len() == items@.len(),
        keys_ascend(r@, keys@),
        all_below(r@, keys@.len() as int),
    decreases items@.len(),
{
    if items.len() <= 1 {
        let r: Vec<u32> = crate::csr::copied(items);
        return r;
    }
    let mid: usize = items.len() / 2;
    let left: &[u32] = vstd::slice::slice_subrange(items, 0, mid);
    let right: &[u32] = vstd::slice::slice_subrange(items, mid, items.len());
    assert(left@ + right@ =~= items@);
    let a: Vec<u32> = sort_by_key(left, keys);
    let b: Vec<u32> = sort_by_key(right, keys);
    proof {
        vstd::seq_lib::lemma_multiset_commutative(a@, b@);
        vstd::seq_lib::lemma_multiset_commutative(left@, right@);
    }
    merge_by_key(&a, &b, keys)
}

// ---------------------------------------------------------------------------
// Tree
// ---------------------------------------------------------------------------
/// What a node of the tree holds: two nodes, or a run of faces.
#[derive(Clone, Copy)]
pub enum NodeKind {
    Internal { left: u32, right: u32 },
    Leaf { start: u32, len: u32 },
}

/// A node of the tree.
pub struct Node<S> {
    pub aabb: Aabb<S>,
    pub kind: NodeKind,
}

/// The box of the boxes of some faces.
pub open spec fn join_all<S: Metric>(boxes: Seq<Aabb<S>>, faces: Seq<u32>, k: int) -> BoxModel<S>
    decreases k,
{
    if k <= 0 {
        BoxModel::empty()
    } else {
        join_all(boxes, faces, k - 1).joined(boxes[faces[k - 1] as int]@)
    }
}

/// The box holds the boxes of these faces, taken in some order.
pub open spec fn boxes_joined<S: Metric>(boxes: Seq<Aabb<S>>, faces: Seq<u32>, b: BoxModel<S>) -> bool {
    exists|list: Seq<u32>| #[trigger]
        list.to_multiset() == faces.to_multiset() && list.len() == faces.len() && b == join_all(
            boxes,
            list,
            list.len() as int,
        )
}

/// The faces below a node.
pub open spec fn under<S>(nodes: Seq<Node<S>>, order: Seq<u32>, i: int) -> Seq<u32>
    decreases i,
{
    if i < 0 {
        Seq::empty()
    } else {
        match nodes[i].kind {
            NodeKind::Leaf { start, len } => order.subrange(start as int, start + len),
            NodeKind::Internal { left, right } => if left < i && right < i {
                under(nodes, order, left as int) + under(nodes, order, right as int)
            } else {
                Seq::empty()
            },
        }
    }
}

/// The nodes below a node come before it, its leaves lie within the list of
/// faces, and each box holds the boxes of the faces below.
pub open spec fn tree_ok<S: Metric>(nodes: Seq<Node<S>>, order: Seq<u32>, boxes: Seq<Aabb<S>>, i: int) -> bool
    decreases i,
{
    &&& 0 <= i < nodes.len()
    &&& boxes_joined(boxes, under(nodes, order, i), nodes[i].aabb@)
    &&& match nodes[i].kind {
        NodeKind::Leaf { start, len } => start + len <= order.len(),
        NodeKind::Internal { left, right } => left < i && right < i && tree_ok(nodes, order, boxes, left as int)
            && tree_ok(nodes, order, boxes, right as int),
    }
}

pub open spec fn starts_with<A>(long: Seq<A>, short: Seq<A>) -> bool {
    &&& short.len() <= long.len()
    &&& long.take(short.len() as int) == short
}

/// A tree stays as it is when nodes and faces are added behind it.
proof fn lemma_tree_grows<S: Metric>(
    nodes: Seq<Node<S>>,
    order: Seq<u32>,
    boxes: Seq<Aabb<S>>,
    more_nodes: Seq<Node<S>>,
    more_order: Seq<u32>,
    i: int,
)
    requires
        tree_ok(nodes, order, boxes, i),
        starts_with(more_nodes, nodes),
        starts_with(more_order, order),
    ensures
        tree_ok(more_nodes, more_order, boxes, i),
        under(more_nodes, more_order, i) == under(nodes, order, i),
    decreases i,
{
    assert(more_nodes[i] == more_nodes.take(nodes.len() as int)[i]);
    match nodes[i].kind {
        NodeKind::Leaf { start, len } => {
            assert(more_order.subrange(start as int, start + len) =~= more_order.take(
                order.len() as int,
            ).subrange(start as int, start + len));
        },
        NodeKind::Internal { left, right } => {
            lemma_tree_grows(nodes, order, boxes, more_nodes, more_order, left as int);
            lemma_tree_grows(nodes, order, boxes, more_nodes, more_order, right as int);
        },
    }
}

fn union_all<S: Metric>(boxes: &[Aabb<S>], faces: &[u32]) -> (r: Aabb<S>)
    requires
        all_below(faces@, boxes@.len() as int),
    ensures
        r@ == join_all(boxes@, faces@, faces@.len() as int),
{
    let mut out: Aabb<S> = Aabb::empty();
    let mut k: usize = 0;
    while k < faces.len()
        invariant
            k <= faces.len(),
            all_below(faces@, boxes@.len() as int),
            out@ == join_all(boxes@, faces@, k as int),
        decreases faces.len() - k,
    {
        assert(faces@[k as int] < boxes@.len());
        out = out.union(&boxes[faces[k] as usize]);
        k += 1;
    }
    out
}

/// The least centroid coordinate along an axis among the first `k` faces.
pub open spec fn least_of<W: Metric>(centroids: Seq<[W; 3]>, faces: Seq<u32>, axis: int, k: int) -> W
    decreases k,
{
    if k <= 0 {
        W::infinity_of()
    } else {
        W::smaller_of(least_of(centroids, faces, axis, k - 1), centroids[faces[k - 1] as int]@[axis])
    }
}

/// The greatest centroid coordinate along an axis among the first `k` faces.
pub open spec fn greatest_of<W: Metric>(centroids: Seq<[W; 3]>, faces: Seq<u32>, axis: int, k: int) -> W
    decreases k,
{
    if k <= 0 {
        W::negated_of(W::infinity_of())
    } else {
        W::larger_of(greatest_of(centroids, faces, axis, k - 1), centroids[faces[k - 1] as int]@[axis])
    }
}

/// How far the centroids of some faces spread along an axis.
pub open spec fn spread_of<W: Metric>(centroids: Seq<[W; 3]>, faces: Seq<u32>, axis: int) -> W {
    let n = faces.len() as int;
    W::minus_of(greatest_of(centroids, faces, axis, n), least_of(centroids, faces, axis, n))
}

/// The first axis along which the centroids spread most.
pub open spec fn widest_of<W: Metric>(centroids: Seq<[W; 3]>, faces: Seq<u32>) -> int {
    let first = if W::less_of(spread_of(centroids, faces, 0), spread_of(centroids, faces, 1)) {
        1int
    } else {
        0int
    };
    if W::less_of(spread_of(centroids, faces, first), spread_of(centroids, faces, 2)) {
        2
    } else {
        first
    }
}

fn spread<W: Metric>(centroids: &[[W; 3]], faces: &[u32], axis: usize) -> (r: W)
    requires
        all_below(faces@, centroids@.len() as int),
        axis < 3,
    ensures
        r == spread_of(centroids@, faces@, axis as int),
{
    let mut low: W = W::infinity();
    let mut high: W = W::infinity().negated();
    let mut k: usize = 0;
    while k < faces.len()
        invariant
            k <= faces.len(),
            axis < 3,
            all_below(faces@, centroids@.len() as int),
            low == least_of(centroids@, faces@, axis as int, k as int),
            high == greatest_of(centroids@, faces@, axis as int, k as int),
        decreases faces.len() - k,
    {
        assert(faces@[k as int] < centroids@.len());
        let x: W = centroids[faces[k] as usize][axis];
        low = low.smaller(x);
        high = high.larger(x);
        k += 1;
    }
    high.minus(low)
}

fn widest_axis<W: Metric>(centroids: &[[W; 3]], faces: &[u32]) -> (r: usize)
    requires
        all_below(faces@, centroids@.len() as int),
    ensures
        r == widest_of(centroids@, faces@),
        r < 3,
{
    let x: W = spread(centroids, faces, 0);
    let y: W = spread(centroids, faces, 1);
    let z: W = spread(centroids, faces, 2);
    let (first, widest): (usize, W) = if x.less(y) {
        (1, y)
    } else {
        (0, x)
    };
    if widest.less(z) {
        2
    } else {
        first
    }
}

/// The places of the centroids along an axis.
pub open spec fn axis_keys<W: Metric>(centroids: Seq<[W; 3]>, axis: int) -> Seq<i64> {
    centroids.map_values(|c: [W; 3]| W::order_of(c@[axis]))
}

fn keys_along<W: Metric>(centroids: &[[W; 3]], axis: usize) -> (r: Vec<i64>)
    requires
        axis < 3,
    ensures
        r@ == axis_keys(centroids@, axis as int),
{
    let ghost all = axis_keys(centroids@, axis as int);
    let mut out: Vec<i64> = Vec::new();
    let mut k: usize = 0;
    while k < centroids.len()
        invariant
            k <= centroids.len(),
            axis < 3,
            all == axis_keys(centroids@, axis as int),
            out@ == all.take(k as int),
        decreases centroids.len() - k,
    {
        out.push(centroids[k][axis].order());
        k += 1;
        assert(out@ =~= all.take(k as int));
    }
    assert(out@ =~= all);
    out
}

/// The centroids of the boxes and their places along the axes.
pub struct Layout<S, W> {
    pub boxes: Vec<Aabb<S>>,
    pub centroids: Vec<[W; 3]>,
    pub x: Vec<i64>,
    pub y: Vec<i64>,
    pub z: Vec<i64>,
}

impl<S: Metric, W: Wide<S> + Metric> Layout<S, W> {
    pub open spec fn wf(self) -> bool {
        &&& self.centroids@.len() == self.boxes@.len()
        &&& forall|k: int| 0 <= k < self.boxes@.len() ==> (#[trigger] self.centroids@[k])@ == self.boxes@[k]@.centroid::<W>()
        &&& self.x@ == axis_keys(self.centroids@, 0)
        &&& self.y@ == axis_keys(self.centroids@, 1)
        &&& self.z@ == axis_keys(self.centroids@, 2)
    }

    fn new(boxes: Vec<Aabb<S>>) -> (r: Self)
        ensures
            r.wf(),
            r.boxes == boxes,
    {
        let mut centroids: Vec<[W; 3]> = Vec::new();
        let mut k: usize = 0;
        while k < boxes.len()
            invariant
                k <= boxes.len(),
                centroids@.len() == k,
                forall|j: int| 0 <= j < k ==> (#[trigger] centroids@[j])@ == boxes@[j]@.centroid::<W>(),
            decreases boxes.len() - k,
        {
            centroids.push(boxes[k].centroid());
            k += 1;
        }
        let x: Vec<i64> = keys_along(&centroids, 0);
        let y: Vec<i64> = keys_along(&centroids, 1);
        let z: Vec<i64> = keys_along(&centroids, 2);
        Layout { boxes, centroids, x, y, z }
    }

    /// The two halves of some faces, parted along the widest axis.
    pub open spec fn parted(self, faces: Seq<u32>, near: Seq<u32>, far: Seq<u32>) -> bool {
        let keys = axis_keys(self.centroids@, widest_of(self.centroids@, faces));
        &&& near.len() == faces.len() / 2
        &&& near.len() + far.len() == faces.len()
        &&& (near + far).to_multiset() == faces.to_multiset()
        &&& forall|i: int, j: int|
            #![trigger near[i], far[j]]
            0 <= i < near.len() && 0 <= j < far.len() ==> keys[near[i] as int] <= keys[far[j] as int]
    }

    fn part(&self, faces: &[u32]) -> (r: (Vec<u32>, Vec<u32>))
        requires
            self.wf(),
            all_below(faces@, self.boxes@.len() as int),
        ensures
            self.parted(faces@, r.0@, r.1@),
            all_below(r.0@, self.boxes@.len() as int),
            all_below(r.1@, self.boxes@.len() as int),
    {
        let axis: usize = widest_axis(&self.centroids, faces);
        let keys: &Vec<i64> = if axis == 0 {
            &self.x
        } else if axis == 1 {
            &self.y
        } else {
            &self.z
        };
        let sorted: Vec<u32> = sort_by_key(faces, keys);
        let mid: usize = sorted.len() / 2;
        let near: &[u32] = vstd::slice::slice_subrange(sorted.as_slice(), 0, mid);
        let far: &[u32] = vstd::slice::slice_subrange(sorted.as_slice(), mid, sorted.len());
        assert(near@ + far@ =~= sorted@);
        proof {
            assert forall|i: int, j: int|
                #![trigger near@[i], far@[j]]
                0 <= i < near@.len() && 0 <= j < far@.len() implies keys@[near@[i] as int] <= keys@[far@[j] as int] by {
                assert(sorted@[i] == near@[i]);
                assert(sorted@[mid + j] == far@[j]);
            }
            assert forall|i: int| 0 <= i < near@.len() implies (#[trigger] near@[i]) < self.boxes@.len() by {
                assert(sorted@[i] == near@[i]);
            }
            assert forall|i: int| 0 <= i < far@.len() implies (#[trigger] far@[i]) < self.boxes@.len() by {
                assert(sorted@[mid + i] == far@[i]);
            }
        }
        (crate::csr::copied(near), crate::csr::copied(far))
    }
}

/// Adds the tree of some faces; the last node is its root.
#[verifier::rlimit(60)]
fn build_node<S: Metric, W: Wide<S> + Metric>(
    faces: &[u32],
    layout: &Layout<S, W>,
    nodes: &mut Vec<Node<S>>,
    order: &mut Vec<u32>,
) -> (r: u32)
    requires
        layout.wf(),
        all_below(faces@, layout.boxes@.len() as int),
        faces@.len() > 0,
        old(nodes)@.len() + 2 * faces@.len() <= u32::MAX,
        old(order)@.len() + faces@.len() <= u32::MAX,
    ensures
        starts_with(final(nodes)@, old(nodes)@),
        starts_with(final(order)@, old(order)@),
        r == final(nodes)@.len() - 1,
        final(nodes)@.len() < old(nodes)@.len() + 2 * faces@.len(),
        final(order)@.len() == old(order)@.len() + faces@.len(),
        tree_ok(final(nodes)@, final(order)@, layout.boxes@, r as int),
        under(final(nodes)@, final(order)@, r as int).to_multiset() == faces@.to_multiset(),
        under(final(nodes)@, final(order)@, r as int).len() == faces@.len(),
    decreases faces@.len(),
{
    let ghost nodes_before = nodes@;
    let ghost order_before = order@;
    let aabb: Aabb<S> = union_all(&layout.boxes, faces);
    let kind: NodeKind = if faces.len() <= LEAF_SIZE {
        let start: u32 = order.len() as u32;
        let mut k: usize = 0;
        assert(order_before + faces@.take(0) =~= order_before);
        while k < faces.len()
            invariant
                k <= faces.len(),
                order@ == order_before + faces@.take(k as int),
            decreases faces.len() - k,
        {
            order.push(faces[k]);
            k += 1;
            assert(order@ =~= order_before + faces@.take(k as int));
        }
        assert(faces@.take(k as int) =~= faces@);
        assert(order@.take(order_before.len() as int) =~= order_before);
        assert(order@.subrange(start as int, start + faces@.len()) =~= faces@);
        assert(nodes@.take(nodes_before.len() as int) =~= nodes_before);
        NodeKind::Leaf { start, len: faces.len() as u32 }
    } else {
        let (near, far) = layout.part(faces);
        let left: u32 = build_node(&near, layout, nodes, order);
        let ghost nodes_mid = nodes@;
        let ghost order_mid = order@;
        let right: u32 = build_node(&far, layout, nodes, order);
        proof {
            lemma_tree_grows(nodes_mid, order_mid, layout.boxes@, nodes@, order@, left as int);
            let a = under(nodes@, order@, left as int);
            let b = under(nodes@, order@, right as int);
            vstd::seq_lib::lemma_multiset_commutative(a, b);
            vstd::seq_lib::lemma_multiset_commutative(near@, far@);
            assert((a + b).to_multiset() =~= faces@.to_multiset());
            assert(nodes@.take(nodes_before.len() as int) =~= nodes@.take(nodes_mid.len() as int).take(
                nodes_before.len() as int,
            ));
            assert(order@.take(order_before.len() as int) =~= order@.take(order_mid.len() as int).take(
                order_before.len() as int,
            ));
        }
        NodeKind::Internal { left, right }
    };
    let ghost inner = nodes@;
    nodes.push(Node { aabb, kind });
    proof {
        assert(nodes@.take(inner.len() as int) =~= inner);
        assert(order@.take(order@.len() as int) =~= order@);
        let at = nodes@.len() - 1;
        match kind {
            NodeKind::Leaf { start, len } => {},
            NodeKind::Internal { left, right } => {
                lemma_tree_grows(inner, order@, layout.boxes@, nodes@, order@, left as int);
                lemma_tree_grows(inner, order@, layout.boxes@, nodes@, order@, right as int);
            },
        }
        assert(nodes@.take(nodes_before.len() as int) =~= inner.take(nodes_before.len() as int));
        assert(under(nodes@, order@, at).to_multiset() == faces@.to_multiset());
        assert(boxes_joined(layout.boxes@, under(nodes@, order@, at), aabb@)) by {
            assert(faces@.to_multiset() == under(nodes@, order@, at).to_multiset());
        }
    }
    (nodes.len() - 1) as u32
}

// ---------------------------------------------------------------------------
// Index
// ---------------------------------------------------------------------------
/// The tree of the boxes of all quads.
pub struct SearchIndex<S, W> {
    pub nodes: Vec<Node<S>>,
    pub root: u32,
    /// The faces of the leaves, one after the other.
    pub order: Vec<u32>,
    /// The box of each face.
    pub boxes: Vec<Aabb<S>>,
    /// Whether the surface has no boundary.
    pub closed: bool,
    /// Diagonal of the box of the whole surface.
    pub diag: W,
}

impl<S: Metric, W: Wide<S> + Metric> SearchIndex<S, W> {
    /// The faces below a node.
    pub open spec fn faces_under(self, i: int) -> Seq<u32> {
        under(self.nodes@, self.order@, i)
    }

    /// The tree fits together and has the boxes of all quads.
    pub open spec fn indexes<'a>(self, ev: LimitEvaluator<'a, S>) -> bool {
        let nf = ev.mesh().face_vertex_counts@.len();
        &&& tree_ok(self.nodes@, self.order@, self.boxes@, self.root as int)
        &&& self.boxes@.len() == nf
        &&& forall|f: int|
            0 <= f < nf ==> is_face_box(ev.mesh(), ev.adj(), ev.positions@, f, (#[trigger] self.boxes@[f])@)
        &&& self.faces_under(self.root as int).len() == nf
        &&& all_below(self.faces_under(self.root as int), nf as int)
        &&& forall|f: u32| f < nf ==> #[trigger] self.faces_under(self.root as int).contains(f)
        &&& self.closed == !(exists|e: int|
            0 <= e < ev.adj().edge_is_boundary@.len() && #[trigger] ev.adj().edge_is_boundary@[e])
        &&& self.diag == self.nodes@[self.root as int].aabb@.diagonal::<W>()
    }
}

fn is_closed(edge_is_boundary: &[bool]) -> (r: bool)
    ensures
        r == !(exists|e: int| 0 <= e < edge_is_boundary@.len() && #[trigger] edge_is_boundary@[e]),
{
    let mut e: usize = 0;
    while e < edge_is_boundary.len()
        invariant
            e <= edge_is_boundary.len(),
            forall|k: int| 0 <= k < e ==> !(#[trigger] edge_is_boundary@[k]),
        decreases edge_is_boundary.len() - e,
    {
        if edge_is_boundary[e] {
            assert(edge_is_boundary@[e as int]);
            return false;
        }
        e += 1;
    }
    true
}

/// Builds the tree of the boxes of all quads.
pub fn build_index<'a, S: Metric, W: Wide<S> + Metric>(evaluator: &LimitEvaluator<'a, S>) -> (r: Result<
    SearchIndex<S, W>,
    KernelError,
>)
    requires
        evaluator.wf(),
    ensures
        match r {
            Ok(index) => evaluator.mesh().face_vertex_counts@.len() > 0 && index.indexes(*evaluator),
            Err(error) => evaluator.mesh().face_vertex_counts@.len() == 0 && error == KernelError::InvalidTopology(
                "refined level has no faces to run closest-point queries against",
            ),
        },
{
    let mesh: &Mesh<S> = &evaluator.result.topology;
    let count: usize = mesh.face_vertex_counts.len();
    if count == 0 {
        return Err(
            KernelError::InvalidTopology("refined level has no faces to run closest-point queries against"),
        );
    }
    assert(4 * count <= u32::MAX) by {
        reveal(quads_ok);
    }
    let mut boxes: Vec<Aabb<S>> = Vec::new();
    let mut faces: Vec<u32> = Vec::new();
    let mut f: usize = 0;
    while f < count
        invariant
            f <= count,
            4 * count <= u32::MAX,
            evaluator.wf(),
            count == evaluator.mesh().face_vertex_counts@.len(),
            boxes@.len() == f,
            faces@.len() == f,
            forall|j: int| 0 <= j < f ==> (#[trigger] faces@[j]) == j,
            forall|j: int|
                0 <= j < f ==> is_face_box(
                    evaluator.mesh(),
                    evaluator.adj(),
                    evaluator.positions@,
                    j,
                    (#[trigger] boxes@[j])@,
                ),
        decreases count - f,
    {
        boxes.push(face_box(evaluator, f as u32));
        faces.push(f as u32);
        f += 1;
    }
    let layout: Layout<S, W> = Layout::new(boxes);
    let mut nodes: Vec<Node<S>> = Vec::new();
    let mut order: Vec<u32> = Vec::new();
    let root: u32 = build_node(&faces, &layout, &mut nodes, &mut order);
    proof {
        let all = under(nodes@, order@, root as int);
        assert forall|x: u32| #[trigger] all.contains(x) <==> faces@.contains(x) by {
            all.to_multiset_ensures();
            faces@.to_multiset_ensures();
            assert(all.to_multiset().count(x) == faces@.to_multiset().count(x));
        }
        assert forall|x: u32| x < count implies #[trigger] all.contains(x) by {
            assert(faces@[x as int] == x);
            assert(faces@.contains(x));
        }
        assert forall|k: int| 0 <= k < all.len() implies (#[trigger] all[k]) < count by {
            assert(all.contains(all[k]));
            let q = faces@.index_of(all[k]);
            assert(faces@[q] == q);
        }
    }
    let diag: W = nodes[root as usize].aabb.diagonal();
    let closed: bool = is_closed(&evaluator.result.adjacency.edge_is_boundary);
    Ok(SearchIndex { nodes, root, order, boxes: layout.boxes, closed, diag })
}

} // verus!
