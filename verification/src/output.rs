//! What a refinement hands back.

use crate::csr::copied;
use crate::hashing::strictly_ascending;
use crate::interpolate::Interpolatable;
use crate::inverse::{
    chain_composed, chain_fits, chain_listed_is_reached, chain_reached, chain_values, chain_width, lemma_chain_values_len,
    table_rows, InverseStencilChain,
};
use crate::options::{Scheme, SchemeOptions};
use crate::rows::flat;
use crate::scalar::Scalar;
use crate::stencil::{blend_all, rows_below, StencilTable};
use crate::topology::{Adjacency, Mesh};
use vstd::prelude::*;

verus! {

/// What a refined vertex was made from.
#[derive(Debug, Clone, Copy, PartialEq, Eq, Hash, Structural)]
pub enum VertexOrigin {
    Vertex(u32),
    Edge(u32),
    Face(u32),
}

/// Where the elements of a refined mesh come from.
#[derive(Debug, Clone, PartialEq, Eq, Hash)]
pub struct LineageMaps {
    pub vertex_origin: Vec<VertexOrigin>,
    /// Parent face of each face.
    pub face_parent: Vec<u32>,
    /// Parent edge of each edge; `u32::MAX` where there is none.
    pub edge_parent: Vec<u32>,
}

impl Default for LineageMaps {
    fn default() -> (r: Self)
        ensures
            r.vertex_origin@.len() == 0,
            r.face_parent@.len() == 0,
            r.edge_parent@.len() == 0,
    {
        LineageMaps { vertex_origin: Vec::new(), face_parent: Vec::new(), edge_parent: Vec::new() }
    }
}

pub open spec fn same_lineage(a: LineageMaps, b: LineageMaps) -> bool {
    &&& a.vertex_origin@ == b.vertex_origin@
    &&& a.face_parent@ == b.face_parent@
    &&& a.edge_parent@ == b.edge_parent@
}

pub(crate) fn copy_lineage(lineage: &LineageMaps) -> (r: LineageMaps)
    ensures
        same_lineage(r, *lineage),
{
    LineageMaps {
        vertex_origin: copied(&lineage.vertex_origin),
        face_parent: copied(&lineage.face_parent),
        edge_parent: copied(&lineage.edge_parent),
    }
}

pub open spec fn same_adjacency(a: Adjacency, b: Adjacency) -> bool {
    &&& a.face_edges@ == b.face_edges@
    &&& a.edge_faces@ == b.edge_faces@
    &&& a.vertex_edge_offsets@ == b.vertex_edge_offsets@
    &&& a.vertex_edges@ == b.vertex_edges@
    &&& a.vertex_face_offsets@ == b.vertex_face_offsets@
    &&& a.vertex_faces@ == b.vertex_faces@
    &&& a.edge_is_boundary@ == b.edge_is_boundary@
    &&& a.vertex_is_boundary@ == b.vertex_is_boundary@
}

pub(crate) fn copy_adjacency(a: &Adjacency) -> (r: Adjacency)
    ensures
        same_adjacency(r, *a),
{
    Adjacency {
        face_edges: copied(&a.face_edges),
        edge_faces: copied(&a.edge_faces),
        vertex_edge_offsets: copied(&a.vertex_edge_offsets),
        vertex_edges: copied(&a.vertex_edges),
        vertex_face_offsets: copied(&a.vertex_face_offsets),
        vertex_faces: copied(&a.vertex_faces),
        edge_is_boundary: copied(&a.edge_is_boundary),
        vertex_is_boundary: copied(&a.vertex_is_boundary),
    }
}

/// A refined mesh with everything that leads to it.
#[derive(Debug, Clone, PartialEq)]
#[non_exhaustive]
#[must_use]
pub struct RefinementResult<S> {
    pub topology: Mesh<S>,
    /// The stencils of each step, the first one on the original vertices.
    pub level_stencils: Vec<StencilTable<S>>,
    pub lineage: LineageMaps,
    /// For each face, the face of the original mesh that it lies in.
    pub face_root: Vec<u32>,
    /// Which faces are selected, if the request made a selection.
    pub selected_faces: Option<Vec<bool>>,
    pub edge_polylines: Option<Vec<Vec<u32>>>,
    pub adjacency: Adjacency,
    pub scheme: Scheme,
    pub options: SchemeOptions,
}

/// The tables are well formed and fit one after the other on `n` inputs.
pub open spec fn tables_fit<S: Scalar>(tables: Seq<StencilTable<S>>, n: nat) -> bool {
    &&& forall|k: int| 0 <= k < tables.len() ==> (#[trigger] tables[k]).wf()
    &&& chain_fits(table_rows(tables), n)
}

/// A prefix of tables that fit fits.
pub proof fn lemma_tables_fit_prefix<S: Scalar>(tables: Seq<StencilTable<S>>, n: nat, k: int)
    requires
        tables_fit(tables, n),
        0 <= k <= tables.len(),
    ensures
        tables_fit(tables.take(k), n),
        k < tables.len() ==> rows_below(tables[k]@, chain_width(table_rows(tables.take(k)), n)),
    decreases tables.len() - k,
{
    if k == tables.len() {
        assert(tables.take(k) =~= tables);
    } else {
        lemma_tables_fit_prefix(tables, n, k + 1);
        let more = tables.take(k + 1);
        assert(more.drop_last() =~= tables.take(k));
        assert(table_rows(more).drop_last() =~= table_rows(tables.take(k)));
        assert(table_rows(more).last() == tables[k]@);
        assert forall|j: int| 0 <= j < tables.take(k).len() implies (#[trigger] tables.take(k)[j]).wf() by {
            assert(tables[j].wf());
        }
    }
}

/// The values after one more table.
proof fn lemma_chain_step<S: Scalar, T: Interpolatable<S>>(tables: Seq<StencilTable<S>>, input: Seq<T>, k: int)
    requires
        tables_fit(tables, input.len()),
        0 <= k < tables.len(),
    ensures
        tables[k].wf(),
        rows_below(tables[k]@, chain_values::<S, T>(table_rows(tables.take(k)), input).len()),
        chain_values::<S, T>(table_rows(tables.take(k + 1)), input) == blend_all::<S, T>(
            tables[k]@,
            chain_values::<S, T>(table_rows(tables.take(k)), input),
        ),
{
    lemma_tables_fit_prefix(tables, input.len(), k);
    lemma_chain_values_len::<S, T>(table_rows(tables.take(k)), input);
    assert(table_rows(tables.take(k + 1)).drop_last() =~= table_rows(tables.take(k)));
    assert(table_rows(tables.take(k + 1)).last() == tables[k]@);
}

impl<S: Scalar> RefinementResult<S> {
    /// Carries data from the original vertices to the refined ones.
    pub fn interpolate<T: Interpolatable<S>>(&self, input: &[T]) -> (r: Vec<T>)
        requires
            tables_fit(self.level_stencils@, input@.len()),
        ensures
            self.level_stencils@.len() == 0 ==> r@.len() == input@.len() && forall|i: int|
                0 <= i < r@.len() ==> cloned(#[trigger] input@[i], r@[i]),
            self.level_stencils@.len() > 0 ==> r@ == chain_values::<S, T>(
                table_rows(self.level_stencils@),
                input@,
            ),
    {
        if self.level_stencils.len() == 0 {
            let mut out: Vec<T> = Vec::new();
            let mut i: usize = 0;
            while i < input.len()
                invariant
                    i <= input.len(),
                    out@.len() == i,
                    forall|j: int| 0 <= j < i ==> cloned(#[trigger] input@[j], out@[j]),
                decreases input.len() - i,
            {
                out.push(input[i].clone());
                i += 1;
            }
            return out;
        }
        let ghost tables = self.level_stencils@;
        proof {
            lemma_chain_step::<S, T>(tables, input@, 0);
            assert(table_rows(tables.take(0)) =~= Seq::<Seq<Seq<(u32, S)>>>::empty());
        }
        let mut data: Vec<T> = self.level_stencils[0].interpolate(input);
        let mut k: usize = 1;
        while k < self.level_stencils.len()
            invariant
                1 <= k <= self.level_stencils.len(),
                tables == self.level_stencils@,
                tables_fit(tables, input@.len()),
                data@ == chain_values::<S, T>(table_rows(tables.take(k as int)), input@),
            decreases self.level_stencils.len() - k,
        {
            proof {
                lemma_chain_step::<S, T>(tables, input@, k as int);
            }
            data = self.level_stencils[k].interpolate(&data);
            k += 1;
        }
        assert(tables.take(k as int) =~= tables);
        data
    }

    /// One table for all steps, on `input_vertex_count` inputs. The tables on
    /// the way must fit their 32-bit offsets.
    pub fn compose_stencils(&self, input_vertex_count: usize) -> (r: StencilTable<S>)
        requires
            input_vertex_count <= u32::MAX,
            tables_fit(self.level_stencils@, input_vertex_count as nat),
            forall|k: int|
                0 <= k <= self.level_stencils@.len() ==> flat(
                    #[trigger] chain_composed(
                        table_rows(self.level_stencils@.take(k)),
                        input_vertex_count as nat,
                    ),
                ).len() <= u32::MAX,
        ensures
            r.packed(),
            r@ == chain_composed(table_rows(self.level_stencils@), input_vertex_count as nat),
    {
        let ghost n = input_vertex_count as nat;
        let ghost tables = self.level_stencils@;
        let mut whole: StencilTable<S> = StencilTable::identity(input_vertex_count);
        assert(tables.take(0) =~= Seq::<StencilTable<S>>::empty());
        let mut k: usize = 0;
        while k < self.level_stencils.len()
            invariant
                k <= self.level_stencils.len(),
                tables == self.level_stencils@,
                tables_fit(tables, n),
                forall|k: int|
                    0 <= k <= tables.len() ==> flat(
                        #[trigger] chain_composed(table_rows(tables.take(k)), n),
                    ).len() <= u32::MAX,
                whole.packed(),
                whole@ == chain_composed(table_rows(tables.take(k as int)), n),
                whole@.len() == chain_width(table_rows(tables.take(k as int)), n),
            decreases self.level_stencils.len() - k,
        {
            proof {
                lemma_tables_fit_prefix(tables, n, k as int);
                assert(tables[k as int].wf());
                assert(table_rows(tables.take(k + 1)).drop_last() =~= table_rows(tables.take(k as int)));
                assert(table_rows(tables.take(k + 1)).last() == tables[k as int]@);
                assert(flat(chain_composed(table_rows(tables.take(k + 1)), n)).len() <= u32::MAX);
            }
            whole = whole.compose(&self.level_stencils[k]);
            k += 1;
        }
        assert(tables.take(k as int) =~= tables);
        whole
    }

    /// The inverses of all steps.
    pub fn inverse_stencil_chain(&self) -> (r: InverseStencilChain)
        requires
            forall|i: int|
                0 <= i < self.level_stencils@.len() ==> (#[trigger] self.level_stencils@[i]).reads_ok()
                    && self.level_stencils@[i].row_count() <= u32::MAX,
        ensures
            r.wf(),
            r.inverts(self.level_stencils@),
    {
        InverseStencilChain::from(&self.level_stencils)
    }

    /// The refined vertices that depend on one of the changed vertices, in
    /// ascending order and each once.
    pub fn affected_outputs(&self, changed_inputs: &[u32]) -> (r: Vec<u32>)
        requires
            forall|i: int|
                0 <= i < self.level_stencils@.len() ==> (#[trigger] self.level_stencils@[i]).reads_ok()
                    && self.level_stencils@[i].row_count() <= u32::MAX,
        ensures
            strictly_ascending(r@),
            r@.to_set() == chain_reached(table_rows(self.level_stencils@), changed_inputs@.to_set()),
    {
        let inverse: InverseStencilChain = self.inverse_stencil_chain();
        proof {
            chain_listed_is_reached(inverse, self.level_stencils@, changed_inputs@.to_set());
        }
        inverse.affected_outputs(changed_inputs)
    }
}

} // verus!
