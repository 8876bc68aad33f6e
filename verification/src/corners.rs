//! The tables of a channel, corner by corner.

use crate::base::level_ok;
use crate::blends::{coordinate, lemma_blend_value};
use crate::catmull_clark::face_varying::{cc_linear_rows, face_value_rows, quad_value_rows};
use crate::catmull_clark::refine::{cc_child_rows, cc_children, cc_faces};
use crate::catmull_clark::topology::parent_of as cc_parent_of;
use crate::channels::{
    catmull_clark_linear_values_are_means, doo_sabin_linear_values_are_copies, loop_linear_values_are_means,
    mean_of_face,
};
use crate::connectivity::{lemma_flat_at, lemma_same_starts};
use crate::face_varying::{linear_row, linear_rows, smooth_rows, smoothing_of};
use crate::flips::sqrt3_linear_values_are_means;
use crate::incidence::lemma_flat_locate;
use crate::level::LevelData;
use crate::topology::FaceVaryingChannel;
use crate::options::{FaceVaryingInterpolation, Scheme, SchemeOptions};
use crate::parity::{
    closed_faces, closed_vertex_channel_follows_vertices, doo_sabin_vertex_channel_follows_vertices,
    remapped_rows_keep_their_value,
};
use crate::refiner::{
    chain, fvar_rows, fvar_tables, lemma_child_fits, level_rows, level_values, refines, step_fault,
};
use crate::rows::{flat, row_start};
use crate::scalar::Scalar;
use crate::stencil::{blend_all, written_from, StencilTable};
use crate::topology::all_below;
use crate::unity::value;
use crate::weights::reads_exactly;
use vstd::prelude::*;

verus! {

// ---------------------------------------------------------------------------
// One row per corner
// ---------------------------------------------------------------------------
proof fn lemma_flat_joined<A>(a: Seq<Seq<A>>, b: Seq<Seq<A>>)
    ensures
        flat(a + b) == flat(a) + flat(b),
    decreases b.len(),
{
    if b.len() == 0 {
        assert(a + b =~= a);
        assert(flat(a) + flat(b) =~= flat(a));
    } else {
        assert((a + b).drop_last() =~= a + b.drop_last());
        lemma_flat_joined(a, b.drop_last());
        assert(flat(a + b) =~= flat(a) + flat(b));
    }
}

proof fn lemma_even_rows<A>(rows: Seq<Seq<A>>, n: nat)
    requires
        forall|i: int| 0 <= i < rows.len() ==> (#[trigger] rows[i]).len() == n,
    ensures
        flat(rows).len() == n * rows.len(),
    decreases rows.len(),
{
    if rows.len() > 0 {
        let front = rows.drop_last();
        assert forall|i: int| 0 <= i < front.len() implies (#[trigger] front[i]).len() == n by {
            assert(front[i] == rows[i]);
        }
        lemma_even_rows(front, n);
        assert(rows[rows.len() - 1].len() == n);
        assert(n * front.len() + n == n * rows.len()) by (nonlinear_arith)
            requires
                front.len() + 1 == rows.len(),
        ;
    }
}

/// Where each group of faces has as many corners as a list has rows.
proof fn lemma_groups<A, B>(groups: Seq<Seq<Seq<A>>>, lists: Seq<Seq<B>>)
    requires
        groups.len() == lists.len(),
        forall|f: int| 0 <= f < groups.len() ==> flat(#[trigger] groups[f]).len() == lists[f].len(),
    ensures
        flat(flat(groups)).len() == flat(lists).len(),
    decreases groups.len(),
{
    if groups.len() > 0 {
        let g = groups.drop_last();
        let l = lists.drop_last();
        assert forall|f: int| 0 <= f < g.len() implies flat(#[trigger] g[f]).len() == l[f].len() by {
            assert(g[f] == groups[f]);
        }
        lemma_groups(g, l);
        lemma_flat_joined(flat(g), groups.last());
        assert(flat(groups[groups.len() - 1]).len() == lists[groups.len() - 1].len());
    }
}

proof fn lemma_cc_corner_count<S: Scalar>(parent: LevelData<S>, values: Seq<u32>)
    requires
        parent.wf(),
    ensures
        cc_linear_rows(parent, values).len() == flat(
            cc_faces(cc_parent_of(parent.topo, parent.n()), parent.face_selected@),
        ).len(),
{
    let faces = parent.topo.faces@;
    let sel = parent.face_selected@;
    let p = cc_parent_of(parent.topo, parent.n());
    let groups = cc_child_rows(p, sel);
    let lists = Seq::new(faces.len(), |f: int| face_value_rows::<S>(faces, values, sel, f));
    assert forall|f: int| 0 <= f < groups.len() implies flat(#[trigger] groups[f]).len() == lists[f].len() by {
        let own = cc_children(p, sel, f);
        assert(groups[f] == own);
        if sel[f] {
            let quads = Seq::new(faces[f].len(), |i: int| quad_value_rows::<S>(faces, values, f, i));
            lemma_even_rows(own, 4);
            lemma_even_rows(quads, 4);
            assert(lists[f] == flat(quads));
        } else {
            assert(own.drop_last() =~= Seq::<Seq<u32>>::empty());
            assert(flat(own.drop_last()) =~= Seq::<u32>::empty());
            assert(flat(own) =~= own[0]);
        }
    }
    lemma_groups(groups, lists);
}

/// A step writes one row for each corner of the refined faces, in every mode.
pub proof fn one_row_per_refined_corner<S: Scalar>(
    scheme: Scheme,
    options: SchemeOptions,
    boundary_crease: S,
    parent: LevelData<S>,
    child: LevelData<S>,
    values: Seq<u32>,
    mode: FaceVaryingInterpolation,
)
    requires
        level_ok(scheme, parent),
        step_fault(scheme, parent) is None,
        refines(scheme, options, boundary_crease, parent, child),
    ensures
        fvar_rows(scheme, options, parent, child, values, mode).len() == child.mesh.face_vertex_indices@.len(),
{
    lemma_child_fits(scheme, options, boundary_crease, parent, child);
    reveal(fvar_rows);
    reveal(refines);
    let faces = child.topo.faces@;
    let rows = level_rows(scheme, options, parent);
    let m = smoothing_of(parent, values, rows, mode);
    let smooth = Seq::new(
        faces.len(),
        |f: int|
            Seq::new(
                faces[f].len(),
                |k: int|
                    m.row(
                        child.lineage.vertex_origin@[faces[f][k] as int],
                        faces[f][k] as int,
                        child.lineage.face_parent@[f] as int,
                    ),
            ),
    );
    lemma_same_starts(smooth, faces, 0);
    let linear = Seq::new(
        faces.len(),
        |f: int|
            Seq::new(
                faces[f].len(),
                |k: int|
                    linear_row::<S>(
                        parent.topo.faces@,
                        values,
                        parent.topo.edges(),
                        child.lineage.vertex_origin@[faces[f][k] as int],
                        child.lineage.face_parent@[f] as int,
                    ),
            ),
    );
    lemma_same_starts(linear, faces, 0);
    assert(smooth_rows(parent, child, values, rows, mode) == flat(smooth)) by {
        lemma_smooth_rows(parent, child, values, rows, mode, smooth);
    }
    assert(linear_rows(parent, child, values) == flat(linear)) by {
        lemma_linear_rows(parent, child, values, linear);
    }
    if scheme == Scheme::CatmullClark && mode == FaceVaryingInterpolation::Linear {
        lemma_cc_corner_count(parent, values);
    }
}

proof fn lemma_smooth_rows<S: Scalar>(
    parent: LevelData<S>,
    child: LevelData<S>,
    values: Seq<u32>,
    rows: Seq<Seq<(u32, S)>>,
    mode: FaceVaryingInterpolation,
    lists: Seq<Seq<Seq<(u32, S)>>>,
)
    requires
        lists.len() == child.topo.faces@.len(),
        forall|f: int| 0 <= f < lists.len() ==> (#[trigger] lists[f]).len() == child.topo.faces@[f].len(),
        forall|f: int, k: int|
            0 <= f < lists.len() && 0 <= k < child.topo.faces@[f].len() ==> #[trigger] lists[f][k]
                == smoothing_of(parent, values, rows, mode).row(
                child.lineage.vertex_origin@[child.topo.faces@[f][k] as int],
                child.topo.faces@[f][k] as int,
                child.lineage.face_parent@[f] as int,
            ),
    ensures
        smooth_rows(parent, child, values, rows, mode) == flat(lists),
{
    let m = smoothing_of(parent, values, rows, mode);
    let faces = child.topo.faces@;
    let row = |cv: int, home: int| m.row(child.lineage.vertex_origin@[cv], cv, home);
    let own = Seq::new(
        faces.len(),
        |f: int| Seq::new(faces[f].len(), |k: int| row(faces[f][k] as int, child.lineage.face_parent@[f] as int)),
    );
    assert forall|f: int| 0 <= f < lists.len() implies own[f] == lists[f] by {
        assert(own[f] =~= lists[f]);
    }
    assert(own =~= lists);
}

proof fn lemma_linear_rows<S: Scalar>(
    parent: LevelData<S>,
    child: LevelData<S>,
    values: Seq<u32>,
    lists: Seq<Seq<Seq<(u32, S)>>>,
)
    requires
        lists.len() == child.topo.faces@.len(),
        forall|f: int| 0 <= f < lists.len() ==> (#[trigger] lists[f]).len() == child.topo.faces@[f].len(),
        forall|f: int, k: int|
            0 <= f < lists.len() && 0 <= k < child.topo.faces@[f].len() ==> #[trigger] lists[f][k] == linear_row::<S>(
                parent.topo.faces@,
                values,
                parent.topo.edges(),
                child.lineage.vertex_origin@[child.topo.faces@[f][k] as int],
                child.lineage.face_parent@[f] as int,
            ),
    ensures
        linear_rows(parent, child, values) == flat(lists),
{
    let faces = child.topo.faces@;
    let row = |cv: int, home: int|
        linear_row::<S>(parent.topo.faces@, values, parent.topo.edges(), child.lineage.vertex_origin@[cv], home);
    let own = Seq::new(
        faces.len(),
        |f: int| Seq::new(faces[f].len(), |k: int| row(faces[f][k] as int, child.lineage.face_parent@[f] as int)),
    );
    assert forall|f: int| 0 <= f < lists.len() implies own[f] == lists[f] by {
        assert(own[f] =~= lists[f]);
    }
    assert(own =~= lists);
}

/// In the linear mode every row of a step is a mean of values of one face of the
/// parent, for every scheme.
pub proof fn linear_rows_are_means<S: Scalar>(
    val: spec_fn(S) -> real,
    scheme: Scheme,
    options: SchemeOptions,
    boundary_crease: S,
    parent: LevelData<S>,
    child: LevelData<S>,
    values: Seq<u32>,
    i: int,
)
    requires
        reads_exactly(val),
        level_ok(scheme, parent),
        step_fault(scheme, parent) is None,
        refines(scheme, options, boundary_crease, parent, child),
        0 <= i < child.mesh.face_vertex_indices@.len(),
    ensures
        mean_of_face(
            val,
            parent.topo.faces@,
            values,
            fvar_rows(scheme, options, parent, child, values, FaceVaryingInterpolation::Linear)[i],
        ),
{
    lemma_child_fits(scheme, options, boundary_crease, parent, child);
    one_row_per_refined_corner(
        scheme,
        options,
        boundary_crease,
        parent,
        child,
        values,
        FaceVaryingInterpolation::Linear,
    );
    reveal(fvar_rows);
    reveal(refines);
    reveal(level_ok);
    let faces = child.topo.faces@;
    let (q, k) = lemma_flat_locate(faces, i);
    let linear = Seq::new(
        faces.len(),
        |f: int|
            Seq::new(
                faces[f].len(),
                |k: int|
                    linear_row::<S>(
                        parent.topo.faces@,
                        values,
                        parent.topo.edges(),
                        child.lineage.vertex_origin@[faces[f][k] as int],
                        child.lineage.face_parent@[f] as int,
                    ),
            ),
    );
    match scheme {
        Scheme::CatmullClark => {
            catmull_clark_linear_values_are_means(val, parent, values, i);
        },
        Scheme::Loop => {
            lemma_linear_rows(parent, child, values, linear);
            lemma_same_starts(linear, faces, q);
            lemma_flat_at(linear, q, k);
            loop_linear_values_are_means(val, options, boundary_crease, parent, child, values, q, k);
        },
        Scheme::Sqrt3 => {
            lemma_linear_rows(parent, child, values, linear);
            lemma_same_starts(linear, faces, q);
            lemma_flat_at(linear, q, k);
            sqrt3_linear_values_are_means(val, options, boundary_crease, parent, child, values, q, k);
        },
        Scheme::DooSabin => {
            assert(all_below(faces[q], child.n() as int));
            assert(faces[q][k] < child.n());
            doo_sabin_linear_values_are_copies(val, parent.topo.faces@, flat(faces), values, i);
        },
    }
}

/// The tables of a channel: one for each step, one row for each corner of the faces
/// of its step. Where arithmetic does not round, every row of the linear mode is a
/// mean of values of one face.
pub proof fn tables_fit_the_corners<S: Scalar>(
    val: spec_fn(S) -> real,
    scheme: Scheme,
    options: SchemeOptions,
    boundary_crease: S,
    levels: Seq<LevelData<S>>,
    channel: FaceVaryingChannel,
    mode: FaceVaryingInterpolation,
    tables: Seq<StencilTable<S>>,
)
    requires
        reads_exactly(val),
        chain(scheme, options, boundary_crease, levels),
        fvar_tables(scheme, options, levels, channel, mode, tables),
    ensures
        tables.len() == levels.len() - 1,
        forall|k: int|
            #![trigger tables[k]]
            0 <= k < tables.len() ==> tables[k].offsets@.len() == levels[k + 1].mesh.face_vertex_indices@.len() + 1
                && (tables[k].indices@.len() <= u32::MAX ==> tables[k]@.len()
                == levels[k + 1].mesh.face_vertex_indices@.len()),
        mode == FaceVaryingInterpolation::Linear ==> forall|k: int, i: int|
            0 <= k < tables.len() && 0 <= i < tables[k]@.len() && tables[k].indices@.len() <= u32::MAX
                ==> mean_of_face(
                val,
                levels[k].topo.faces@,
                level_values(levels, channel, k),
                #[trigger] tables[k]@[i],
            ),
{
    assert forall|k: int| #![trigger tables[k]] 0 <= k < tables.len() implies tables[k].offsets@.len() == levels[k
        + 1].mesh.face_vertex_indices@.len() + 1 && (tables[k].indices@.len() <= u32::MAX ==> tables[k]@.len()
        == levels[k + 1].mesh.face_vertex_indices@.len()) by {
        let values = level_values(levels, channel, k);
        assert(level_ok(scheme, levels[k]));
        one_row_per_refined_corner(scheme, options, boundary_crease, levels[k], levels[k + 1], values, mode);
        lemma_written_len(tables[k], fvar_rows(scheme, options, levels[k], levels[k + 1], values, mode));
    }
    if mode == FaceVaryingInterpolation::Linear {
        assert forall|k: int, i: int|
            0 <= k < tables.len() && 0 <= i < tables[k]@.len() && tables[k].indices@.len()
                <= u32::MAX implies mean_of_face(
            val,
            levels[k].topo.faces@,
            level_values(levels, channel, k),
            #[trigger] tables[k]@[i],
        ) by {
            let values = level_values(levels, channel, k);
            assert(level_ok(scheme, levels[k]));
            lemma_written_len(tables[k], fvar_rows(scheme, options, levels[k], levels[k + 1], values, mode));
            linear_rows_are_means(val, scheme, options, boundary_crease, levels[k], levels[k + 1], values, i);
        }
    }
}

proof fn lemma_written_len<S: Scalar>(table: StencilTable<S>, rows: Seq<Seq<(u32, S)>>)
    requires
        written_from(table, rows),
    ensures
        table.indices@.len() <= u32::MAX ==> table@ == rows,
{
}

// ---------------------------------------------------------------------------
// A channel of the vertices
// ---------------------------------------------------------------------------
/// A smooth channel that carries the vertices themselves has, at every corner of the
/// first refinement, the value that the refined vertex there has. The mesh is closed,
/// unless the scheme is that of Doo and Sabin.
pub proof fn vertex_channels_follow_vertices<S: Scalar>(
    val: spec_fn(S) -> real,
    x: spec_fn(u32) -> real,
    scheme: Scheme,
    options: SchemeOptions,
    boundary_crease: S,
    parent: LevelData<S>,
    child: LevelData<S>,
    mode: FaceVaryingInterpolation,
    f: int,
    k: int,
)
    requires
        reads_exactly(val),
        level_ok(scheme, parent),
        step_fault(scheme, parent) is None,
        refines(scheme, options, boundary_crease, parent, child),
        mode != FaceVaryingInterpolation::Linear,
        scheme != Scheme::DooSabin ==> closed_faces(parent.topo.faces@, parent.topo.edges()),
        0 <= f < child.topo.faces@.len(),
        0 <= k < child.topo.faces@[f].len(),
    ensures
        value(
            val,
            x,
            fvar_rows(scheme, options, parent, child, parent.mesh.face_vertex_indices@, mode)[row_start(
                child.topo.faces@,
                f,
            ) + k],
        ) == value(val, x, level_rows(scheme, options, parent)[child.topo.faces@[f][k] as int]),
{
    lemma_child_fits(scheme, options, boundary_crease, parent, child);
    reveal(fvar_rows);
    let rows = level_rows(scheme, options, parent);
    let faces = parent.topo.faces@;
    let cv = child.topo.faces@[f][k] as int;
    assert(child.topo.faces@[f].len() >= 3 && all_below(child.topo.faces@[f], child.n() as int));
    assert(child.topo.faces@[f][k] < child.n());
    if scheme == Scheme::DooSabin {
        lemma_flat_at(child.topo.faces@, f, k);
        doo_sabin_vertex_channel_follows_vertices(val, x, faces, rows, cv);
    } else {
        closed_vertex_channel_follows_vertices(parent, child, rows, mode, f, k);
        remapped_rows_keep_their_value(val, x, x, rows[cv], |u: u32| u);
    }
}

/// The same of the tables that are handed out: at every corner of the first refined
/// mesh the table of the channel gives what the table of the vertices gives.
pub proof fn vertex_channel_tables_follow_vertex_tables<S: Scalar>(
    val: spec_fn(S) -> real,
    x: spec_fn(u32) -> real,
    scheme: Scheme,
    options: SchemeOptions,
    boundary_crease: S,
    levels: Seq<LevelData<S>>,
    channel: FaceVaryingChannel,
    mode: FaceVaryingInterpolation,
    tables: Seq<StencilTable<S>>,
    vertices: StencilTable<S>,
    i: int,
)
    requires
        reads_exactly(val),
        chain(scheme, options, boundary_crease, levels),
        levels.len() >= 2,
        fvar_tables(scheme, options, levels, channel, mode, tables),
        written_from(vertices, level_rows(scheme, options, levels[0])),
        tables[0].indices@.len() <= u32::MAX,
        vertices.indices@.len() <= u32::MAX,
        mode != FaceVaryingInterpolation::Linear,
        channel.indices@ == levels[0].mesh.face_vertex_indices@,
        scheme != Scheme::DooSabin ==> closed_faces(levels[0].topo.faces@, levels[0].topo.edges()),
        0 <= i < levels[1].mesh.face_vertex_indices@.len(),
    ensures
        i < tables[0]@.len(),
        levels[1].mesh.face_vertex_indices@[i] < vertices@.len(),
        value(val, x, tables[0]@[i]) == value(val, x, vertices@[levels[1].mesh.face_vertex_indices@[i] as int]),
{
    let parent = levels[0];
    let child = levels[1];
    assert(level_ok(scheme, levels[0]));
    assert(level_values(levels, channel, 0) == parent.mesh.face_vertex_indices@);
    let values = parent.mesh.face_vertex_indices@;
    assert(written_from(tables[0], fvar_rows(scheme, options, levels[0], levels[0int + 1], values, mode)));
    lemma_written_len(tables[0], fvar_rows(scheme, options, parent, child, values, mode));
    lemma_written_len(vertices, level_rows(scheme, options, parent));
    lemma_child_fits(scheme, options, boundary_crease, parent, child);
    one_row_per_refined_corner(scheme, options, boundary_crease, parent, child, values, mode);
    let (f, k) = lemma_flat_locate(child.topo.faces@, i);
    assert(child.topo.faces@[f].len() >= 3 && all_below(child.topo.faces@[f], child.n() as int));
    assert(child.topo.faces@[f][k] < child.n());
    vertex_channels_follow_vertices(val, x, scheme, options, boundary_crease, parent, child, mode, f, k);
}

/// The points that the two tables give: every corner of the first refined mesh gets the
/// point of its vertex, coordinate by coordinate.
pub proof fn vertex_channels_interpolate_as_vertices_do<S: Scalar>(
    val: spec_fn(S) -> real,
    scheme: Scheme,
    options: SchemeOptions,
    boundary_crease: S,
    levels: Seq<LevelData<S>>,
    channel: FaceVaryingChannel,
    mode: FaceVaryingInterpolation,
    tables: Seq<StencilTable<S>>,
    vertices: StencilTable<S>,
    points: Seq<[S; 3]>,
    i: int,
    c: int,
)
    requires
        reads_exactly(val),
        chain(scheme, options, boundary_crease, levels),
        levels.len() >= 2,
        fvar_tables(scheme, options, levels, channel, mode, tables),
        written_from(vertices, level_rows(scheme, options, levels[0])),
        tables[0].indices@.len() <= u32::MAX,
        vertices.indices@.len() <= u32::MAX,
        mode != FaceVaryingInterpolation::Linear,
        channel.indices@ == levels[0].mesh.face_vertex_indices@,
        scheme != Scheme::DooSabin ==> closed_faces(levels[0].topo.faces@, levels[0].topo.edges()),
        0 <= i < levels[1].mesh.face_vertex_indices@.len(),
        0 <= c < 3,
    ensures
        ({
            let at_corners = blend_all::<S, [S; 3]>(tables[0]@, points);
            let at_vertices = blend_all::<S, [S; 3]>(vertices@, points);
            let v = levels[1].mesh.face_vertex_indices@[i] as int;
            &&& at_corners.len() == levels[1].mesh.face_vertex_indices@.len()
            &&& v < at_vertices.len()
            &&& val(at_corners[i]@[c]) == val(at_vertices[v]@[c])
        }),
{
    let x = coordinate(val, points, c);
    vertex_channel_tables_follow_vertex_tables(
        val,
        x,
        scheme,
        options,
        boundary_crease,
        levels,
        channel,
        mode,
        tables,
        vertices,
        i,
    );
    tables_fit_the_corners(val, scheme, options, boundary_crease, levels, channel, mode, tables);
    assert(tables[0]@.len() == levels[0int + 1].mesh.face_vertex_indices@.len());
    let v = levels[1].mesh.face_vertex_indices@[i] as int;
    lemma_blend_value(val, tables[0]@[i], points, c);
    lemma_blend_value(val, vertices@[v], points, c);
}

} // verus!
