//! From a changed input to the outputs it can reach.

use crate::csr::CsrVec;
use crate::hashing::{sort_dedup, sort_distinct, strictly_ascending};
use crate::interpolate::Interpolatable;
use crate::rows::{flat, lemma_flat_empty_rows, lemma_flat_len_grow, views};
use crate::scalar::Scalar;
use crate::stencil::{
    blend_all, blend_reads_its_row_only, composed, composed_row, composed_row_reads, identity_rows, mentions,
    rows_below, StencilTable,
};
use vstd::prelude::*;

verus! {

/// The outputs of a table that read one of the changed inputs.
pub open spec fn reached<S>(rows: Seq<Seq<(u32, S)>>, changed: Set<u32>) -> Set<u32> {
    Set::new(
        |row: u32|
            row < rows.len() && exists|i: u32| #[trigger]
                changed.contains(i) && mentions(rows[row as int], i),
    )
}

/// The outputs of a chain of tables that depend on one of the changed inputs.
pub open spec fn chain_reached<S>(levels: Seq<Seq<Seq<(u32, S)>>>, changed: Set<u32>) -> Set<u32>
    decreases levels.len(),
{
    if levels.len() == 0 {
        changed
    } else {
        reached(levels.last(), chain_reached(levels.drop_last(), changed))
    }
}

/// The rows of a list of tables.
pub open spec fn table_rows<S: Scalar>(tables: Seq<StencilTable<S>>) -> Seq<Seq<Seq<(u32, S)>>> {
    tables.map_values(|t: StencilTable<S>| t@)
}

/// For each input of a stencil table, the outputs that read it.
#[derive(Debug, Clone)]
pub struct InverseStencilMap {
    transpose: CsrVec,
    output_count: usize,
}

impl InverseStencilMap {
    pub closed spec fn wf(self) -> bool {
        &&& self.transpose.wf()
        &&& forall|i: u32, row: u32| #[trigger] self.lists_output(i, row) ==> row < self.output_count
    }

    pub closed spec fn outputs(self) -> nat {
        self.output_count as nat
    }

    /// `row` is listed under `input`.
    pub closed spec fn lists_output(self, input: u32, row: u32) -> bool {
        input < self.transpose@.len() && self.transpose@[input as int].contains(row)
    }

    /// The map lists each output of a table under exactly the inputs it reads.
    pub open spec fn inverts<S>(self, rows: Seq<Seq<(u32, S)>>) -> bool {
        &&& self.wf()
        &&& self.outputs() == rows.len()
        &&& forall|i: u32, row: u32| #[trigger]
            self.lists_output(i, row) <==> row < rows.len() && mentions(rows[row as int], i)
    }

    /// The outputs listed under one of the changed inputs.
    pub open spec fn listed(self, changed: Set<u32>) -> Set<u32> {
        Set::new(|row: u32| exists|i: u32| #[trigger] changed.contains(i) && self.lists_output(i, row))
    }

    /// The inverse of a stencil table.
    pub fn from<S: Scalar>(table: &StencilTable<S>) -> (r: InverseStencilMap)
        requires
            table.reads_ok(),
            table.row_count() <= u32::MAX,
        ensures
            r.inverts(table@),
    {
        let output_count: usize = table.output_count();
        let mut buckets: Vec<Vec<u32>> = Vec::new();
        let mut i: usize = 0;
        while i < table.indices.len()
            invariant
                i <= table.indices.len(),
                forall|j: int| 0 <= j < buckets.len() ==> (#[trigger] buckets@[j])@.len() == 0,
                forall|j: int| 0 <= j < i ==> (#[trigger] table.indices@[j]) < buckets.len(),
                buckets.len() <= u32::MAX + 1,
            decreases table.indices.len() - i,
        {
            let index: usize = table.indices[i] as usize;
            while buckets.len() <= index
                invariant
                    forall|j: int| 0 <= j < buckets.len() ==> (#[trigger] buckets@[j])@.len() == 0,
                    forall|j: int| 0 <= j < i ==> (#[trigger] table.indices@[j]) < buckets.len(),
                    buckets.len() <= u32::MAX + 1,
                    index <= u32::MAX,
                decreases index + 1 - buckets.len(),
            {
                buckets.push(Vec::new());
            }
            i += 1;
        }
        proof {
            lemma_flat_empty_rows(views(buckets@));
            assert forall|input: int, r: u32|
                0 <= input < buckets@.len() implies !(#[trigger] views(buckets@)[input].contains(r)) by {
                assert(buckets@[input]@.len() == 0);
            }
        }
        let mut row: usize = 0;
        while row < output_count
            invariant
                row <= output_count,
                output_count == table.row_count(),
                output_count <= u32::MAX,
                buckets.len() <= u32::MAX + 1,
                table.reads_ok(),
                forall|j: int| 0 <= j < table.indices@.len() ==> (#[trigger] table.indices@[j]) < buckets.len(),
                flat(views(buckets@)).len() <= (if row == 0 {
                    0
                } else {
                    table.offsets@[row as int] as int
                }),
                forall|input: int, r: u32|
                    0 <= input < buckets@.len() ==> (#[trigger] views(buckets@)[input].contains(r) <==> r < row
                        && mentions(table@[r as int], input as u32)),
            decreases output_count - row,
        {
            let n: usize = table.offsets.len();
            assert(row + 1 < n);
            assert(table.offsets@[row as int] <= table.offsets@[row + 1]);
            let start: usize = table.offsets[row] as usize;
            let end: usize = table.offsets[row + 1] as usize;
            let ghost line = table@[row as int];
            let mut k: usize = start;
            while k < end
                invariant
                    start <= k <= end,
                    end <= table.indices@.len(),
                    row < output_count <= u32::MAX,
                    buckets.len() <= u32::MAX + 1,
                    line == table@[row as int],
                    line.len() == end - start,
                    forall|j: int| 0 <= j < end - start ==> (#[trigger] line[j]).0 == table.indices@[start + j],
                    forall|j: int|
                        0 <= j < table.indices@.len() ==> (#[trigger] table.indices@[j]) < buckets.len(),
                    flat(views(buckets@)).len() <= k,
                    forall|input: int, r: u32|
                        0 <= input < buckets@.len() ==> (#[trigger] views(buckets@)[input].contains(r) <==> (r
                            < row && mentions(table@[r as int], input as u32)) || (r == row && mentions(
                            line.take(k - start),
                            input as u32,
                        ))),
                decreases end - k,
            {
                let input: usize = table.indices[k] as usize;
                let ghost before = views(buckets@);
                buckets[input].push(row as u32);
                proof {
                    let after = views(buckets@);
                    assert(after =~= before.update(input as int, before[input as int].push(row as u32)));
                    lemma_flat_len_grow(before, input as int, row as u32);
                    let done = line.take(k - start);
                    let more = line.take(k + 1 - start);
                    assert(more =~= done.push(line[k - start]));
                    assert forall|p: int, r: u32| 0 <= p < buckets@.len() implies (#[trigger] after[p].contains(r)
                        <==> (r < row && mentions(table@[r as int], p as u32)) || (r == row && mentions(
                        more,
                        p as u32,
                    ))) by {
                        assert(before[p].contains(r) <==> (r < row && mentions(table@[r as int], p as u32)) || (r
                            == row && mentions(done, p as u32)));
                        assert(after[p].contains(r) <==> before[p].contains(r) || (p == input && r == row)) by {
                            if before[p].contains(r) {
                                let q = before[p].index_of(r);
                                assert(after[p][q] == r);
                            }
                            if p == input && r == row {
                                assert(after[p][before[p].len() as int] == r);
                            }
                        }
                        assert(mentions(more, p as u32) <==> mentions(done, p as u32) || p == input) by {
                            if mentions(done, p as u32) {
                                let q = choose|q: int| 0 <= q < done.len() && (#[trigger] done[q]).0 == p as u32;
                                assert(more[q].0 == p as u32);
                            }
                            if p == input {
                                assert(more[k - start].0 == p as u32);
                            }
                            if mentions(more, p as u32) && p != input {
                                let q = choose|q: int| 0 <= q < more.len() && (#[trigger] more[q]).0 == p as u32;
                                assert(done[q].0 == p as u32);
                            }
                        }
                    }
                }
                k += 1;
            }
            assert(line.take(k - start) =~= line);
            row += 1;
        }
        let transpose = CsrVec::from_jagged_u32(&buckets);
        let map = InverseStencilMap { transpose, output_count };
        proof {
            assert forall|i: u32, row: u32| #[trigger]
                map.lists_output(i, row) <==> row < table@.len() && mentions(table@[row as int], i) by {
                if i < buckets@.len() {
                    assert(views(buckets@)[i as int].contains(row) <==> row < output_count && mentions(
                        table@[row as int],
                        i,
                    ));
                } else if row < table@.len() && mentions(table@[row as int], i) {
                    let line = table@[row as int];
                    let k = choose|k: int| 0 <= k < line.len() && (#[trigger] line[k]).0 == i;
                    assert(table.offsets@[row as int] <= table.offsets@[row + 1]);
                    assert(table.indices@[table.offsets@[row as int] + k] == i);
                }
            }
        }
        map
    }

    /// Number of outputs of the table.
    pub fn output_count(&self) -> (r: usize)
        ensures
            r == self.outputs(),
    {
        self.output_count
    }

    /// The outputs that read one of the changed inputs, in ascending order and
    /// each once.
    pub fn affected_outputs(&self, changed_inputs: &[u32]) -> (r: Vec<u32>)
        requires
            self.wf(),
        ensures
            strictly_ascending(r@),
            r@.to_set() == self.listed(changed_inputs@.to_set()),
    {
        let mut stamp: Vec<u32> = Vec::new();
        let mut i: usize = 0;
        while i < self.output_count
            invariant
                i <= self.output_count,
                stamp@.len() == i,
                forall|j: int| 0 <= j < i ==> stamp@[j] == 0,
            decreases self.output_count - i,
        {
            stamp.push(0);
            i += 1;
        }
        let mut affected: Vec<u32> = Vec::new();
        self.collect(changed_inputs, &mut stamp, 1, &mut affected);
        affected
    }

    /// Puts the affected outputs into `affected`. A stamp other than
    /// `generation` marks an output that was not met yet.
    fn collect(&self, changed_inputs: &[u32], stamp: &mut Vec<u32>, generation: u32, affected: &mut Vec<u32>)
        requires
            self.wf(),
            old(stamp)@.len() >= self.outputs(),
            forall|j: int| 0 <= j < old(stamp)@.len() ==> old(stamp)@[j] < generation,
            old(affected)@.len() == 0,
        ensures
            strictly_ascending(final(affected)@),
            final(affected)@.to_set() == self.listed(changed_inputs@.to_set()),
            final(stamp)@.len() == old(stamp)@.len(),
            forall|j: int| 0 <= j < final(stamp)@.len() ==> final(stamp)@[j] <= generation,
    {
        let ghost lists = self.transpose@;
        let mut c: usize = 0;
        while c < changed_inputs.len()
            invariant
                c <= changed_inputs.len(),
                self.wf(),
                lists == self.transpose@,
                stamp@.len() == old(stamp)@.len(),
                stamp@.len() >= self.outputs(),
                affected@.no_duplicates(),
                forall|j: int| 0 <= j < stamp@.len() ==> stamp@[j] <= generation,
                forall|j: int|
                    0 <= j < stamp@.len() ==> (#[trigger] stamp@[j] == generation <==> j <= u32::MAX
                        && affected@.contains(j as u32)),
                forall|x: u32| #[trigger] affected@.contains(x) ==> x < self.outputs(),
                forall|x: u32| #[trigger]
                    affected@.contains(x) <==> exists|q: int|
                        0 <= q < c && self.lists_output(#[trigger] changed_inputs@[q], x),
            decreases changed_inputs.len() - c,
        {
            let input: u32 = changed_inputs[c];
            let i: usize = input as usize;
            let ghost base = affected@;
            if i < self.transpose.len() {
                let line: &[u32] = self.transpose.row(i);
                let mut k: usize = 0;
                while k < line.len()
                    invariant
                        k <= line.len(),
                        self.wf(),
                        i == input,
                        i < self.transpose@.len(),
                        line@ == self.transpose@[i as int],
                        stamp@.len() == old(stamp)@.len(),
                        stamp@.len() >= self.outputs(),
                        affected@.no_duplicates(),
                        forall|j: int| 0 <= j < stamp@.len() ==> stamp@[j] <= generation,
                        forall|j: int|
                            0 <= j < stamp@.len() ==> (#[trigger] stamp@[j] == generation <==> j <= u32::MAX
                                && affected@.contains(j as u32)),
                        forall|x: u32| #[trigger] affected@.contains(x) ==> x < self.outputs(),
                        forall|x: u32| #[trigger]
                            affected@.contains(x) <==> base.contains(x) || line@.take(k as int).contains(x),
                    decreases line.len() - k,
                {
                    let row: u32 = line[k];
                    let r: usize = row as usize;
                    assert(self.lists_output(input, row));
                    let ghost prev = affected@;
                    let ghost done = line@.take(k as int);
                    let ghost more = line@.take(k + 1);
                    assert(more =~= done.push(row));
                    assert forall|x: u32| #[trigger] more.contains(x) <==> done.contains(x) || x == row by {
                        if done.contains(x) {
                            let q = done.index_of(x);
                            assert(more[q] == x);
                        }
                        assert(more[k as int] == row);
                    }
                    assert(stamp@[r as int] == generation <==> prev.contains(row));
                    if stamp[r] != generation {
                        stamp[r] = generation;
                        affected.push(row);
                        assert forall|x: u32| #[trigger] affected@.contains(x) <==> prev.contains(x) || x == row by {
                            if prev.contains(x) {
                                let q = prev.index_of(x);
                                assert(affected@[q] == x);
                            }
                            assert(affected@[prev.len() as int] == row);
                        }
                    }
                    k += 1;
                }
                assert(line@.take(k as int) =~= line@);
            }
            assert forall|x: u32| #[trigger] affected@.contains(x) <==> exists|q: int|
                0 <= q < c + 1 && self.lists_output(#[trigger] changed_inputs@[q], x) by {
                assert(affected@.contains(x) <==> base.contains(x) || self.lists_output(input, x));
                if self.lists_output(input, x) {
                    assert(self.lists_output(changed_inputs@[c as int], x));
                }
            }
            c += 1;
        }
        proof {
            let set = changed_inputs@.to_set();
            assert forall|x: u32| affected@.to_set().contains(x) <==> self.listed(set).contains(x) by {
                if affected@.contains(x) {
                    let q = choose|q: int|
                        0 <= q < changed_inputs@.len() && self.lists_output(#[trigger] changed_inputs@[q], x);
                    assert(set.contains(changed_inputs@[q]));
                }
                if self.listed(set).contains(x) {
                    let i = choose|i: u32| #[trigger] set.contains(i) && self.lists_output(i, x);
                    let q = changed_inputs@.index_of(i);
                    assert(self.lists_output(changed_inputs@[q], x));
                }
            }
            assert(affected@.to_set() =~= self.listed(set));
        }
        sort_distinct(affected);
    }
}

/// A map that inverts a table lists what the table's rows reach.
pub proof fn listed_is_reached<S>(map: InverseStencilMap, rows: Seq<Seq<(u32, S)>>, changed: Set<u32>)
    requires
        map.inverts(rows),
    ensures
        map.listed(changed) == reached(rows, changed),
{
    assert(map.listed(changed) =~= reached(rows, changed)) by {
        assert forall|row: u32| map.listed(changed).contains(row) <==> reached(rows, changed).contains(row) by {
            if map.listed(changed).contains(row) {
                let i = choose|i: u32| #[trigger] changed.contains(i) && map.lists_output(i, row);
                assert(mentions(rows[row as int], i));
            }
            if reached(rows, changed).contains(row) {
                let i = choose|i: u32| #[trigger] changed.contains(i) && mentions(rows[row as int], i);
                assert(map.lists_output(i, row));
            }
        }
    }
}

/// The inverses of a chain of stencil tables.
#[derive(Debug, Clone)]
pub struct InverseStencilChain {
    levels: Vec<InverseStencilMap>,
}

/// Buffers that are kept from one query to the next.
#[derive(Debug, Clone)]
pub struct AffectedScratch {
    stamp: Vec<u32>,
    generation: u32,
    front: Vec<u32>,
    back: Vec<u32>,
}

impl AffectedScratch {
    /// No stamp is newer than the current generation.
    pub closed spec fn wf(self) -> bool {
        forall|j: int| 0 <= j < self.stamp@.len() ==> self.stamp@[j] <= self.generation
    }
}

impl Default for AffectedScratch {
    fn default() -> (r: Self)
        ensures
            r.wf(),
    {
        AffectedScratch { stamp: Vec::new(), generation: 0, front: Vec::new(), back: Vec::new() }
    }
}

/// The outputs listed along a chain of inverse maps.
pub open spec fn chain_listed(levels: Seq<InverseStencilMap>, changed: Set<u32>) -> Set<u32>
    decreases levels.len(),
{
    if levels.len() == 0 {
        changed
    } else {
        levels.last().listed(chain_listed(levels.drop_last(), changed))
    }
}

impl InverseStencilChain {
    pub closed spec fn maps(self) -> Seq<InverseStencilMap> {
        self.levels@
    }

    pub open spec fn wf(self) -> bool {
        forall|i: int| 0 <= i < self.maps().len() ==> (#[trigger] self.maps()[i]).wf()
    }

    /// Level `i` inverts table `i`.
    pub open spec fn inverts<S: Scalar>(self, tables: Seq<StencilTable<S>>) -> bool {
        &&& self.maps().len() == tables.len()
        &&& forall|i: int| 0 <= i < tables.len() ==> (#[trigger] self.maps()[i]).inverts(tables[i]@)
    }

    /// The inverses of the levels' tables.
    pub fn from<S: Scalar>(level_stencils: &[StencilTable<S>]) -> (r: InverseStencilChain)
        requires
            forall|i: int|
                0 <= i < level_stencils@.len() ==> (#[trigger] level_stencils@[i]).reads_ok()
                    && level_stencils@[i].row_count() <= u32::MAX,
        ensures
            r.wf(),
            r.maps().len() == level_stencils@.len(),
            r.inverts(level_stencils@),
    {
        let mut levels: Vec<InverseStencilMap> = Vec::new();
        let mut i: usize = 0;
        while i < level_stencils.len()
            invariant
                i <= level_stencils.len(),
                levels@.len() == i,
                forall|i: int|
                    0 <= i < level_stencils@.len() ==> (#[trigger] level_stencils@[i]).reads_ok()
                        && level_stencils@[i].row_count() <= u32::MAX,
                forall|j: int| 0 <= j < i ==> (#[trigger] levels@[j]).inverts(level_stencils@[j]@),
            decreases level_stencils.len() - i,
        {
            assert(level_stencils@[i as int].reads_ok());
            levels.push(InverseStencilMap::from(&level_stencils[i]));
            i += 1;
        }
        InverseStencilChain { levels }
    }

    /// Number of levels.
    pub fn level_count(&self) -> (r: usize)
        ensures
            r == self.maps().len(),
    {
        self.levels.len()
    }

    /// The outputs of the last level that depend on one of the changed inputs
    /// of the first, in ascending order and each once.
    pub fn affected_outputs(&self, changed_base_inputs: &[u32]) -> (r: Vec<u32>)
        requires
            self.wf(),
        ensures
            strictly_ascending(r@),
            r@.to_set() == chain_listed(self.maps(), changed_base_inputs@.to_set()),
    {
        let mut scratch = AffectedScratch::default();
        let mut out: Vec<u32> = Vec::new();
        self.affected_outputs_into(changed_base_inputs, &mut scratch, &mut out);
        out
    }

    /// As `affected_outputs`, into `out` and with buffers that can be used
    /// again; what they held before does not matter.
    pub fn affected_outputs_into(
        &self,
        changed_base_inputs: &[u32],
        scratch: &mut AffectedScratch,
        out: &mut Vec<u32>,
    )
        requires
            self.wf(),
            old(scratch).wf(),
        ensures
            final(scratch).wf(),
            strictly_ascending(final(out)@),
            final(out)@.to_set() == chain_listed(self.maps(), changed_base_inputs@.to_set()),
    {
        let mut front: Vec<u32> = Vec::new();
        std::mem::swap(&mut front, &mut scratch.front);
        front.clear();
        let mut i: usize = 0;
        while i < changed_base_inputs.len()
            invariant
                i <= changed_base_inputs.len(),
                scratch.wf(),
                front@ == changed_base_inputs@.take(i as int),
            decreases changed_base_inputs.len() - i,
        {
            front.push(changed_base_inputs[i]);
            i += 1;
            assert(front@ =~= changed_base_inputs@.take(i as int));
        }
        assert(front@ =~= changed_base_inputs@);
        let ghost base = changed_base_inputs@.to_set();
        if self.levels.len() == 0 {
            sort_dedup(&mut front);
            std::mem::swap(out, &mut front);
            std::mem::swap(&mut front, &mut scratch.front);
            return;
        }
        let mut level: usize = 0;
        while level < self.levels.len()
            invariant
                level <= self.levels.len(),
                self.wf(),
                scratch.wf(),
                front@.to_set() == chain_listed(self.levels@.take(level as int), base),
                level > 0 ==> strictly_ascending(front@),
            decreases self.levels.len() - level,
        {
            assert(self.maps()[level as int].wf());
            let map: &InverseStencilMap = &self.levels[level];
            while scratch.stamp.len() < map.output_count
                invariant
                    scratch.wf(),
                decreases map.output_count - scratch.stamp.len(),
            {
                scratch.stamp.push(0);
            }
            scratch.next_generation();
            scratch.back.clear();
            map.collect(front.as_slice(), &mut scratch.stamp, scratch.generation, &mut scratch.back);
            std::mem::swap(&mut front, &mut scratch.back);
            assert(self.levels@.take(level + 1).drop_last() =~= self.levels@.take(level as int));
            level += 1;
        }
        assert(self.levels@.take(level as int) =~= self.levels@);
        std::mem::swap(out, &mut front);
        std::mem::swap(&mut front, &mut scratch.front);
    }
}

impl AffectedScratch {
    /// Starts a generation that no stamp carries.
    fn next_generation(&mut self)
        requires
            old(self).wf(),
        ensures
            final(self).stamp@.len() == old(self).stamp@.len(),
            final(self).back == old(self).back,
            forall|j: int| 0 <= j < final(self).stamp@.len() ==> final(self).stamp@[j] < final(self).generation,
    {
        self.generation = self.generation.wrapping_add(1);
        if self.generation == 0 {
            let mut k: usize = 0;
            while k < self.stamp.len()
                invariant
                    k <= self.stamp.len(),
                    self.stamp@.len() == old(self).stamp@.len(),
                    self.back == old(self).back,
                    forall|j: int| 0 <= j < k ==> self.stamp@[j] == 0,
                decreases self.stamp.len() - k,
            {
                self.stamp[k] = 0;
                k += 1;
            }
            self.generation = 1;
        }
    }
}

/// A chain that inverts tables lists what the tables reach.
pub proof fn chain_listed_is_reached<S: Scalar>(
    chain: InverseStencilChain,
    tables: Seq<StencilTable<S>>,
    changed: Set<u32>,
)
    requires
        chain.inverts(tables),
    ensures
        chain_listed(chain.maps(), changed) == chain_reached(table_rows(tables), changed),
{
    lemma_chain_listed(chain.maps(), tables, changed);
}

proof fn lemma_chain_listed<S: Scalar>(
    maps: Seq<InverseStencilMap>,
    tables: Seq<StencilTable<S>>,
    changed: Set<u32>,
)
    requires
        maps.len() == tables.len(),
        forall|i: int| 0 <= i < tables.len() ==> (#[trigger] maps[i]).inverts(tables[i]@),
    ensures
        chain_listed(maps, changed) == chain_reached(table_rows(tables), changed),
    decreases maps.len(),
{
    if maps.len() > 0 {
        assert forall|i: int| 0 <= i < tables.drop_last().len() implies (#[trigger] maps.drop_last()[i]).inverts(
            tables.drop_last()[i]@,
        ) by {
            assert(maps[i].inverts(tables[i]@));
        }
        lemma_chain_listed(maps.drop_last(), tables.drop_last(), changed);
        assert(table_rows(tables).drop_last() =~= table_rows(tables.drop_last()));
        assert(maps[maps.len() - 1].inverts(tables.last()@));
        listed_is_reached(maps.last(), tables.last()@, chain_listed(maps.drop_last(), changed));
    }
}

/// A change of some inputs leaves every output alone that it does not reach.
pub proof fn unreached_outputs_keep_their_value<S: Scalar, T: Interpolatable<S>>(
    rows: Seq<Seq<(u32, S)>>,
    changed: Set<u32>,
    before: Seq<T>,
    after: Seq<T>,
    row: u32,
)
    requires
        rows_below(rows, before.len()),
        before.len() == after.len(),
        forall|i: u32| i < before.len() && !changed.contains(i) ==> before[i as int] == after[i as int],
        row < rows.len(),
        !reached(rows, changed).contains(row),
    ensures
        blend_all::<S, T>(rows, before)[row as int] == blend_all::<S, T>(rows, after)[row as int],
{
    let line = rows[row as int];
    assert(crate::stencil::row_below(line, before.len()));
    assert forall|k: int| 0 <= k < line.len() implies before[(#[trigger] line[k]).0 as int]
        == after[line[k].0 as int] by {
        assert(mentions(line, line[k].0));
        if changed.contains(line[k].0) {
            assert(reached(rows, changed).contains(row));
        }
    }
    blend_reads_its_row_only::<S, T>(line, before, after);
}

/// The values of a chain of tables, level after level.
pub open spec fn chain_values<S: Scalar, T: Interpolatable<S>>(
    levels: Seq<Seq<Seq<(u32, S)>>>,
    input: Seq<T>,
) -> Seq<T>
    decreases levels.len(),
{
    if levels.len() == 0 {
        input
    } else {
        blend_all::<S, T>(levels.last(), chain_values::<S, T>(levels.drop_last(), input))
    }
}

/// Each table reads only outputs that the one before it has; the first reads
/// only inputs below `n`.
pub open spec fn chain_fits<S>(levels: Seq<Seq<Seq<(u32, S)>>>, n: nat) -> bool
    decreases levels.len(),
{
    levels.len() > 0 ==> {
        &&& chain_fits(levels.drop_last(), n)
        &&& rows_below(levels.last(), chain_width(levels.drop_last(), n))
    }
}

/// Number of values after a chain of tables.
pub open spec fn chain_width<S>(levels: Seq<Seq<Seq<(u32, S)>>>, n: nat) -> nat {
    if levels.len() == 0 {
        n
    } else {
        levels.last().len()
    }
}

pub proof fn lemma_chain_values_len<S: Scalar, T: Interpolatable<S>>(
    levels: Seq<Seq<Seq<(u32, S)>>>,
    input: Seq<T>,
)
    ensures
        chain_values::<S, T>(levels, input).len() == chain_width(levels, input.len()),
{
}

/// Along a chain too, a change of some inputs leaves every output alone that it
/// does not reach.
pub proof fn unreached_chain_outputs_keep_their_value<S: Scalar, T: Interpolatable<S>>(
    levels: Seq<Seq<Seq<(u32, S)>>>,
    changed: Set<u32>,
    before: Seq<T>,
    after: Seq<T>,
    row: u32,
)
    requires
        chain_fits(levels, before.len()),
        before.len() == after.len(),
        forall|i: u32| i < before.len() && !changed.contains(i) ==> before[i as int] == after[i as int],
        row < chain_width(levels, before.len()),
        !chain_reached(levels, changed).contains(row),
    ensures
        chain_values::<S, T>(levels, before)[row as int] == chain_values::<S, T>(levels, after)[row as int],
    decreases levels.len(),
{
    if levels.len() > 0 {
        let front = levels.drop_last();
        let a = chain_values::<S, T>(front, before);
        let b = chain_values::<S, T>(front, after);
        lemma_chain_values_len::<S, T>(front, before);
        lemma_chain_values_len::<S, T>(front, after);
        assert forall|i: u32| i < a.len() && !chain_reached(front, changed).contains(i) implies a[i as int]
            == b[i as int] by {
            unreached_chain_outputs_keep_their_value::<S, T>(front, changed, before, after, i);
        }
        unreached_outputs_keep_their_value::<S, T>(
            levels.last(),
            chain_reached(front, changed),
            a,
            b,
            row,
        );
    }
}

/// All tables of a chain composed, starting from the table that copies `n`
/// inputs.
pub open spec fn chain_composed<S: Scalar>(
    levels: Seq<Seq<Seq<(u32, S)>>>,
    n: nat,
) -> Seq<Seq<(u32, S)>>
    decreases levels.len(),
{
    if levels.len() == 0 {
        identity_rows::<S>(n)
    } else {
        composed(chain_composed(levels.drop_last(), n), levels.last())
    }
}

/// The outputs that a change reaches along a chain are those that it reaches
/// through the composed table.
pub proof fn chain_reaches_what_its_composition_reaches<S: Scalar>(
    levels: Seq<Seq<Seq<(u32, S)>>>,
    n: nat,
    changed: Set<u32>,
)
    requires
        n <= u32::MAX,
        chain_fits(levels, n),
        forall|i: u32| changed.contains(i) ==> i < n,
    ensures
        chain_reached(levels, changed) == reached(chain_composed(levels, n), changed),
        chain_composed(levels, n).len() == chain_width(levels, n),
    decreases levels.len(),
{
    let whole = chain_composed(levels, n);
    if levels.len() == 0 {
        assert forall|row: u32| changed.contains(row) <==> reached(whole, changed).contains(row) by {
            if row < n {
                assert(whole[row as int] == seq![(row, crate::scalar::one_of::<S>())]);
                assert(whole[row as int][0].0 == row);
                assert(mentions(whole[row as int], row));
                if reached(whole, changed).contains(row) {
                    let i = choose|i: u32| #[trigger] changed.contains(i) && mentions(whole[row as int], i);
                    assert(i == row);
                }
            }
        }
        assert(changed =~= reached(whole, changed));
    } else {
        let front = levels.drop_last();
        let inner = chain_composed(front, n);
        let outer = levels.last();
        chain_reaches_what_its_composition_reaches(front, n, changed);
        let mid = chain_reached(front, changed);
        assert forall|row: u32| reached(outer, mid).contains(row) <==> reached(whole, changed).contains(row) by {
            if row < outer.len() {
                let line = outer[row as int];
                assert(crate::stencil::row_below(line, inner.len()));
                assert(whole[row as int] == composed_row(inner, line));
                if reached(outer, mid).contains(row) {
                    let b = choose|b: u32| #[trigger] mid.contains(b) && mentions(line, b);
                    let i = choose|i: u32| #[trigger] changed.contains(i) && mentions(inner[b as int], i);
                    composed_row_reads(inner, line, i);
                    assert(mentions(whole[row as int], i));
                }
                if reached(whole, changed).contains(row) {
                    let i = choose|i: u32| #[trigger] changed.contains(i) && mentions(whole[row as int], i);
                    composed_row_reads(inner, line, i);
                    let b = choose|b: u32| #[trigger] mentions(line, b) && mentions(inner[b as int], i);
                    let k = choose|k: int| 0 <= k < line.len() && (#[trigger] line[k]).0 == b;
                    assert(line[k].0 < inner.len());
                    assert(reached(inner, changed).contains(b));
                }
            }
        }
        assert(reached(outer, mid) =~= reached(whole, changed));
    }
}

} // verus!
