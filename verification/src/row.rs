//! The two relational tables, modelled as sequences of rows, and the
//! spec-level operations on them that the store's contracts are written in.

use vstd::prelude::*;
use crate::parsed::ParsedInfoV;
use crate::process::ProcessV;
use crate::step::StepV;

verus! {

/// A persisted row of the processes table.
#[derive(Debug)]
pub struct ProcessRow {
    pub id: usize,
    pub name: String,
    pub num_steps: usize,
    pub is_done: bool,
}

/// The mathematical value of a [`ProcessRow`].
#[verifier::ext_equal]
pub ghost struct ProcessRowV {
    pub id: usize,
    pub name: Seq<char>,
    pub num_steps: usize,
    pub is_done: bool,
}

impl View for ProcessRow {
    type V = ProcessRowV;

    open spec fn view(&self) -> ProcessRowV {
        ProcessRowV {
            id: self.id,
            name: self.name@,
            num_steps: self.num_steps,
            is_done: self.is_done,
        }
    }
}

/// A persisted row of the steps table. `process_id` is the foreign key into
/// the processes table; it is `None` for an orphaned step.
#[derive(Debug)]
pub struct StepRow {
    pub id: usize,
    pub name: String,
    pub step_num: usize,
    pub description: String,
    pub process_id: Option<usize>,
    pub is_done: bool,
}

/// The mathematical value of a [`StepRow`].
#[verifier::ext_equal]
pub ghost struct StepRowV {
    pub id: usize,
    pub name: Seq<char>,
    pub step_num: usize,
    pub description: Seq<char>,
    pub process_id: Option<usize>,
    pub is_done: bool,
}

impl View for StepRow {
    type V = StepRowV;

    open spec fn view(&self) -> StepRowV {
        StepRowV {
            id: self.id,
            name: self.name@,
            step_num: self.step_num,
            description: self.description@,
            process_id: self.process_id,
            is_done: self.is_done,
        }
    }
}

/// The values of the rows of a processes table.
pub open spec fn proc_views(rows: Seq<ProcessRow>) -> Seq<ProcessRowV> {
    rows.map_values(|r: ProcessRow| r@)
}

/// The values of the rows of a steps table.
pub open spec fn step_views(rows: Seq<StepRow>) -> Seq<StepRowV> {
    rows.map_values(|r: StepRow| r@)
}

/// No two process rows share an id.
pub open spec fn unique_proc_ids(rows: Seq<ProcessRowV>) -> bool {
    forall|i: int, j: int| 0 <= i < j < rows.len() ==> rows[i].id != rows[j].id
}

/// No two step rows share an id.
pub open spec fn unique_step_ids(rows: Seq<StepRowV>) -> bool {
    forall|i: int, j: int| 0 <= i < j < rows.len() ==> rows[i].id != rows[j].id
}

/// Whether a process row with this id exists.
pub open spec fn has_proc(rows: Seq<ProcessRowV>, id: usize) -> bool {
    exists|i: int| 0 <= i < rows.len() && rows[i].id == id
}

/// Whether a step row with this id exists.
pub open spec fn has_step(rows: Seq<StepRowV>, id: usize) -> bool {
    exists|i: int| 0 <= i < rows.len() && rows[i].id == id
}

/// An index of the process row with this id; under [`unique_proc_ids`] it is
/// the only one.
pub open spec fn proc_idx(rows: Seq<ProcessRowV>, id: usize) -> int {
    choose|i: int| 0 <= i < rows.len() && rows[i].id == id
}

/// An index of the step row with this id; under [`unique_step_ids`] it is
/// the only one.
pub open spec fn step_idx(rows: Seq<StepRowV>, id: usize) -> int {
    choose|i: int| 0 <= i < rows.len() && rows[i].id == id
}

/// The process row with this id.
pub open spec fn proc_at(rows: Seq<ProcessRowV>, id: usize) -> ProcessRowV {
    rows[proc_idx(rows, id)]
}

/// The step row with this id.
pub open spec fn step_at(rows: Seq<StepRowV>, id: usize) -> StepRowV {
    rows[step_idx(rows, id)]
}

/// Whether some process row other than `excl` already carries `name`.
pub open spec fn proc_name_taken(rows: Seq<ProcessRowV>, name: Seq<char>, excl: Option<usize>) -> bool {
    exists|i: int| 0 <= i < rows.len() && rows[i].name == name && Some(rows[i].id) != excl
}

/// Whether some step row of process `pid`, other than `excl`, already
/// carries `name` (step-name uniqueness is scoped to one process).
pub open spec fn step_name_taken(
    rows: Seq<StepRowV>,
    pid: usize,
    name: Seq<char>,
    excl: Option<usize>,
) -> bool {
    exists|i: int|
        0 <= i < rows.len() && rows[i].process_id == Some(pid) && rows[i].name == name && Some(
            rows[i].id,
        ) != excl
}

/// The table with the row of id `id` renamed.
pub open spec fn with_proc_name(rows: Seq<ProcessRowV>, id: usize, name: Seq<char>) -> Seq<
    ProcessRowV,
> {
    Seq::new(
        rows.len(),
        |i: int|
            if rows[i].id == id {
                ProcessRowV { name: name, ..rows[i] }
            } else {
                rows[i]
            },
    )
}

/// The table with the completion flag of the row of id `id` flipped.
pub open spec fn with_proc_toggled(rows: Seq<ProcessRowV>, id: usize) -> Seq<ProcessRowV> {
    Seq::new(
        rows.len(),
        |i: int|
            if rows[i].id == id {
                ProcessRowV { is_done: !rows[i].is_done, ..rows[i] }
            } else {
                rows[i]
            },
    )
}

/// The table with the row of id `id` replaced by `row`.
pub open spec fn with_proc_replaced(rows: Seq<ProcessRowV>, id: usize, row: ProcessRowV) -> Seq<
    ProcessRowV,
> {
    Seq::new(
        rows.len(),
        |i: int|
            if rows[i].id == id {
                row
            } else {
                rows[i]
            },
    )
}

/// The table with the step row of id `id` renamed.
pub open spec fn with_step_name(rows: Seq<StepRowV>, id: usize, name: Seq<char>) -> Seq<StepRowV> {
    Seq::new(
        rows.len(),
        |i: int|
            if rows[i].id == id {
                StepRowV { name: name, ..rows[i] }
            } else {
                rows[i]
            },
    )
}

/// The table with the step row of id `id` redescribed.
pub open spec fn with_step_description(rows: Seq<StepRowV>, id: usize, description: Seq<char>) -> Seq<
    StepRowV,
> {
    Seq::new(
        rows.len(),
        |i: int|
            if rows[i].id == id {
                StepRowV { description: description, ..rows[i] }
            } else {
                rows[i]
            },
    )
}

/// The table with the completion flag of the step row of id `id` flipped.
pub open spec fn with_step_toggled(rows: Seq<StepRowV>, id: usize) -> Seq<StepRowV> {
    Seq::new(
        rows.len(),
        |i: int|
            if rows[i].id == id {
                StepRowV { is_done: !rows[i].is_done, ..rows[i] }
            } else {
                rows[i]
            },
    )
}

/// The table with the step row of id `id` replaced by `row`.
pub open spec fn with_step_replaced(rows: Seq<StepRowV>, id: usize, row: StepRowV) -> Seq<StepRowV> {
    Seq::new(
        rows.len(),
        |i: int|
            if rows[i].id == id {
                row
            } else {
                rows[i]
            },
    )
}

/// The steps table with every step of process `pid` detached: its foreign
/// key cleared, everything else kept.
pub open spec fn orphaned(rows: Seq<StepRowV>, pid: usize) -> Seq<StepRowV> {
    Seq::new(
        rows.len(),
        |i: int|
            if rows[i].process_id == Some(pid) {
                StepRowV { process_id: None, ..rows[i] }
            } else {
                rows[i]
            },
    )
}

/// The step rows of process `pid`, in table order.
pub open spec fn steps_of(rows: Seq<StepRowV>, pid: usize) -> Seq<StepRowV>
    decreases rows.len(),
{
    if rows.len() == 0 {
        Seq::empty()
    } else {
        let rest = steps_of(rows.drop_last(), pid);
        if rows.last().process_id == Some(pid) {
            rest.push(rows.last())
        } else {
            rest
        }
    }
}

/// A step row read back as a step entity.
pub open spec fn step_entity(r: StepRowV) -> StepV {
    StepV {
        id: Some(r.id),
        name: r.name,
        step_num: r.step_num,
        description: r.description,
        process_id: r.process_id,
        is_done: r.is_done,
    }
}

/// Step rows read back as step entities.
pub open spec fn step_entities(rows: Seq<StepRowV>) -> Seq<StepV> {
    rows.map_values(|r: StepRowV| step_entity(r))
}

/// A process row together with its step rows, read back as a process entity.
pub open spec fn proc_entity(p: ProcessRowV, srows: Seq<StepRowV>) -> ProcessV {
    ProcessV {
        id: Some(p.id),
        name: p.name,
        num_steps: p.num_steps,
        steps: step_entities(srows),
        is_done: p.is_done,
    }
}

/// Every process row read back as an entity carrying its steps: the
/// left-join read path, where a process with no steps still appears (with an
/// empty step list).
pub open spec fn proc_entities(procs: Seq<ProcessRowV>, srows: Seq<StepRowV>) -> Seq<ProcessV> {
    procs.map_values(|p: ProcessRowV| proc_entity(p, steps_of(srows, p.id)))
}

/// The joined row of one process row and one of its step rows.
pub open spec fn parsed_of(p: ProcessRowV, s: StepRowV) -> ParsedInfoV {
    ParsedInfoV {
        process_id: p.id,
        process_name: p.name,
        process_num_steps: p.num_steps,
        process_done: p.is_done,
        step_id: s.id,
        step_name: s.name,
        step_num: s.step_num,
        step_description: s.description,
        step_done: s.is_done,
    }
}

/// The joined rows of one process row: one per step of that process, in
/// table order.
pub open spec fn pair_rows(p: ProcessRowV, srows: Seq<StepRowV>) -> Seq<ParsedInfoV>
    decreases srows.len(),
{
    if srows.len() == 0 {
        Seq::empty()
    } else {
        let rest = pair_rows(p, srows.drop_last());
        if srows.last().process_id == Some(p.id) {
            rest.push(parsed_of(p, srows.last()))
        } else {
            rest
        }
    }
}

/// The join of one process row looks at one more step row when one more is
/// taken.
pub proof fn lemma_pair_rows_take_step(p: ProcessRowV, srows: Seq<StepRowV>, j: int)
    requires
        0 <= j < srows.len(),
    ensures
        pair_rows(p, srows.take(j + 1)) == if srows[j].process_id == Some(p.id) {
            pair_rows(p, srows.take(j)).push(parsed_of(p, srows[j]))
        } else {
            pair_rows(p, srows.take(j))
        },
{
    assert(srows.take(j + 1).drop_last() =~= srows.take(j));
    assert(srows.take(j + 1).last() == srows[j]);
}

/// A process with no step rows contributes nothing to the join.
pub proof fn lemma_pair_rows_none(p: ProcessRowV, srows: Seq<StepRowV>)
    requires
        forall|i: int| 0 <= i < srows.len() ==> srows[i].process_id != Some(p.id),
    ensures
        pair_rows(p, srows) == Seq::<ParsedInfoV>::empty(),
    decreases srows.len(),
{
    if srows.len() > 0 {
        lemma_pair_rows_none(p, srows.drop_last());
    }
}

/// The inner join of the two tables: one row per (process, step) pair,
/// processes in table order, each process's steps in table order. A process
/// with no steps contributes nothing.
pub open spec fn joined_rows(procs: Seq<ProcessRowV>, srows: Seq<StepRowV>) -> Seq<ParsedInfoV>
    decreases procs.len(),
{
    if procs.len() == 0 {
        Seq::empty()
    } else {
        joined_rows(procs.drop_last(), srows) + pair_rows(procs.last(), srows)
    }
}

/// The join looks at one more process row when one more is taken.
pub proof fn lemma_joined_take_step(procs: Seq<ProcessRowV>, srows: Seq<StepRowV>, i: int)
    requires
        0 <= i < procs.len(),
    ensures
        joined_rows(procs.take(i + 1), srows) == joined_rows(procs.take(i), srows) + pair_rows(
            procs[i],
            srows,
        ),
{
    assert(procs.take(i + 1).drop_last() =~= procs.take(i));
    assert(procs.take(i + 1).last() == procs[i]);
}

/// The largest process-row id, 0 for an empty table.
pub open spec fn max_proc_id(rows: Seq<ProcessRowV>) -> usize
    decreases rows.len(),
{
    if rows.len() == 0 {
        0
    } else {
        let m = max_proc_id(rows.drop_last());
        if rows.last().id > m {
            rows.last().id
        } else {
            m
        }
    }
}

/// The largest step-row id, 0 for an empty table.
pub open spec fn max_step_id(rows: Seq<StepRowV>) -> usize
    decreases rows.len(),
{
    if rows.len() == 0 {
        0
    } else {
        let m = max_step_id(rows.drop_last());
        if rows.last().id > m {
            rows.last().id
        } else {
            m
        }
    }
}

/// No process-row id exceeds the table's largest.
pub proof fn lemma_max_proc_id_ge(rows: Seq<ProcessRowV>)
    ensures
        forall|i: int| 0 <= i < rows.len() ==> (#[trigger] rows[i]).id <= max_proc_id(rows),
    decreases rows.len(),
{
    if rows.len() > 0 {
        lemma_max_proc_id_ge(rows.drop_last());
        assert forall|i: int| 0 <= i < rows.len() implies (#[trigger] rows[i]).id <= max_proc_id(
            rows,
        ) by {
            if i < rows.len() - 1 {
                assert(rows.drop_last()[i] == rows[i]);
            }
        }
    }
}

/// No step-row id exceeds the table's largest.
pub proof fn lemma_max_step_id_ge(rows: Seq<StepRowV>)
    ensures
        forall|i: int| 0 <= i < rows.len() ==> (#[trigger] rows[i]).id <= max_step_id(rows),
    decreases rows.len(),
{
    if rows.len() > 0 {
        lemma_max_step_id_ge(rows.drop_last());
        assert forall|i: int| 0 <= i < rows.len() implies (#[trigger] rows[i]).id <= max_step_id(
            rows,
        ) by {
            if i < rows.len() - 1 {
                assert(rows.drop_last()[i] == rows[i]);
            }
        }
    }
}

/// One more row changes the largest id in the expected way.
pub proof fn lemma_max_proc_id_take_step(rows: Seq<ProcessRowV>, i: int)
    requires
        0 <= i < rows.len(),
    ensures
        max_proc_id(rows.take(i + 1)) == if rows[i].id > max_proc_id(rows.take(i)) {
            rows[i].id
        } else {
            max_proc_id(rows.take(i))
        },
{
    assert(rows.take(i + 1).drop_last() =~= rows.take(i));
    assert(rows.take(i + 1).last() == rows[i]);
}

/// One more row changes the largest id in the expected way.
pub proof fn lemma_max_step_id_take_step(rows: Seq<StepRowV>, i: int)
    requires
        0 <= i < rows.len(),
    ensures
        max_step_id(rows.take(i + 1)) == if rows[i].id > max_step_id(rows.take(i)) {
            rows[i].id
        } else {
            max_step_id(rows.take(i))
        },
{
    assert(rows.take(i + 1).drop_last() =~= rows.take(i));
    assert(rows.take(i + 1).last() == rows[i]);
}

/// Filtering for `pid` looks only at one more row when one more row is
/// taken.
pub proof fn lemma_steps_of_take_step(rows: Seq<StepRowV>, pid: usize, i: int)
    requires
        0 <= i < rows.len(),
    ensures
        steps_of(rows.take(i + 1), pid) == if rows[i].process_id == Some(pid) {
            steps_of(rows.take(i), pid).push(rows[i])
        } else {
            steps_of(rows.take(i), pid)
        },
{
    assert(rows.take(i + 1).drop_last() =~= rows.take(i));
    assert(rows.take(i + 1).last() == rows[i]);
}

/// A table with no row of process `pid` filters to nothing for `pid`.
pub proof fn lemma_steps_of_none(rows: Seq<StepRowV>, pid: usize)
    requires
        forall|i: int| 0 <= i < rows.len() ==> rows[i].process_id != Some(pid),
    ensures
        steps_of(rows, pid) == Seq::<StepRowV>::empty(),
    decreases rows.len(),
{
    if rows.len() > 0 {
        lemma_steps_of_none(rows.drop_last(), pid);
    }
}
} // verus!
