//! The persistence core: two in-memory relational tables linked by a
//! nullable foreign key, with create/read/update/delete/toggle operations
//! that keep referential integrity, id uniqueness and the configured name
//! uniqueness.

use vstd::prelude::*;
use crate::delete::{DeleteCommands, DeleteSub};
use crate::done::{ToggleCommands, ToggleSub};
use crate::error::StoreError;
use crate::parsed::{parsed_seq_view, ParsedInfo, ParsedInfoV};
use crate::process::{process_seq_view, Process, ProcessV};
use crate::row::{
    has_proc, has_step, joined_rows, lemma_joined_take_step, lemma_max_proc_id_ge,
    lemma_max_proc_id_take_step, lemma_max_step_id_ge, lemma_max_step_id_take_step,
    lemma_pair_rows_take_step, lemma_steps_of_take_step, max_proc_id, max_step_id, orphaned,
    pair_rows, parsed_of, proc_at, proc_entities, proc_entity, proc_idx, proc_name_taken,
    proc_views, step_at, step_entities, step_entity, step_idx, step_name_taken, step_views,
    steps_of, unique_proc_ids, unique_step_ids, with_proc_name, with_proc_replaced,
    with_proc_toggled, with_step_description, with_step_name, with_step_replaced,
    with_step_toggled, ProcessRow, ProcessRowV, StepRow, StepRowV,
};
use crate::step::{step_seq_view, Step, StepV};
use crate::update::{UpdateCommands, UpdateSub};

verus! {

/// Which uniqueness rules the schema enforces on writes.
///
/// Process names default to not unique; step names default to unique within
/// their owning process (never across processes).
#[derive(Clone, Copy, Debug, PartialEq, Eq, Structural)]
pub struct StoreConfig {
    pub unique_process_names: bool,
    pub unique_step_names: bool,
}

impl Default for StoreConfig {
    /// Process names free, step names unique per process.
    fn default() -> (r: StoreConfig)
        ensures
            r == (StoreConfig { unique_process_names: false, unique_step_names: true }),
    {
        StoreConfig { unique_process_names: false, unique_step_names: true }
    }
}

/// The mathematical value of a [`Store`]: the two tables and the next free
/// id of each.
#[verifier::ext_equal]
pub ghost struct StoreV {
    pub config: StoreConfig,
    pub processes: Seq<ProcessRowV>,
    pub steps: Seq<StepRowV>,
    pub next_process_id: usize,
    pub next_step_id: usize,
}

/// Well-formedness of a store value: ids are unique and below the id
/// counters, process names are non-empty, every live foreign key points at
/// an existing process row, and the configured name-uniqueness rules hold.
pub open spec fn wf_store(v: StoreV) -> bool {
    &&& unique_proc_ids(v.processes)
    &&& unique_step_ids(v.steps)
    &&& forall|i: int| 0 <= i < v.processes.len() ==> (#[trigger] v.processes[i]).id
        < v.next_process_id
    &&& forall|i: int| 0 <= i < v.steps.len() ==> (#[trigger] v.steps[i]).id < v.next_step_id
    &&& forall|i: int| 0 <= i < v.processes.len() ==> (#[trigger] v.processes[i]).name.len() > 0
    &&& forall|i: int|
        0 <= i < v.steps.len() ==> match (#[trigger] v.steps[i]).process_id {
            Some(pid) => has_proc(v.processes, pid),
            None => true,
        }
    &&& (v.config.unique_process_names ==> forall|i: int, j: int|
        0 <= i < j < v.processes.len() ==> v.processes[i].name != v.processes[j].name)
    &&& (v.config.unique_step_names ==> forall|i: int, j: int|
        0 <= i < j < v.steps.len() && v.steps[i].process_id == v.steps[j].process_id
            && v.steps[i].process_id is Some ==> v.steps[i].name != v.steps[j].name)
}

/// The outcome of persisting one step bound to process `pid`: the new store
/// value and the result.
///
/// The write is rejected with `ConstraintViolation` when no process row
/// carries `pid` (the foreign key would dangle), or when step names are
/// configured unique and another step of that process already carries the
/// name. Otherwise the row is stamped with `pid`, stored pending
/// (`is_done == false`), and keyed by the step's own id when it brought one
/// (replacing any row with that id: an upsert) or by the next free id.
pub open spec fn spec_save_step(v: StoreV, s: StepV, pid: usize) -> (StoreV, Result<
    usize,
    StoreError,
>) {
    if !has_proc(v.processes, pid) {
        (v, Err(StoreError::ConstraintViolation))
    } else {
        let sid = match s.id {
            None => v.next_step_id,
            Some(i) => i,
        };
        if v.config.unique_step_names && step_name_taken(v.steps, pid, s.name, Some(sid)) {
            (v, Err(StoreError::ConstraintViolation))
        } else {
            let row = StepRowV {
                id: sid,
                name: s.name,
                step_num: s.step_num,
                description: s.description,
                process_id: Some(pid),
                is_done: false,
            };
            let steps2 = if has_step(v.steps, sid) {
                with_step_replaced(v.steps, sid, row)
            } else {
                v.steps.push(row)
            };
            let next2: usize = if sid >= v.next_step_id {
                (sid + 1) as usize
            } else {
                v.next_step_id
            };
            (StoreV { steps: steps2, next_step_id: next2, ..v }, Ok(sid))
        }
    }
}

/// The process-row stage of a save: upsert the row (keyed by the process's
/// own id when it brought one, else by the next free id) and hand back the
/// id it is stored under. The row is stored pending (`is_done == false`).
pub open spec fn spec_insert_process(v: StoreV, p: ProcessV) -> (StoreV, usize) {
    let pid = match p.id {
        None => v.next_process_id,
        Some(i) => i,
    };
    let row = ProcessRowV { id: pid, name: p.name, num_steps: p.num_steps, is_done: false };
    let procs2 = if has_proc(v.processes, pid) {
        with_proc_replaced(v.processes, pid, row)
    } else {
        v.processes.push(row)
    };
    let next2: usize = if pid >= v.next_process_id {
        (pid + 1) as usize
    } else {
        v.next_process_id
    };
    (StoreV { processes: procs2, next_process_id: next2, ..v }, pid)
}

/// Persisting a list of steps in order, each bound to `pid`, stopping at
/// the first rejected one.
pub open spec fn spec_fold_steps(v: StoreV, steps: Seq<StepV>, pid: usize) -> (StoreV, Result<
    (),
    StoreError,
>)
    decreases steps.len(),
{
    if steps.len() == 0 {
        (v, Ok(()))
    } else {
        let head = spec_save_step(v, steps[0], pid);
        match head.1 {
            Err(e) => (head.0, Err(e)),
            Ok(_) => spec_fold_steps(head.0, steps.drop_first(), pid),
        }
    }
}

/// The outcome of saving a whole process aggregate, as one transaction:
/// either the process row is upserted and every step is persisted in list
/// order, or nothing changes and the first rejection is reported.
pub open spec fn spec_save_process(v: StoreV, p: ProcessV) -> (StoreV, Result<usize, StoreError>) {
    let pid = match p.id {
        None => v.next_process_id,
        Some(i) => i,
    };
    if v.config.unique_process_names && proc_name_taken(v.processes, p.name, Some(pid)) {
        (v, Err(StoreError::ConstraintViolation))
    } else {
        let inserted = spec_insert_process(v, p);
        let folded = spec_fold_steps(inserted.0, p.steps, pid);
        match folded.1 {
            Ok(_) => (folded.0, Ok(pid)),
            Err(e) => (v, Err(e)),
        }
    }
}

/// Whether rows read back from persisted storage are admissible for this
/// configuration: ids unique and not exhausting the id space, process names
/// non-empty, every live foreign key resolvable, and the configured name
/// uniqueness already holding.
pub open spec fn loadable(
    config: StoreConfig,
    procs: Seq<ProcessRowV>,
    steps: Seq<StepRowV>,
) -> bool {
    &&& unique_proc_ids(procs)
    &&& unique_step_ids(steps)
    &&& max_proc_id(procs) < usize::MAX
    &&& max_step_id(steps) < usize::MAX
    &&& forall|i: int| 0 <= i < procs.len() ==> (#[trigger] procs[i]).name.len() > 0
    &&& forall|i: int|
        0 <= i < steps.len() ==> match (#[trigger] steps[i]).process_id {
            Some(pid) => has_proc(procs, pid),
            None => true,
        }
    &&& (config.unique_process_names ==> forall|i: int, j: int|
        0 <= i < j < procs.len() ==> procs[i].name != procs[j].name)
    &&& (config.unique_step_names ==> forall|i: int, j: int|
        0 <= i < j < steps.len() && steps[i].process_id == steps[j].process_id
            && steps[i].process_id is Some ==> steps[i].name != steps[j].name)
}

/// Whether no two process rows share an id.
fn check_proc_ids_unique(rows: &Vec<ProcessRow>) -> (r: bool)
    ensures
        r == unique_proc_ids(proc_views(rows@)),
{
    let n = rows.len();
    let mut i: usize = 0;
    while i < n
        invariant
            i <= n,
            n == rows@.len(),
            forall|a: int, b: int|
                0 <= a < b < i ==> proc_views(rows@)[a].id != proc_views(rows@)[b].id,
        decreases n - i,
    {
        let mut j: usize = 0;
        while j < i
            invariant
                j <= i,
                i < n,
                n == rows@.len(),
                forall|a: int, b: int|
                    0 <= a < b < i ==> proc_views(rows@)[a].id != proc_views(rows@)[b].id,
                forall|a: int| 0 <= a < j ==> proc_views(rows@)[a].id != proc_views(
                    rows@,
                )[i as int].id,
            decreases i - j,
        {
            if rows[j].id == rows[i].id {
                proof {
                    let v = proc_views(rows@);
                    assert(v[j as int].id == v[i as int].id);
                    assert(!unique_proc_ids(v));
                }
                return false;
            }
            proof {
                assert(proc_views(rows@)[j as int].id != proc_views(rows@)[i as int].id);
            }
            j += 1;
        }
        i += 1;
    }
    true
}

/// Whether no two step rows share an id.
fn check_step_ids_unique(rows: &Vec<StepRow>) -> (r: bool)
    ensures
        r == unique_step_ids(step_views(rows@)),
{
    let n = rows.len();
    let mut i: usize = 0;
    while i < n
        invariant
            i <= n,
            n == rows@.len(),
            forall|a: int, b: int|
                0 <= a < b < i ==> step_views(rows@)[a].id != step_views(rows@)[b].id,
        decreases n - i,
    {
        let mut j: usize = 0;
        while j < i
            invariant
                j <= i,
                i < n,
                n == rows@.len(),
                forall|a: int, b: int|
                    0 <= a < b < i ==> step_views(rows@)[a].id != step_views(rows@)[b].id,
                forall|a: int| 0 <= a < j ==> step_views(rows@)[a].id != step_views(
                    rows@,
                )[i as int].id,
            decreases i - j,
        {
            if rows[j].id == rows[i].id {
                proof {
                    let v = step_views(rows@);
                    assert(v[j as int].id == v[i as int].id);
                    assert(!unique_step_ids(v));
                }
                return false;
            }
            proof {
                assert(step_views(rows@)[j as int].id != step_views(rows@)[i as int].id);
            }
            j += 1;
        }
        i += 1;
    }
    true
}

/// The largest process-row id, 0 for an empty table.
fn max_of_proc_ids(rows: &Vec<ProcessRow>) -> (m: usize)
    ensures
        m == max_proc_id(proc_views(rows@)),
{
    let ghost views = proc_views(rows@);
    let n = rows.len();
    let mut m: usize = 0;
    let mut i: usize = 0;
    proof {
        assert(views.take(0) =~= Seq::<ProcessRowV>::empty());
    }
    while i < n
        invariant
            i <= n,
            n == rows@.len(),
            views == proc_views(rows@),
            m == max_proc_id(views.take(i as int)),
        decreases n - i,
    {
        proof {
            lemma_max_proc_id_take_step(views, i as int);
            assert(views[i as int] == rows@[i as int]@);
        }
        if rows[i].id > m {
            m = rows[i].id;
        }
        i += 1;
    }
    proof {
        assert(views.take(n as int) =~= views);
    }
    m
}

/// The largest step-row id, 0 for an empty table.
fn max_of_step_ids(rows: &Vec<StepRow>) -> (m: usize)
    ensures
        m == max_step_id(step_views(rows@)),
{
    let ghost views = step_views(rows@);
    let n = rows.len();
    let mut m: usize = 0;
    let mut i: usize = 0;
    proof {
        assert(views.take(0) =~= Seq::<StepRowV>::empty());
    }
    while i < n
        invariant
            i <= n,
            n == rows@.len(),
            views == step_views(rows@),
            m == max_step_id(views.take(i as int)),
        decreases n - i,
    {
        proof {
            lemma_max_step_id_take_step(views, i as int);
            assert(views[i as int] == rows@[i as int]@);
        }
        if rows[i].id > m {
            m = rows[i].id;
        }
        i += 1;
    }
    proof {
        assert(views.take(n as int) =~= views);
    }
    m
}

/// Whether every process row carries a non-empty name.
fn check_proc_names_nonempty(rows: &Vec<ProcessRow>) -> (r: bool)
    ensures
        r == (forall|i: int|
            0 <= i < rows@.len() ==> (#[trigger] proc_views(rows@)[i]).name.len() > 0),
{
    let empty = String::new();
    let n = rows.len();
    let mut i: usize = 0;
    while i < n
        invariant
            i <= n,
            n == rows@.len(),
            empty@.len() == 0,
            forall|a: int| 0 <= a < i ==> (#[trigger] proc_views(rows@)[a]).name.len() > 0,
        decreases n - i,
    {
        if rows[i].name == empty {
            proof {
                assert(proc_views(rows@)[i as int].name.len() == 0);
            }
            return false;
        }
        proof {
            let v = proc_views(rows@)[i as int];
            if v.name.len() == 0 {
                assert(v.name =~= empty@);
            }
        }
        i += 1;
    }
    true
}

/// Whether every live foreign key among the step rows resolves to a process
/// row.
fn check_fk(procs: &Vec<ProcessRow>, steps: &Vec<StepRow>) -> (r: bool)
    ensures
        r == (forall|i: int|
            0 <= i < steps@.len() ==> match (#[trigger] step_views(steps@)[i]).process_id {
                Some(pid) => has_proc(proc_views(procs@), pid),
                None => true,
            }),
{
    let n = steps.len();
    let mut i: usize = 0;
    while i < n
        invariant
            i <= n,
            n == steps@.len(),
            forall|a: int|
                0 <= a < i ==> match (#[trigger] step_views(steps@)[a]).process_id {
                    Some(pid) => has_proc(proc_views(procs@), pid),
                    None => true,
                },
        decreases n - i,
    {
        let owner = steps[i].process_id;
        match owner {
            Some(pid) => {
                match proc_index(procs, pid) {
                    None => {
                        proof {
                            assert(step_views(steps@)[i as int].process_id == Some(pid));
                        }
                        return false;
                    },
                    Some(w) => {
                        proof {
                            assert(proc_views(procs@)[w as int].id == pid);
                            assert(has_proc(proc_views(procs@), pid));
                            assert(step_views(steps@)[i as int].process_id == Some(pid));
                        }
                    },
                }
            },
            None => {
                proof {
                    assert(step_views(steps@)[i as int].process_id is None);
                }
            },
        }
        i += 1;
    }
    true
}

/// Whether no two process rows share a name.
fn check_proc_names_unique(rows: &Vec<ProcessRow>) -> (r: bool)
    ensures
        r == (forall|a: int, b: int|
            0 <= a < b < rows@.len() ==> proc_views(rows@)[a].name != proc_views(rows@)[b].name),
{
    let n = rows.len();
    let mut i: usize = 0;
    while i < n
        invariant
            i <= n,
            n == rows@.len(),
            forall|a: int, b: int|
                0 <= a < b < i ==> proc_views(rows@)[a].name != proc_views(rows@)[b].name,
        decreases n - i,
    {
        let mut j: usize = 0;
        while j < i
            invariant
                j <= i,
                i < n,
                n == rows@.len(),
                forall|a: int, b: int|
                    0 <= a < b < i ==> proc_views(rows@)[a].name != proc_views(rows@)[b].name,
                forall|a: int| 0 <= a < j ==> proc_views(rows@)[a].name != proc_views(
                    rows@,
                )[i as int].name,
            decreases i - j,
        {
            if rows[j].name == rows[i].name {
                proof {
                    let v = proc_views(rows@);
                    assert(v[j as int].name == v[i as int].name);
                }
                return false;
            }
            proof {
                assert(proc_views(rows@)[j as int].name != proc_views(rows@)[i as int].name);
            }
            j += 1;
        }
        i += 1;
    }
    true
}

/// Whether no two step rows of one live process share a name.
fn check_step_names_unique(rows: &Vec<StepRow>) -> (r: bool)
    ensures
        r == (forall|a: int, b: int|
            0 <= a < b < rows@.len() && step_views(rows@)[a].process_id == step_views(
                rows@,
            )[b].process_id && step_views(rows@)[a].process_id is Some ==> step_views(
                rows@,
            )[a].name != step_views(rows@)[b].name),
{
    let n = rows.len();
    let mut i: usize = 0;
    while i < n
        invariant
            i <= n,
            n == rows@.len(),
            forall|a: int, b: int|
                0 <= a < b < i && step_views(rows@)[a].process_id == step_views(
                    rows@,
                )[b].process_id && step_views(rows@)[a].process_id is Some ==> step_views(
                    rows@,
                )[a].name != step_views(rows@)[b].name,
        decreases n - i,
    {
        let mut j: usize = 0;
        while j < i
            invariant
                j <= i,
                i < n,
                n == rows@.len(),
                forall|a: int, b: int|
                    0 <= a < b < i && step_views(rows@)[a].process_id == step_views(
                        rows@,
                    )[b].process_id && step_views(rows@)[a].process_id is Some ==> step_views(
                        rows@,
                    )[a].name != step_views(rows@)[b].name,
                forall|a: int|
                    0 <= a < j && step_views(rows@)[a].process_id == step_views(
                        rows@,
                    )[i as int].process_id && step_views(rows@)[a].process_id is Some
                        ==> step_views(rows@)[a].name != step_views(rows@)[i as int].name,
            decreases i - j,
        {
            let same_owner = match (rows[j].process_id, rows[i].process_id) {
                (Some(x), Some(y)) => x == y,
                _ => false,
            };
            if same_owner && rows[j].name == rows[i].name {
                proof {
                    let v = step_views(rows@);
                    assert(v[j as int].process_id == v[i as int].process_id && v[j as
                        int].process_id is Some);
                    assert(v[j as int].name == v[i as int].name);
                }
                return false;
            }
            proof {
                let v = step_views(rows@);
                if v[j as int].process_id == v[i as int].process_id && v[j as int].process_id
                    is Some {
                    assert(v[j as int].name != v[i as int].name);
                }
            }
            j += 1;
        }
        i += 1;
    }
    true
}

/// The outcome of renaming the process with id `id`.
pub open spec fn spec_rename_process(v: StoreV, id: usize, name: Seq<char>) -> (StoreV, Result<
    (),
    StoreError,
>) {
    if !has_proc(v.processes, id) {
        (v, Err(StoreError::NotFound))
    } else if v.config.unique_process_names && proc_name_taken(v.processes, name, Some(id)) {
        (v, Err(StoreError::ConstraintViolation))
    } else {
        (StoreV { processes: with_proc_name(v.processes, id, name), ..v }, Ok(()))
    }
}

/// The outcome of renaming the step with id `id`.
pub open spec fn spec_rename_step(v: StoreV, id: usize, name: Seq<char>) -> (StoreV, Result<
    (),
    StoreError,
>) {
    if !has_step(v.steps, id) {
        (v, Err(StoreError::NotFound))
    } else if v.config.unique_step_names && (step_at(v.steps, id).process_id matches Some(pid)
        && step_name_taken(v.steps, pid, name, Some(id))) {
        (v, Err(StoreError::ConstraintViolation))
    } else {
        (StoreV { steps: with_step_name(v.steps, id, name), ..v }, Ok(()))
    }
}

/// The outcome of rewriting the description of the step with id `id`.
pub open spec fn spec_redescribe_step(v: StoreV, id: usize, description: Seq<char>) -> (
    StoreV,
    Result<(), StoreError>,
) {
    if !has_step(v.steps, id) {
        (v, Err(StoreError::NotFound))
    } else {
        (StoreV { steps: with_step_description(v.steps, id, description), ..v }, Ok(()))
    }
}

/// The outcome of flipping the completion flag of the process with id `id`.
pub open spec fn spec_toggle_process(v: StoreV, id: usize) -> (StoreV, Result<(), StoreError>) {
    if !has_proc(v.processes, id) {
        (v, Err(StoreError::NotFound))
    } else {
        (StoreV { processes: with_proc_toggled(v.processes, id), ..v }, Ok(()))
    }
}

/// The outcome of flipping the completion flag of the step with id `id`.
pub open spec fn spec_toggle_step(v: StoreV, id: usize) -> (StoreV, Result<(), StoreError>) {
    if !has_step(v.steps, id) {
        (v, Err(StoreError::NotFound))
    } else {
        (StoreV { steps: with_step_toggled(v.steps, id), ..v }, Ok(()))
    }
}

/// The outcome of deleting the process with id `id`: the row goes, its
/// steps stay with their foreign key cleared.
pub open spec fn spec_delete_process(v: StoreV, id: usize) -> (StoreV, Result<(), StoreError>) {
    if !has_proc(v.processes, id) {
        (v, Err(StoreError::NotFound))
    } else {
        (
            StoreV {
                processes: v.processes.remove(proc_idx(v.processes, id)),
                steps: orphaned(v.steps, id),
                ..v
            },
            Ok(()),
        )
    }
}

/// The outcome of deleting the step with id `id`.
pub open spec fn spec_delete_step(v: StoreV, id: usize) -> (StoreV, Result<(), StoreError>) {
    if !has_step(v.steps, id) {
        (v, Err(StoreError::NotFound))
    } else {
        (StoreV { steps: v.steps.remove(step_idx(v.steps, id)), ..v }, Ok(()))
    }
}

/// The outcome of one update command: nothing for an empty command, a
/// process rename, or a step rename and/or redescription in that order,
/// stopping at the first rejection.
pub open spec fn spec_apply_update(v: StoreV, cmd: UpdateSub) -> (StoreV, Result<(), StoreError>) {
    match cmd.update {
        None => (v, Ok(())),
        Some(UpdateCommands::Process { id, name }) => match name {
            None => (v, Ok(())),
            Some(n) => spec_rename_process(v, id, n@),
        },
        Some(UpdateCommands::Step { id, name, description }) => {
            let after_name = match name {
                None => (v, Ok(())),
                Some(n) => spec_rename_step(v, id, n@),
            };
            match after_name.1 {
                Err(e) => (after_name.0, Err(e)),
                Ok(_) => match description {
                    None => (after_name.0, Ok(())),
                    Some(d) => spec_redescribe_step(after_name.0, id, d@),
                },
            }
        },
    }
}

/// The outcome of one toggle command.
pub open spec fn spec_apply_toggle(v: StoreV, cmd: ToggleSub) -> (StoreV, Result<(), StoreError>) {
    match cmd.done {
        ToggleCommands::Process { id } => spec_toggle_process(v, id),
        ToggleCommands::Step { id } => spec_toggle_step(v, id),
    }
}

/// The outcome of one delete command.
pub open spec fn spec_apply_delete(v: StoreV, cmd: DeleteSub) -> (StoreV, Result<(), StoreError>) {
    match cmd.delete {
        DeleteCommands::Process { id } => spec_delete_process(v, id),
        DeleteCommands::Step { id } => spec_delete_step(v, id),
    }
}

/// A field-for-field copy of a processes table.
fn clone_proc_rows(rows: &Vec<ProcessRow>) -> (r: Vec<ProcessRow>)
    ensures
        r@ == rows@,
{
    let n = rows.len();
    let mut out: Vec<ProcessRow> = Vec::new();
    let mut i: usize = 0;
    while i < n
        invariant
            i <= n,
            n == rows@.len(),
            out@ =~= rows@.take(i as int),
        decreases n - i,
    {
        let row = &rows[i];
        out.push(
            ProcessRow {
                id: row.id,
                name: row.name.clone(),
                num_steps: row.num_steps,
                is_done: row.is_done,
            },
        );
        proof {
            assert(out@.last() == rows@[i as int]);
            assert(out@ =~= rows@.take(i as int + 1));
        }
        i += 1;
    }
    proof {
        assert(rows@.take(n as int) =~= rows@);
    }
    out
}

/// A field-for-field copy of a steps table.
fn clone_step_rows(rows: &Vec<StepRow>) -> (r: Vec<StepRow>)
    ensures
        r@ == rows@,
{
    let n = rows.len();
    let mut out: Vec<StepRow> = Vec::new();
    let mut i: usize = 0;
    while i < n
        invariant
            i <= n,
            n == rows@.len(),
            out@ =~= rows@.take(i as int),
        decreases n - i,
    {
        let row = &rows[i];
        out.push(
            StepRow {
                id: row.id,
                name: row.name.clone(),
                step_num: row.step_num,
                description: row.description.clone(),
                process_id: row.process_id,
                is_done: row.is_done,
            },
        );
        proof {
            assert(out@.last() == rows@[i as int]);
            assert(out@ =~= rows@.take(i as int + 1));
        }
        i += 1;
    }
    proof {
        assert(rows@.take(n as int) =~= rows@);
    }
    out
}

/// The persistence core. All operations state exactly how they change the
/// two tables and when each error is returned.
pub struct Store {
    config: StoreConfig,
    processes: Vec<ProcessRow>,
    steps: Vec<StepRow>,
    next_process_id: usize,
    next_step_id: usize,
}

impl View for Store {
    type V = StoreV;

    closed spec fn view(&self) -> StoreV {
        StoreV {
            config: self.config,
            processes: proc_views(self.processes@),
            steps: step_views(self.steps@),
            next_process_id: self.next_process_id,
            next_step_id: self.next_step_id,
        }
    }
}

/// The index of the process row with id `id`, scanning forward.
fn proc_index(rows: &Vec<ProcessRow>, id: usize) -> (r: Option<usize>)
    ensures
        match r {
            Some(i) => i < rows@.len() && proc_views(rows@)[i as int].id == id,
            None => !has_proc(proc_views(rows@), id),
        },
{
    let n = rows.len();
    let mut i: usize = 0;
    while i < n
        invariant
            i <= n,
            n == rows@.len(),
            forall|j: int| 0 <= j < i ==> proc_views(rows@)[j].id != id,
        decreases n - i,
    {
        if rows[i].id == id {
            assert(proc_views(rows@)[i as int].id == id);
            return Some(i);
        }
        assert(proc_views(rows@)[i as int].id != id);
        i += 1;
    }
    None
}

/// The index of the step row with id `id`, scanning forward.
fn step_index(rows: &Vec<StepRow>, id: usize) -> (r: Option<usize>)
    ensures
        match r {
            Some(i) => i < rows@.len() && step_views(rows@)[i as int].id == id,
            None => !has_step(step_views(rows@), id),
        },
{
    let n = rows.len();
    let mut i: usize = 0;
    while i < n
        invariant
            i <= n,
            n == rows@.len(),
            forall|j: int| 0 <= j < i ==> step_views(rows@)[j].id != id,
        decreases n - i,
    {
        if rows[i].id == id {
            assert(step_views(rows@)[i as int].id == id);
            return Some(i);
        }
        assert(step_views(rows@)[i as int].id != id);
        i += 1;
    }
    None
}

/// Whether some process row other than `excl` already carries `name`.
fn proc_name_conflict(rows: &Vec<ProcessRow>, name: &String, excl: Option<usize>) -> (r: bool)
    ensures
        r == proc_name_taken(proc_views(rows@), name@, excl),
{
    let n = rows.len();
    let mut i: usize = 0;
    while i < n
        invariant
            i <= n,
            n == rows@.len(),
            forall|j: int|
                0 <= j < i ==> !(proc_views(rows@)[j].name == name@ && Some(
                    proc_views(rows@)[j].id,
                ) != excl),
        decreases n - i,
    {
        let same_id = match excl {
            Some(e) => rows[i].id == e,
            None => false,
        };
        if !same_id && rows[i].name == *name {
            assert(proc_views(rows@)[i as int].name == name@ && Some(proc_views(rows@)[i as int].id)
                != excl);
            return true;
        }
        assert(!(proc_views(rows@)[i as int].name == name@ && Some(proc_views(rows@)[i as int].id)
            != excl));
        i += 1;
    }
    false
}

/// Whether some step row of process `pid`, other than `excl`, already
/// carries `name`.
fn step_name_conflict(rows: &Vec<StepRow>, pid: usize, name: &String, excl: Option<usize>) -> (r:
    bool)
    ensures
        r == step_name_taken(step_views(rows@), pid, name@, excl),
{
    let n = rows.len();
    let mut i: usize = 0;
    while i < n
        invariant
            i <= n,
            n == rows@.len(),
            forall|j: int|
                0 <= j < i ==> !(step_views(rows@)[j].process_id == Some(pid) && step_views(
                    rows@,
                )[j].name == name@ && Some(step_views(rows@)[j].id) != excl),
        decreases n - i,
    {
        let in_proc = match rows[i].process_id {
            Some(q) => q == pid,
            None => false,
        };
        let same_id = match excl {
            Some(e) => rows[i].id == e,
            None => false,
        };
        if in_proc && !same_id && rows[i].name == *name {
            assert(step_views(rows@)[i as int].process_id == Some(pid) && step_views(
                rows@,
            )[i as int].name == name@ && Some(step_views(rows@)[i as int].id) != excl);
            return true;
        }
        assert(!(step_views(rows@)[i as int].process_id == Some(pid) && step_views(
            rows@,
        )[i as int].name == name@ && Some(step_views(rows@)[i as int].id) != excl));
        i += 1;
    }
    false
}

/// All step rows of process `pid`, read back as entities, in table order.
fn collect_steps(rows: &Vec<StepRow>, pid: usize) -> (r: Vec<Step>)
    ensures
        step_seq_view(r@) == step_entities(steps_of(step_views(rows@), pid)),
{
    let ghost views = step_views(rows@);
    let n = rows.len();
    let mut out: Vec<Step> = Vec::new();
    let mut i: usize = 0;
    proof {
        assert(views.take(0) =~= Seq::<StepRowV>::empty());
    }
    while i < n
        invariant
            i <= n,
            n == rows@.len(),
            views == step_views(rows@),
            step_seq_view(out@) =~= step_entities(steps_of(views.take(i as int), pid)),
        decreases n - i,
    {
        let matches_pid = match rows[i].process_id {
            Some(q) => q == pid,
            None => false,
        };
        proof {
            lemma_steps_of_take_step(views, pid, i as int);
            assert(views[i as int] == rows@[i as int]@);
        }
        if matches_pid {
            let row = &rows[i];
            let ghost pre_out = out@;
            out.push(
                Step {
                    id: Some(row.id),
                    name: row.name.clone(),
                    step_num: row.step_num,
                    description: row.description.clone(),
                    process_id: row.process_id,
                    is_done: row.is_done,
                },
            );
            proof {
                let prefix = steps_of(views.take(i as int), pid);
                let target = steps_of(views.take(i as int + 1), pid);
                assert(views[i as int].process_id == Some(pid));
                assert(target == prefix.push(views[i as int]));
                assert(out@ == pre_out.push(out@.last()));
                assert(out@.last()@ == step_entity(views[i as int]));
                assert(step_seq_view(pre_out).len() == pre_out.len());
                assert(step_entities(prefix).len() == prefix.len());
                assert(pre_out.len() == prefix.len());
                assert forall|k: int| 0 <= k < out@.len() implies step_seq_view(out@)[k]
                    == step_entities(target)[k] by {
                    assert(step_seq_view(out@)[k] == out@[k]@);
                    assert(step_entities(target)[k] == step_entity(target[k]));
                    if k < pre_out.len() {
                        assert(out@[k] == pre_out[k]);
                        assert(step_seq_view(pre_out)[k] == pre_out[k]@);
                        assert(step_entities(prefix)[k] == step_entity(prefix[k]));
                        assert(target[k] == prefix[k]);
                    } else {
                        assert(k == pre_out.len());
                        assert(target[k] == views[i as int]);
                    }
                }
                assert(step_seq_view(out@).len() == step_entities(target).len());
                assert(step_seq_view(out@) =~= step_entities(target));
            }
        } else {
            proof {
                assert(step_seq_view(out@) =~= step_entities(
                    steps_of(views.take(i as int + 1), pid),
                ));
            }
        }
        i += 1;
    }
    proof {
        assert(views.take(n as int) =~= views);
    }
    out
}

impl Store {
    /// Well-formedness; established by the constructors and preserved by
    /// every operation.
    pub open spec fn wf(&self) -> bool {
        wf_store(self@)
    }

    /// An empty store: both tables empty, ids handed out from 1 upwards.
    pub fn new(config: StoreConfig) -> (r: Store)
        ensures
            r.wf(),
            r@ == (StoreV {
                config,
                processes: Seq::<ProcessRowV>::empty(),
                steps: Seq::<StepRowV>::empty(),
                next_process_id: 1,
                next_step_id: 1,
            }),
    {
        let s = Store {
            config,
            processes: Vec::new(),
            steps: Vec::new(),
            next_process_id: 1,
            next_step_id: 1,
        };
        proof {
            assert(s@.processes =~= Seq::<ProcessRowV>::empty());
            assert(s@.steps =~= Seq::<StepRowV>::empty());
        }
        s
    }

    /// The configured uniqueness rules.
    pub fn config(&self) -> (r: StoreConfig)
        ensures
            r == self@.config,
    {
        self.config
    }

    /// The id the next freshly inserted process row would get.
    pub fn next_process_id(&self) -> (r: usize)
        ensures
            r == self@.next_process_id,
    {
        self.next_process_id
    }

    /// The id the next freshly inserted step row would get.
    pub fn next_step_id(&self) -> (r: usize)
        ensures
            r == self@.next_step_id,
    {
        self.next_step_id
    }

    /// All steps whose foreign key equals `process_id`, in table order. An
    /// unknown or deleted process id yields the empty list, as do orphaned
    /// steps (their foreign key is `None`, never equal).
    pub fn get_steps_of_process(&self, process_id: usize) -> (r: Vec<Step>)
        ensures
            step_seq_view(r@) == step_entities(steps_of(self@.steps, process_id)),
    {
        collect_steps(&self.steps, process_id)
    }

    /// Every step row in the database, in table order; orphaned steps are
    /// included, with their foreign key `None`.
    pub fn get_all_steps(&self) -> (r: Vec<Step>)
        ensures
            step_seq_view(r@) == step_entities(self@.steps),
    {
        let ghost views = self@.steps;
        let n = self.steps.len();
        let mut out: Vec<Step> = Vec::new();
        let mut i: usize = 0;
        proof {
            assert(views.take(0) =~= Seq::<StepRowV>::empty());
        }
        while i < n
            invariant
                i <= n,
                n == self.steps@.len(),
                views == self@.steps,
                step_seq_view(out@) =~= step_entities(views.take(i as int)),
            decreases n - i,
        {
            let row = &self.steps[i];
            let ghost pre_out = out@;
            out.push(
                Step {
                    id: Some(row.id),
                    name: row.name.clone(),
                    step_num: row.step_num,
                    description: row.description.clone(),
                    process_id: row.process_id,
                    is_done: row.is_done,
                },
            );
            proof {
                assert(views[i as int] == self.steps@[i as int]@);
                assert(out@ == pre_out.push(out@.last()));
                assert(out@.last()@ == step_entity(views[i as int]));
                assert(step_seq_view(pre_out).len() == pre_out.len());
                assert(step_entities(views.take(i as int)).len() == i as int);
                assert(pre_out.len() == i as int);
                assert forall|k: int| 0 <= k < out@.len() implies step_seq_view(out@)[k]
                    == step_entities(views.take(i as int + 1))[k] by {
                    assert(step_seq_view(out@)[k] == out@[k]@);
                    assert(step_entities(views.take(i as int + 1))[k] == step_entity(
                        views.take(i as int + 1)[k],
                    ));
                    if k < pre_out.len() {
                        assert(out@[k] == pre_out[k]);
                        assert(step_seq_view(pre_out)[k] == pre_out[k]@);
                        assert(step_entities(views.take(i as int))[k] == step_entity(
                            views.take(i as int)[k],
                        ));
                        assert(views.take(i as int)[k] == views[k]);
                        assert(views.take(i as int + 1)[k] == views[k]);
                    } else {
                        assert(k == pre_out.len());
                        assert(views.take(i as int + 1)[k] == views[i as int]);
                    }
                }
                assert(step_seq_view(out@) =~= step_entities(views.take(i as int + 1)));
            }
            i += 1;
        }
        proof {
            assert(views.take(n as int) =~= views);
        }
        out
    }

    /// The process with id `id`, its steps eagerly joined in (in table
    /// order); `NotFound` when no row matches.
    pub fn get_process(&self, id: usize) -> (r: Result<Process, StoreError>)
        requires
            self.wf(),
        ensures
            match r {
                Ok(p) => has_proc(self@.processes, id) && p@ == proc_entity(
                    proc_at(self@.processes, id),
                    steps_of(self@.steps, id),
                ),
                Err(e) => e == StoreError::NotFound && !has_proc(self@.processes, id),
            },
    {
        let i = match proc_index(&self.processes, id) {
            None => {
                return Err(StoreError::NotFound);
            },
            Some(i) => i,
        };
        proof {
            let s = self@.processes;
            let k = proc_idx(s, id);
            assert(s[i as int].id == id);
            assert(0 <= k < s.len() && s[k].id == id);
            if k < i as int {
                assert(s[k].id != s[i as int].id);
            } else if k > i as int {
                assert(s[i as int].id != s[k].id);
            }
            assert(proc_at(s, id) == s[i as int]);
        }
        let row = &self.processes[i];
        let steps = collect_steps(&self.steps, row.id);
        let p = Process {
            id: Some(row.id),
            name: row.name.clone(),
            num_steps: row.num_steps,
            steps,
            is_done: row.is_done,
        };
        proof {
            assert(self@.processes[i as int] == self.processes@[i as int]@);
            assert(p@ =~= proc_entity(proc_at(self@.processes, id), steps_of(self@.steps, id)));
        }
        Ok(p)
    }

    /// Every process, each with its steps joined in: the left-join bulk
    /// read, where a process with no steps still appears, with an empty
    /// step list.
    pub fn get_all_processes(&self) -> (r: Vec<Process>)
        ensures
            process_seq_view(r@) == proc_entities(self@.processes, self@.steps),
    {
        let ghost procs = self@.processes;
        let ghost srows = self@.steps;
        let n = self.processes.len();
        let mut out: Vec<Process> = Vec::new();
        let mut i: usize = 0;
        proof {
            assert(procs.take(0) =~= Seq::<ProcessRowV>::empty());
        }
        while i < n
            invariant
                i <= n,
                n == self.processes@.len(),
                procs == self@.processes,
                srows == self@.steps,
                process_seq_view(out@) =~= proc_entities(procs.take(i as int), srows),
            decreases n - i,
        {
            let row = &self.processes[i];
            let steps = collect_steps(&self.steps, row.id);
            let ghost pre_out = out@;
            out.push(
                Process {
                    id: Some(row.id),
                    name: row.name.clone(),
                    num_steps: row.num_steps,
                    steps,
                    is_done: row.is_done,
                },
            );
            proof {
                assert(procs[i as int] == self.processes@[i as int]@);
                assert(out@ == pre_out.push(out@.last()));
                assert(out@.last()@ =~= proc_entity(
                    procs[i as int],
                    steps_of(srows, procs[i as int].id),
                ));
                assert(process_seq_view(pre_out).len() == pre_out.len());
                assert(proc_entities(procs.take(i as int), srows).len() == i as int);
                assert(pre_out.len() == i as int);
                assert forall|k: int| 0 <= k < out@.len() implies process_seq_view(out@)[k]
                    == proc_entities(procs.take(i as int + 1), srows)[k] by {
                    assert(process_seq_view(out@)[k] == out@[k]@);
                    assert(proc_entities(procs.take(i as int + 1), srows)[k] == proc_entity(
                        procs.take(i as int + 1)[k],
                        steps_of(srows, procs.take(i as int + 1)[k].id),
                    ));
                    if k < pre_out.len() {
                        assert(out@[k] == pre_out[k]);
                        assert(process_seq_view(pre_out)[k] == pre_out[k]@);
                        assert(proc_entities(procs.take(i as int), srows)[k] == proc_entity(
                            procs.take(i as int)[k],
                            steps_of(srows, procs.take(i as int)[k].id),
                        ));
                        assert(procs.take(i as int)[k] == procs[k]);
                        assert(procs.take(i as int + 1)[k] == procs[k]);
                    } else {
                        assert(k == pre_out.len());
                        assert(procs.take(i as int + 1)[k] == procs[i as int]);
                    }
                }
                assert(process_seq_view(out@).len() == proc_entities(
                    procs.take(i as int + 1),
                    srows,
                ).len());
                assert(process_seq_view(out@) =~= proc_entities(procs.take(i as int + 1), srows));
            }
            i += 1;
        }
        proof {
            assert(procs.take(n as int) =~= procs);
        }
        out
    }

    /// The inner join of the two tables: one row per (process, step) pair,
    /// processes in table order, each process's steps in table order. A
    /// process with no steps contributes no row and is invisible here; use
    /// [`Store::get_all_processes`] to see it.
    pub fn get_all_joined(&self) -> (r: Vec<ParsedInfo>)
        ensures
            parsed_seq_view(r@) == joined_rows(self@.processes, self@.steps),
    {
        let ghost procs = self@.processes;
        let ghost srows = self@.steps;
        let np = self.processes.len();
        let mut out: Vec<ParsedInfo> = Vec::new();
        let mut i: usize = 0;
        proof {
            assert(procs.take(0) =~= Seq::<ProcessRowV>::empty());
        }
        while i < np
            invariant
                i <= np,
                np == self.processes@.len(),
                procs == self@.processes,
                srows == self@.steps,
                parsed_seq_view(out@) =~= joined_rows(procs.take(i as int), srows),
            decreases np - i,
        {
            let p = &self.processes[i];
            let pid = p.id;
            proof {
                assert(procs[i as int] == self.processes@[i as int]@);
                assert(srows.take(0) =~= Seq::<StepRowV>::empty());
                assert(pair_rows(procs[i as int], srows.take(0)) =~= Seq::<ParsedInfoV>::empty());
            }
            let ns = self.steps.len();
            let mut j: usize = 0;
            while j < ns
                invariant
                    j <= ns,
                    ns == self.steps@.len(),
                    i < np,
                    np == self.processes@.len(),
                    procs == self@.processes,
                    srows == self@.steps,
                    pid == procs[i as int].id,
                    p == &self.processes[i as int],
                    parsed_seq_view(out@) =~= joined_rows(procs.take(i as int), srows) + pair_rows(
                        procs[i as int],
                        srows.take(j as int),
                    ),
                decreases ns - j,
            {
                let in_proc = match self.steps[j].process_id {
                    Some(q) => q == pid,
                    None => false,
                };
                proof {
                    lemma_pair_rows_take_step(procs[i as int], srows, j as int);
                    assert(srows[j as int] == self.steps@[j as int]@);
                }
                if in_proc {
                    let srow = &self.steps[j];
                    let ghost pre_out = out@;
                    out.push(
                        ParsedInfo {
                            process_id: p.id,
                            process_name: p.name.clone(),
                            process_num_steps: p.num_steps,
                            process_done: p.is_done,
                            step_id: srow.id,
                            step_name: srow.name.clone(),
                            step_num: srow.step_num,
                            step_description: srow.description.clone(),
                            step_done: srow.is_done,
                        },
                    );
                    proof {
                        let a = joined_rows(procs.take(i as int), srows);
                        let b = pair_rows(procs[i as int], srows.take(j as int));
                        let b2 = pair_rows(procs[i as int], srows.take(j as int + 1));
                        assert(srows[j as int].process_id == Some(procs[i as int].id));
                        assert(b2 == b.push(parsed_of(procs[i as int], srows[j as int])));
                        assert(out@ == pre_out.push(out@.last()));
                        assert(out@.last()@ == parsed_of(procs[i as int], srows[j as int]));
                        assert(parsed_seq_view(pre_out).len() == pre_out.len());
                        assert(pre_out.len() == a.len() + b.len());
                        assert forall|k: int| 0 <= k < out@.len() implies parsed_seq_view(out@)[k]
                            == (a + b2)[k] by {
                            assert(parsed_seq_view(out@)[k] == out@[k]@);
                            if k < pre_out.len() {
                                assert(out@[k] == pre_out[k]);
                                assert(parsed_seq_view(pre_out)[k] == pre_out[k]@);
                                assert(pre_out[k]@ == (a + b)[k]);
                                if k < a.len() {
                                    assert((a + b)[k] == a[k]);
                                    assert((a + b2)[k] == a[k]);
                                } else {
                                    assert((a + b)[k] == b[k - a.len()]);
                                    assert(b2[k - a.len()] == b[k - a.len()]);
                                    assert((a + b2)[k] == b2[k - a.len()]);
                                }
                            } else {
                                assert(k == pre_out.len());
                                assert((a + b2)[k] == b2[k - a.len()]);
                                assert(b2[k - a.len()] == parsed_of(
                                    procs[i as int],
                                    srows[j as int],
                                ));
                            }
                        }
                        assert(parsed_seq_view(out@).len() == (a + b2).len());
                        assert(parsed_seq_view(out@) =~= a + b2);
                    }
                } else {
                    proof {
                        assert(srows[j as int].process_id != Some(procs[i as int].id));
                        assert(parsed_seq_view(out@) =~= joined_rows(procs.take(i as int), srows)
                            + pair_rows(procs[i as int], srows.take(j as int + 1)));
                    }
                }
                j += 1;
            }
            proof {
                assert(srows.take(ns as int) =~= srows);
                lemma_joined_take_step(procs, srows, i as int);
                assert(parsed_seq_view(out@) =~= joined_rows(procs.take(i as int + 1), srows));
            }
            i += 1;
        }
        proof {
            assert(procs.take(np as int) =~= procs);
        }
        out
    }

    /// Flips the completion flag of the process with id `id`; two states
    /// only, and no other operation ever touches the flag.
    pub fn toggle_process_done(&mut self, id: usize) -> (r: Result<(), StoreError>)
        requires
            old(self).wf(),
        ensures
            final(self).wf(),
            final(self)@.config == old(self)@.config,
            final(self)@.steps == old(self)@.steps,
            final(self)@.next_process_id == old(self)@.next_process_id,
            final(self)@.next_step_id == old(self)@.next_step_id,
            match r {
                Ok(()) => has_proc(old(self)@.processes, id) && final(self)@.processes
                    == with_proc_toggled(old(self)@.processes, id),
                Err(e) => e == StoreError::NotFound && !has_proc(old(self)@.processes, id)
                    && final(self)@ == old(self)@,
            },
    {
        match proc_index(&self.processes, id) {
            None => Err(StoreError::NotFound),
            Some(i) => {
                let ghost pre = self@.processes;
                let row = &self.processes[i];
                let new_row = ProcessRow {
                    id: row.id,
                    name: row.name.clone(),
                    num_steps: row.num_steps,
                    is_done: !row.is_done,
                };
                self.processes.set(i, new_row);
                proof {
                    let post = self@.processes;
                    assert forall|j: int| 0 <= j < pre.len() implies post[j] == with_proc_toggled(
                        pre,
                        id,
                    )[j] by {
                        if j != i as int {
                            assert(pre[j].id != id);
                        }
                    }
                    assert(post =~= with_proc_toggled(pre, id));
                    assert forall|x: usize| has_proc(post, x) == has_proc(pre, x) by {
                        if has_proc(pre, x) {
                            let w = choose|w: int| 0 <= w < pre.len() && pre[w].id == x;
                            assert(post[w].id == x);
                        }
                        if has_proc(post, x) {
                            let w = choose|w: int| 0 <= w < post.len() && post[w].id == x;
                            assert(pre[w].id == x);
                        }
                    }
                }
                Ok(())
            },
        }
    }

    /// Flips the completion flag of the step with id `id`.
    pub fn toggle_step_done(&mut self, id: usize) -> (r: Result<(), StoreError>)
        requires
            old(self).wf(),
        ensures
            final(self).wf(),
            final(self)@.config == old(self)@.config,
            final(self)@.processes == old(self)@.processes,
            final(self)@.next_process_id == old(self)@.next_process_id,
            final(self)@.next_step_id == old(self)@.next_step_id,
            match r {
                Ok(()) => has_step(old(self)@.steps, id) && final(self)@.steps == with_step_toggled(
                    old(self)@.steps,
                    id,
                ),
                Err(e) => e == StoreError::NotFound && !has_step(old(self)@.steps, id)
                    && final(self)@ == old(self)@,
            },
    {
        match step_index(&self.steps, id) {
            None => Err(StoreError::NotFound),
            Some(i) => {
                let ghost pre = self@.steps;
                let row = &self.steps[i];
                let new_row = StepRow {
                    id: row.id,
                    name: row.name.clone(),
                    step_num: row.step_num,
                    description: row.description.clone(),
                    process_id: row.process_id,
                    is_done: !row.is_done,
                };
                self.steps.set(i, new_row);
                proof {
                    let post = self@.steps;
                    assert forall|j: int| 0 <= j < pre.len() implies post[j] == with_step_toggled(
                        pre,
                        id,
                    )[j] by {
                        if j != i as int {
                            assert(pre[j].id != id);
                        }
                    }
                    assert(post =~= with_step_toggled(pre, id));
                }
                Ok(())
            },
        }
    }

    /// Renames the process with id `id`. Rejected with `NotFound` when no
    /// such row exists, and with `ConstraintViolation` when process names
    /// are configured unique and another process already carries `name`.
    pub fn update_process_name(&mut self, id: usize, name: String) -> (r: Result<(), StoreError>)
        requires
            old(self).wf(),
            name@.len() > 0,
        ensures
            final(self).wf(),
            final(self)@.config == old(self)@.config,
            final(self)@.steps == old(self)@.steps,
            final(self)@.next_process_id == old(self)@.next_process_id,
            final(self)@.next_step_id == old(self)@.next_step_id,
            match r {
                Ok(()) => has_proc(old(self)@.processes, id) && !(
                old(self)@.config.unique_process_names && proc_name_taken(
                    old(self)@.processes,
                    name@,
                    Some(id),
                )) && final(self)@.processes == with_proc_name(old(self)@.processes, id, name@),
                Err(e) => final(self)@ == old(self)@ && ((e == StoreError::NotFound && !has_proc(
                    old(self)@.processes,
                    id,
                )) || (e == StoreError::ConstraintViolation && has_proc(old(self)@.processes, id)
                    && old(self)@.config.unique_process_names && proc_name_taken(
                    old(self)@.processes,
                    name@,
                    Some(id),
                ))),
            },
    {
        let i = match proc_index(&self.processes, id) {
            None => {
                return Err(StoreError::NotFound);
            },
            Some(i) => i,
        };
        if self.config.unique_process_names && proc_name_conflict(
            &self.processes,
            &name,
            Some(id),
        ) {
            return Err(StoreError::ConstraintViolation);
        }
        let ghost pre = self@.processes;
        let row = &self.processes[i];
        let new_row = ProcessRow {
            id: row.id,
            name,
            num_steps: row.num_steps,
            is_done: row.is_done,
        };
        self.processes.set(i, new_row);
        proof {
            let post = self@.processes;
            assert forall|j: int| 0 <= j < pre.len() implies post[j] == with_proc_name(
                pre,
                id,
                name@,
            )[j] by {
                if j != i as int {
                    assert(pre[j].id != id);
                }
            }
            assert(post =~= with_proc_name(pre, id, name@));
            assert forall|x: usize| has_proc(post, x) == has_proc(pre, x) by {
                if has_proc(pre, x) {
                    let w = choose|w: int| 0 <= w < pre.len() && pre[w].id == x;
                    assert(post[w].id == x);
                }
                if has_proc(post, x) {
                    let w = choose|w: int| 0 <= w < post.len() && post[w].id == x;
                    assert(pre[w].id == x);
                }
            }
        }
        Ok(())
    }

    /// Renames the step with id `id`. Rejected with `NotFound` when no such
    /// row exists, and with `ConstraintViolation` when step names are
    /// configured unique within a process and another step of the same
    /// process already carries `name`.
    pub fn update_step_name(&mut self, id: usize, name: String) -> (r: Result<(), StoreError>)
        requires
            old(self).wf(),
        ensures
            final(self).wf(),
            final(self)@.config == old(self)@.config,
            final(self)@.processes == old(self)@.processes,
            final(self)@.next_process_id == old(self)@.next_process_id,
            final(self)@.next_step_id == old(self)@.next_step_id,
            match r {
                Ok(()) => has_step(old(self)@.steps, id) && !(old(self)@.config.unique_step_names
                    && (step_at(old(self)@.steps, id).process_id matches Some(pid)
                    && step_name_taken(old(self)@.steps, pid, name@, Some(id))))
                    && final(self)@.steps == with_step_name(old(self)@.steps, id, name@),
                Err(e) => final(self)@ == old(self)@ && ((e == StoreError::NotFound && !has_step(
                    old(self)@.steps,
                    id,
                )) || (e == StoreError::ConstraintViolation && has_step(old(self)@.steps, id)
                    && old(self)@.config.unique_step_names && (step_at(
                    old(self)@.steps,
                    id,
                ).process_id matches Some(pid) && step_name_taken(
                    old(self)@.steps,
                    pid,
                    name@,
                    Some(id),
                )))),
            },
    {
        let i = match step_index(&self.steps, id) {
            None => {
                return Err(StoreError::NotFound);
            },
            Some(i) => i,
        };
        proof {
            let s = self@.steps;
            let k = step_idx(s, id);
            assert(s[i as int].id == id);
            assert(0 <= k < s.len() && s[k].id == id);
            if k < i as int {
                assert(s[k].id != s[i as int].id);
            } else if k > i as int {
                assert(s[i as int].id != s[k].id);
            }
            assert(step_at(s, id) == s[i as int]);
        }
        if self.config.unique_step_names {
            let owner = self.steps[i].process_id;
            if let Some(pid) = owner {
                if step_name_conflict(&self.steps, pid, &name, Some(id)) {
                    return Err(StoreError::ConstraintViolation);
                }
            }
        }
        let ghost pre = self@.steps;
        let row = &self.steps[i];
        let new_row = StepRow {
            id: row.id,
            name,
            step_num: row.step_num,
            description: row.description.clone(),
            process_id: row.process_id,
            is_done: row.is_done,
        };
        self.steps.set(i, new_row);
        proof {
            let post = self@.steps;
            assert forall|j: int| 0 <= j < pre.len() implies post[j] == with_step_name(
                pre,
                id,
                name@,
            )[j] by {
                if j != i as int {
                    assert(pre[j].id != id);
                }
            }
            assert(post =~= with_step_name(pre, id, name@));
        }
        Ok(())
    }

    /// Rewrites the free-text description of the step with id `id`;
    /// `NotFound` when no such row exists.
    pub fn update_step_description(&mut self, id: usize, description: String) -> (r: Result<
        (),
        StoreError,
    >)
        requires
            old(self).wf(),
        ensures
            final(self).wf(),
            final(self)@.config == old(self)@.config,
            final(self)@.processes == old(self)@.processes,
            final(self)@.next_process_id == old(self)@.next_process_id,
            final(self)@.next_step_id == old(self)@.next_step_id,
            match r {
                Ok(()) => has_step(old(self)@.steps, id) && final(self)@.steps
                    == with_step_description(old(self)@.steps, id, description@),
                Err(e) => e == StoreError::NotFound && !has_step(old(self)@.steps, id)
                    && final(self)@ == old(self)@,
            },
    {
        let i = match step_index(&self.steps, id) {
            None => {
                return Err(StoreError::NotFound);
            },
            Some(i) => i,
        };
        let ghost pre = self@.steps;
        let row = &self.steps[i];
        let new_row = StepRow {
            id: row.id,
            name: row.name.clone(),
            step_num: row.step_num,
            description,
            process_id: row.process_id,
            is_done: row.is_done,
        };
        self.steps.set(i, new_row);
        proof {
            let post = self@.steps;
            assert forall|j: int| 0 <= j < pre.len() implies post[j] == with_step_description(
                pre,
                id,
                description@,
            )[j] by {
                if j != i as int {
                    assert(pre[j].id != id);
                }
            }
            assert(post =~= with_step_description(pre, id, description@));
        }
        Ok(())
    }

    /// Removes the process row with id `id`. Its steps are not deleted:
    /// each one survives with its foreign key cleared (an orphaned step).
    /// `NotFound` when no such row exists.
    pub fn delete_process(&mut self, id: usize) -> (r: Result<(), StoreError>)
        requires
            old(self).wf(),
        ensures
            final(self).wf(),
            final(self)@.config == old(self)@.config,
            final(self)@.next_process_id == old(self)@.next_process_id,
            final(self)@.next_step_id == old(self)@.next_step_id,
            match r {
                Ok(()) => has_proc(old(self)@.processes, id) && final(self)@.processes
                    == old(self)@.processes.remove(proc_idx(old(self)@.processes, id))
                    && final(self)@.steps == orphaned(old(self)@.steps, id),
                Err(e) => e == StoreError::NotFound && !has_proc(old(self)@.processes, id)
                    && final(self)@ == old(self)@,
            },
    {
        let i = match proc_index(&self.processes, id) {
            None => {
                return Err(StoreError::NotFound);
            },
            Some(i) => i,
        };
        let ghost pre = self@.processes;
        let ghost pre_steps = self@.steps;
        proof {
            let k = proc_idx(pre, id);
            assert(pre[i as int].id == id);
            assert(0 <= k < pre.len() && pre[k].id == id);
            if k < i as int {
                assert(pre[k].id != pre[i as int].id);
            } else if k > i as int {
                assert(pre[i as int].id != pre[k].id);
            }
        }
        self.processes.remove(i);
        proof {
            let post = self@.processes;
            assert(post =~= pre.remove(i as int));
            assert forall|a: int, b: int| 0 <= a < b < post.len() implies post[a].id != post[b].id
                by {
                let a0: int = if a < i as int {
                    a
                } else {
                    a + 1
                };
                let b0: int = if b < i as int {
                    b
                } else {
                    b + 1
                };
                assert(post[a] == pre[a0]);
                assert(post[b] == pre[b0]);
            }
            assert forall|q: usize| q != id && has_proc(pre, q) implies has_proc(post, q) by {
                let w = choose|w: int| 0 <= w < pre.len() && pre[w].id == q;
                assert(w != i as int);
                if w < i as int {
                    assert(post[w].id == q);
                } else {
                    assert(post[w - 1] == pre[w]);
                }
            }
            if self@.config.unique_process_names {
                assert forall|a: int, b: int| 0 <= a < b < post.len() implies post[a].name
                    != post[b].name by {
                    let a0: int = if a < i as int {
                        a
                    } else {
                        a + 1
                    };
                    let b0: int = if b < i as int {
                        b
                    } else {
                        b + 1
                    };
                    assert(post[a] == pre[a0]);
                    assert(post[b] == pre[b0]);
                }
            }
        }
        let n = self.steps.len();
        let mut k: usize = 0;
        while k < n
            invariant
                k <= n,
                n == self.steps@.len(),
                n == pre_steps.len(),
                self@.config == old(self)@.config,
                self@.processes == pre.remove(proc_idx(pre, id)),
                self@.next_process_id == old(self)@.next_process_id,
                self@.next_step_id == old(self)@.next_step_id,
                forall|j: int| 0 <= j < k ==> self@.steps[j] == orphaned(pre_steps, id)[j],
                forall|j: int| k <= j < n ==> self@.steps[j] == pre_steps[j],
            decreases n - k,
        {
            let needs_clear = match self.steps[k].process_id {
                Some(q) => q == id,
                None => false,
            };
            if needs_clear {
                let row = &self.steps[k];
                let new_row = StepRow {
                    id: row.id,
                    name: row.name.clone(),
                    step_num: row.step_num,
                    description: row.description.clone(),
                    process_id: None,
                    is_done: row.is_done,
                };
                self.steps.set(k, new_row);
            }
            k += 1;
        }
        proof {
            assert(self@.steps =~= orphaned(pre_steps, id));
            let post = self@.processes;
            let posts = self@.steps;
            assert forall|j: int|
                0 <= j < posts.len() implies match (#[trigger] posts[j]).process_id {
                    Some(pid) => has_proc(post, pid),
                    None => true,
                } by {
                assert(posts[j] == orphaned(pre_steps, id)[j]);
                match posts[j].process_id {
                    Some(q) => {
                        assert(pre_steps[j].process_id == Some(q) && q != id);
                    },
                    None => {},
                }
            }
        }
        Ok(())
    }

    /// Removes the step row with id `id`; `NotFound` when no such row
    /// exists. The owning process, if any, is untouched.
    pub fn delete_step(&mut self, id: usize) -> (r: Result<(), StoreError>)
        requires
            old(self).wf(),
        ensures
            final(self).wf(),
            final(self)@.config == old(self)@.config,
            final(self)@.processes == old(self)@.processes,
            final(self)@.next_process_id == old(self)@.next_process_id,
            final(self)@.next_step_id == old(self)@.next_step_id,
            match r {
                Ok(()) => has_step(old(self)@.steps, id) && final(self)@.steps
                    == old(self)@.steps.remove(step_idx(old(self)@.steps, id)),
                Err(e) => e == StoreError::NotFound && !has_step(old(self)@.steps, id)
                    && final(self)@ == old(self)@,
            },
    {
        let i = match step_index(&self.steps, id) {
            None => {
                return Err(StoreError::NotFound);
            },
            Some(i) => i,
        };
        let ghost pre = self@.steps;
        proof {
            let k = step_idx(pre, id);
            assert(pre[i as int].id == id);
            assert(0 <= k < pre.len() && pre[k].id == id);
            if k < i as int {
                assert(pre[k].id != pre[i as int].id);
            } else if k > i as int {
                assert(pre[i as int].id != pre[k].id);
            }
        }
        self.steps.remove(i);
        proof {
            let post = self@.steps;
            assert(post =~= pre.remove(i as int));
            assert forall|a: int, b: int| 0 <= a < b < post.len() implies post[a].id != post[b].id
                by {
                let a0: int = if a < i as int {
                    a
                } else {
                    a + 1
                };
                let b0: int = if b < i as int {
                    b
                } else {
                    b + 1
                };
                assert(post[a] == pre[a0]);
                assert(post[b] == pre[b0]);
            }
            assert forall|j: int|
                0 <= j < post.len() implies match (#[trigger] post[j]).process_id {
                    Some(pid) => has_proc(self@.processes, pid),
                    None => true,
                } by {
                let j0: int = if j < i as int {
                    j
                } else {
                    j + 1
                };
                assert(post[j] == pre[j0]);
            }
            if self@.config.unique_step_names {
                assert forall|a: int, b: int|
                    0 <= a < b < post.len() && post[a].process_id == post[b].process_id
                        && post[a].process_id is Some implies post[a].name != post[b].name by {
                    let a0: int = if a < i as int {
                        a
                    } else {
                        a + 1
                    };
                    let b0: int = if b < i as int {
                        b
                    } else {
                        b + 1
                    };
                    assert(post[a] == pre[a0]);
                    assert(post[b] == pre[b0]);
                }
            }
        }
        Ok(())
    }

    /// Inserts or replaces a step row, stamping it with `process_id` and
    /// storing it pending. Rejected with `ConstraintViolation` when no
    /// process row carries `process_id` or when the configured step-name
    /// uniqueness (scoped to one process) would be violated; nothing changes
    /// then. The returned id is the one the row is stored under.
    pub fn save_step(&mut self, step: &Step, process_id: usize) -> (r: Result<usize, StoreError>)
        requires
            old(self).wf(),
            match step.id {
                None => old(self)@.next_step_id < usize::MAX,
                Some(sid) => sid < usize::MAX,
            },
        ensures
            final(self).wf(),
            final(self)@ == spec_save_step(old(self)@, step@, process_id).0,
            r == spec_save_step(old(self)@, step@, process_id).1,
    {
        match proc_index(&self.processes, process_id) {
            None => {
                return Err(StoreError::ConstraintViolation);
            },
            Some(ix) => {
                proof {
                    assert(self@.processes[ix as int].id == process_id);
                    assert(has_proc(self@.processes, process_id));
                }
            },
        }
        let sid = match step.id {
            None => self.next_step_id,
            Some(i) => i,
        };
        if self.config.unique_step_names && step_name_conflict(
            &self.steps,
            process_id,
            &step.name,
            Some(sid),
        ) {
            return Err(StoreError::ConstraintViolation);
        }
        let row = StepRow {
            id: sid,
            name: step.name.clone(),
            step_num: step.step_num,
            description: step.description.clone(),
            process_id: Some(process_id),
            is_done: false,
        };
        let ghost pre = self@.steps;
        let ghost rowv = row@;
        match step_index(&self.steps, sid) {
            Some(i) => {
                self.steps.set(i, row);
                proof {
                    let post = self@.steps;
                    assert forall|j: int| 0 <= j < pre.len() implies post[j] == with_step_replaced(
                        pre,
                        sid,
                        rowv,
                    )[j] by {
                        if j != i as int {
                            assert(pre[j].id != sid);
                        }
                    }
                    assert(post =~= with_step_replaced(pre, sid, rowv));
                }
            },
            None => {
                self.steps.push(row);
                proof {
                    assert(self@.steps =~= pre.push(rowv));
                }
            },
        }
        if sid >= self.next_step_id {
            self.next_step_id = sid + 1;
        }
        proof {
            let vpre = old(self)@;
            let spec_r = spec_save_step(vpre, step@, process_id);
            assert(self@ =~= spec_r.0);
            let post = self@.steps;
            assert forall|a: int, b: int| 0 <= a < b < post.len() implies post[a].id != post[b].id
                by {
                if has_step(pre, sid) {
                    assert(post[a].id == pre[a].id);
                    assert(post[b].id == pre[b].id);
                } else {
                    if b == pre.len() {
                        assert(post[a] == pre[a]);
                        assert(pre[a].id != sid);
                        assert(post[b].id == sid);
                    } else {
                        assert(post[a] == pre[a]);
                        assert(post[b] == pre[b]);
                    }
                }
            }
            assert forall|j: int| 0 <= j < post.len() implies (#[trigger] post[j]).id
                < self@.next_step_id by {
                if !(has_step(pre, sid)) && j == pre.len() {
                    assert(post[j] == rowv);
                } else {
                    if has_step(pre, sid) && pre[j].id == sid {
                    } else {
                        assert(post[j] == pre[j]);
                    }
                }
            }
            assert forall|j: int|
                0 <= j < post.len() implies match (#[trigger] post[j]).process_id {
                    Some(q) => has_proc(self@.processes, q),
                    None => true,
                } by {
                if !(has_step(pre, sid)) && j == pre.len() {
                    assert(post[j] == rowv);
                } else {
                    if has_step(pre, sid) && pre[j].id == sid {
                        assert(post[j] == rowv);
                    } else {
                        assert(post[j] == pre[j]);
                    }
                }
            }
            if self@.config.unique_step_names {
                assert forall|a: int, b: int|
                    0 <= a < b < post.len() && post[a].process_id == post[b].process_id
                        && post[a].process_id is Some implies post[a].name != post[b].name by {
                    let fresh = !has_step(pre, sid);
                    if fresh && b == pre.len() {
                        assert(post[a] == pre[a]);
                        assert(post[b] == rowv);
                        assert(pre[a].id != sid);
                    } else if !fresh && pre[a].id == sid {
                        assert(post[a] == rowv);
                        assert(post[b] == pre[b]);
                        assert(pre[b].id != sid);
                    } else if !fresh && pre[b].id == sid {
                        assert(post[b] == rowv);
                        assert(post[a] == pre[a]);
                        assert(pre[a].id != sid);
                    } else {
                        assert(post[a] == pre[a]);
                        assert(post[b] == pre[b]);
                    }
                }
            }
            assert(wf_store(self@));
        }
        Ok(sid)
    }

    /// Saves a whole process aggregate as one transaction: upserts the
    /// process row (keyed by `p.id` when present, else freshly assigned),
    /// then persists every step of `p.steps` in list order, each bound to
    /// the returned process id. On any rejection nothing changes and the
    /// first error is reported; on success the assigned (or kept) process id
    /// is returned. Both the process row and all step rows are stored
    /// pending.
    pub fn save_process(&mut self, p: &Process) -> (r: Result<usize, StoreError>)
        requires
            old(self).wf(),
            p.name@.len() > 0,
            match p.id {
                None => old(self)@.next_process_id < usize::MAX,
                Some(i) => i < usize::MAX,
            },
            old(self)@.next_step_id + p.steps@.len() <= usize::MAX,
            forall|t: int|
                0 <= t < p@.steps.len() ==> ((#[trigger] p@.steps[t]).id matches Some(sid) ==> sid
                    + p@.steps.len() < usize::MAX),
        ensures
            final(self).wf(),
            final(self)@ == spec_save_process(old(self)@, p@).0,
            r == spec_save_process(old(self)@, p@).1,
    {
        let ghost vzero = old(self)@;
        let pid = match p.id {
            None => self.next_process_id,
            Some(i) => i,
        };
        if self.config.unique_process_names && proc_name_conflict(
            &self.processes,
            &p.name,
            Some(pid),
        ) {
            return Err(StoreError::ConstraintViolation);
        }
        // Kept aside so that a rejected step can roll the whole save back.
        let saved_processes = clone_proc_rows(&self.processes);
        let saved_steps = clone_step_rows(&self.steps);
        let saved_next_process_id = self.next_process_id;
        let saved_next_step_id = self.next_step_id;
        let row = ProcessRow {
            id: pid,
            name: p.name.clone(),
            num_steps: p.num_steps,
            is_done: false,
        };
        let ghost pre_procs = self@.processes;
        let ghost rowv = row@;
        match proc_index(&self.processes, pid) {
            Some(i) => {
                self.processes.set(i, row);
                proof {
                    let post = self@.processes;
                    assert forall|j: int| 0 <= j < pre_procs.len() implies post[j]
                        == with_proc_replaced(pre_procs, pid, rowv)[j] by {
                        if j != i as int {
                            assert(pre_procs[j].id != pid);
                        }
                    }
                    assert(post =~= with_proc_replaced(pre_procs, pid, rowv));
                    assert(post[i as int] == rowv);
                    assert(has_proc(post, pid));
                }
            },
            None => {
                self.processes.push(row);
                proof {
                    assert(self@.processes =~= pre_procs.push(rowv));
                    assert(self@.processes[pre_procs.len() as int] == rowv);
                    assert(has_proc(self@.processes, pid));
                }
            },
        }
        if pid >= self.next_process_id {
            self.next_process_id = pid + 1;
        }
        proof {
            assert(self@ =~= spec_insert_process(vzero, p@).0);
            let post = self@.processes;
            let fresh = !has_proc(pre_procs, pid);
            assert forall|a: int, b: int| 0 <= a < b < post.len() implies post[a].id != post[b].id
                by {
                if fresh {
                    if b == pre_procs.len() {
                        assert(post[a] == pre_procs[a]);
                        assert(pre_procs[a].id != pid);
                        assert(post[b].id == pid);
                    } else {
                        assert(post[a] == pre_procs[a]);
                        assert(post[b] == pre_procs[b]);
                    }
                } else {
                    assert(post[a].id == pre_procs[a].id);
                    assert(post[b].id == pre_procs[b].id);
                }
            }
            assert forall|j: int| 0 <= j < post.len() implies (#[trigger] post[j]).id
                < self@.next_process_id by {
                if fresh && j == pre_procs.len() {
                    assert(post[j] == rowv);
                } else {
                    if !fresh && pre_procs[j].id == pid {
                        assert(post[j] == rowv);
                    } else {
                        assert(post[j] == pre_procs[j]);
                    }
                }
            }
            assert forall|j: int| 0 <= j < post.len() implies (#[trigger] post[j]).name.len() > 0
                by {
                if fresh && j == pre_procs.len() {
                    assert(post[j] == rowv);
                } else {
                    if !fresh && pre_procs[j].id == pid {
                        assert(post[j] == rowv);
                    } else {
                        assert(post[j] == pre_procs[j]);
                    }
                }
            }
            assert forall|q: usize| has_proc(pre_procs, q) implies has_proc(post, q) by {
                let w = choose|w: int| 0 <= w < pre_procs.len() && pre_procs[w].id == q;
                assert(post[w].id == pre_procs[w].id);
            }
            if self@.config.unique_process_names {
                assert forall|a: int, b: int| 0 <= a < b < post.len() implies post[a].name
                    != post[b].name by {
                    if fresh && b == pre_procs.len() {
                        assert(post[a] == pre_procs[a]);
                        assert(pre_procs[a].id != pid);
                        assert(post[b] == rowv);
                    } else if !fresh && pre_procs[a].id == pid {
                        assert(post[a] == rowv);
                        assert(post[b] == pre_procs[b]);
                        assert(pre_procs[b].id != pid);
                    } else if !fresh && pre_procs[b].id == pid {
                        assert(post[b] == rowv);
                        assert(post[a] == pre_procs[a]);
                        assert(pre_procs[a].id != pid);
                    } else {
                        assert(post[a] == pre_procs[a]);
                        assert(post[b] == pre_procs[b]);
                    }
                }
            }
            assert(wf_store(self@));
        }
        let ghost mid = self@;
        let n = p.steps.len();
        let mut k: usize = 0;
        proof {
            assert(p@.steps.skip(0) =~= p@.steps);
        }
        while k < n
            invariant
                k <= n,
                n == p.steps@.len(),
                n == p@.steps.len(),
                wf_store(self@),
                vzero == old(self)@,
                wf_store(vzero),
                self@.config == vzero.config,
                has_proc(self@.processes, pid),
                pid == (match p.id {
                    None => vzero.next_process_id,
                    Some(i) => i,
                }),
                !(vzero.config.unique_process_names && proc_name_taken(
                    vzero.processes,
                    p@.name,
                    Some(pid),
                )),
                proc_views(saved_processes@) == vzero.processes,
                step_views(saved_steps@) == vzero.steps,
                saved_next_process_id == vzero.next_process_id,
                saved_next_step_id == vzero.next_step_id,
                mid == spec_insert_process(vzero, p@).0,
                spec_fold_steps(mid, p@.steps, pid) == spec_fold_steps(
                    self@,
                    p@.steps.skip(k as int),
                    pid,
                ),
                self@.next_step_id + (n - k) <= usize::MAX,
                forall|t: int|
                    0 <= t < p@.steps.len() ==> ((#[trigger] p@.steps[t]).id matches Some(sid)
                        ==> sid + p@.steps.len() < usize::MAX),
            decreases n - k,
        {
            let ghost before = self@;
            proof {
                crate::seqs::lemma_skip_step(p@.steps, k as int);
                assert(p@.steps[k as int] == p.steps@[k as int]@);
            }
            let outcome = self.save_step(&p.steps[k], pid);
            match outcome {
                Ok(_) => {
                    proof {
                        let stepv = p@.steps[k as int];
                        let head = spec_save_step(before, stepv, pid);
                        assert(self@ == head.0);
                        assert(p@.steps.skip(k as int)[0] == stepv);
                        assert(p@.steps.skip(k as int).drop_first() =~= p@.steps.skip(
                            k as int + 1,
                        ));
                        assert(spec_fold_steps(before, p@.steps.skip(k as int), pid)
                            == spec_fold_steps(self@, p@.steps.skip(k as int + 1), pid));
                        match stepv.id {
                            None => {
                                assert(self@.next_step_id == before.next_step_id + 1);
                            },
                            Some(sid) => {
                                assert(sid + p@.steps.len() < usize::MAX);
                            },
                        }
                        assert(self@.next_step_id + (n - (k + 1)) <= usize::MAX);
                    }
                },
                Err(e) => {
                    self.processes = saved_processes;
                    self.steps = saved_steps;
                    self.next_process_id = saved_next_process_id;
                    self.next_step_id = saved_next_step_id;
                    proof {
                        assert(self@ =~= vzero);
                        let stepv = p@.steps[k as int];
                        let head = spec_save_step(before, stepv, pid);
                        assert(head.1 == Err::<usize, StoreError>(e));
                        assert(p@.steps.skip(k as int)[0] == stepv);
                        assert(spec_fold_steps(before, p@.steps.skip(k as int), pid).1
                            == Err::<(), StoreError>(e));
                        assert(spec_fold_steps(mid, p@.steps, pid).1 == Err::<(), StoreError>(e));
                        assert(spec_save_process(vzero, p@) == (
                            vzero,
                            Err::<usize, StoreError>(e),
                        ));
                    }
                    return Err(e);
                },
            }
            k += 1;
        }
        proof {
            assert(p@.steps.skip(n as int) =~= Seq::<StepV>::empty());
            assert(spec_fold_steps(self@, p@.steps.skip(n as int), pid) == (
                self@,
                Ok::<(), StoreError>(()),
            ));
            assert(spec_fold_steps(mid, p@.steps, pid) == (self@, Ok::<(), StoreError>(())));
            assert(spec_save_process(vzero, p@) == (self@, Ok::<usize, StoreError>(pid)));
        }
        Ok(pid)
    }

    /// A store over rows read back from persisted storage. The rows are
    /// validated against [`loadable`]; inadmissible data is rejected with
    /// `StorageUnavailable` (the schema cannot be re-established over it).
    /// Ids resume right above the largest persisted one.
    pub fn load(config: StoreConfig, processes: Vec<ProcessRow>, steps: Vec<StepRow>) -> (r: Result<
        Store,
        StoreError,
    >)
        ensures
            match r {
                Ok(s) => loadable(config, proc_views(processes@), step_views(steps@)) && s.wf()
                    && s@.config == config && s@.processes == proc_views(processes@) && s@.steps
                    == step_views(steps@) && s@.next_process_id == max_proc_id(
                    proc_views(processes@),
                ) + 1 && s@.next_step_id == max_step_id(step_views(steps@)) + 1,
                Err(e) => e == StoreError::StorageUnavailable && !loadable(
                    config,
                    proc_views(processes@),
                    step_views(steps@),
                ),
            },
    {
        if !check_proc_ids_unique(&processes) {
            return Err(StoreError::StorageUnavailable);
        }
        if !check_step_ids_unique(&steps) {
            return Err(StoreError::StorageUnavailable);
        }
        let maxp = max_of_proc_ids(&processes);
        if maxp == usize::MAX {
            return Err(StoreError::StorageUnavailable);
        }
        let maxs = max_of_step_ids(&steps);
        if maxs == usize::MAX {
            return Err(StoreError::StorageUnavailable);
        }
        if !check_proc_names_nonempty(&processes) {
            return Err(StoreError::StorageUnavailable);
        }
        if !check_fk(&processes, &steps) {
            return Err(StoreError::StorageUnavailable);
        }
        if config.unique_process_names && !check_proc_names_unique(&processes) {
            return Err(StoreError::StorageUnavailable);
        }
        if config.unique_step_names && !check_step_names_unique(&steps) {
            return Err(StoreError::StorageUnavailable);
        }
        let s = Store {
            config,
            processes,
            steps,
            next_process_id: maxp + 1,
            next_step_id: maxs + 1,
        };
        proof {
            lemma_max_proc_id_ge(s@.processes);
            lemma_max_step_id_ge(s@.steps);
            assert(wf_store(s@));
        }
        Ok(s)
    }

    /// Runs one update command against the store: nothing for an empty
    /// command, a process rename, or a step rename and/or redescription in
    /// that order, stopping at the first rejection.
    pub fn apply_update(&mut self, cmd: &UpdateSub) -> (r: Result<(), StoreError>)
        requires
            old(self).wf(),
            match cmd.update {
                Some(UpdateCommands::Process { id: _, name: Some(ref n) }) => n@.len() > 0,
                _ => true,
            },
        ensures
            final(self).wf(),
            final(self)@ == spec_apply_update(old(self)@, *cmd).0,
            r == spec_apply_update(old(self)@, *cmd).1,
    {
        match &cmd.update {
            None => Ok(()),
            Some(UpdateCommands::Process { id, name }) => match name {
                None => Ok(()),
                Some(n) => {
                    let out = self.update_process_name(*id, n.clone());
                    proof {
                        assert(self@ =~= spec_rename_process(old(self)@, *id, n@).0);
                        match out {
                            Ok(u) => {
                                assert(out == Ok::<(), StoreError>(()));
                                assert(spec_rename_process(old(self)@, *id, n@).1 == Ok::<
                                    (),
                                    StoreError,
                                >(()));
                            },
                            Err(e) => {
                                assert(spec_rename_process(old(self)@, *id, n@).1 == Err::<
                                    (),
                                    StoreError,
                                >(e));
                            },
                        }
                    }
                    out
                },
            },
            Some(UpdateCommands::Step { id, name, description }) => {
                let ghost v0 = self@;
                match name {
                    None => {},
                    Some(n) => {
                        let out = self.update_step_name(*id, n.clone());
                        proof {
                            assert(self@ =~= spec_rename_step(v0, *id, n@).0);
                            match out {
                                Ok(u) => {
                                    assert(out == Ok::<(), StoreError>(()));
                                    assert(spec_rename_step(v0, *id, n@).1 == Ok::<
                                        (),
                                        StoreError,
                                    >(()));
                                },
                                Err(e) => {
                                    assert(spec_rename_step(v0, *id, n@).1 == Err::<
                                        (),
                                        StoreError,
                                    >(e));
                                },
                            }
                        }
                        if out.is_err() {
                            return out;
                        }
                    },
                }
                let ghost v1 = self@;
                match description {
                    None => Ok(()),
                    Some(d) => {
                        let out = self.update_step_description(*id, d.clone());
                        proof {
                            assert(self@ =~= spec_redescribe_step(v1, *id, d@).0);
                            match out {
                                Ok(u) => {
                                    assert(out == Ok::<(), StoreError>(()));
                                    assert(spec_redescribe_step(v1, *id, d@).1 == Ok::<
                                        (),
                                        StoreError,
                                    >(()));
                                },
                                Err(e) => {
                                    assert(spec_redescribe_step(v1, *id, d@).1 == Err::<
                                        (),
                                        StoreError,
                                    >(e));
                                },
                            }
                        }
                        out
                    },
                }
            },
        }
    }

    /// Runs one toggle command against the store.
    pub fn apply_toggle(&mut self, cmd: &ToggleSub) -> (r: Result<(), StoreError>)
        requires
            old(self).wf(),
        ensures
            final(self).wf(),
            final(self)@ == spec_apply_toggle(old(self)@, *cmd).0,
            r == spec_apply_toggle(old(self)@, *cmd).1,
    {
        match cmd.done {
            ToggleCommands::Process { id } => {
                let out = self.toggle_process_done(id);
                proof {
                    assert(self@ =~= spec_toggle_process(old(self)@, id).0);
                    match out {
                        Ok(u) => {
                            assert(out == Ok::<(), StoreError>(()));
                            assert(spec_toggle_process(old(self)@, id).1 == Ok::<(), StoreError>(()));
                        },
                        Err(e) => {
                            assert(spec_toggle_process(old(self)@, id).1 == Err::<(), StoreError>(e));
                        },
                    }
                }
                out
            },
            ToggleCommands::Step { id } => {
                let out = self.toggle_step_done(id);
                proof {
                    assert(self@ =~= spec_toggle_step(old(self)@, id).0);
                    match out {
                        Ok(u) => {
                            assert(out == Ok::<(), StoreError>(()));
                            assert(spec_toggle_step(old(self)@, id).1 == Ok::<(), StoreError>(()));
                        },
                        Err(e) => {
                            assert(spec_toggle_step(old(self)@, id).1 == Err::<(), StoreError>(e));
                        },
                    }
                }
                out
            },
        }
    }

    /// Runs one delete command against the store.
    pub fn apply_delete(&mut self, cmd: &DeleteSub) -> (r: Result<(), StoreError>)
        requires
            old(self).wf(),
        ensures
            final(self).wf(),
            final(self)@ == spec_apply_delete(old(self)@, *cmd).0,
            r == spec_apply_delete(old(self)@, *cmd).1,
    {
        match cmd.delete {
            DeleteCommands::Process { id } => {
                let out = self.delete_process(id);
                proof {
                    assert(self@ =~= spec_delete_process(old(self)@, id).0);
                    match out {
                        Ok(u) => {
                            assert(out == Ok::<(), StoreError>(()));
                            assert(spec_delete_process(old(self)@, id).1 == Ok::<(), StoreError>(()));
                        },
                        Err(e) => {
                            assert(spec_delete_process(old(self)@, id).1 == Err::<(), StoreError>(e));
                        },
                    }
                }
                out
            },
            DeleteCommands::Step { id } => {
                let out = self.delete_step(id);
                proof {
                    assert(self@ =~= spec_delete_step(old(self)@, id).0);
                    match out {
                        Ok(u) => {
                            assert(out == Ok::<(), StoreError>(()));
                            assert(spec_delete_step(old(self)@, id).1 == Ok::<(), StoreError>(()));
                        },
                        Err(e) => {
                            assert(spec_delete_step(old(self)@, id).1 == Err::<(), StoreError>(e));
                        },
                    }
                }
                out
            },
        }
    }
}

} // verus!
