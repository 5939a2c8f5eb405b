//! The store's cross-operation guarantees, stated and proved once over the
//! spec-level transitions that every operation's contract is written in.

use vstd::prelude::*;
use crate::error::StoreError;
use crate::process::ProcessV;
use crate::row::{
    has_proc, lemma_pair_rows_none, lemma_steps_of_none, joined_rows, pair_rows, proc_at,
    proc_entities, proc_entity, proc_idx, steps_of, ProcessRowV, StepRowV,
};
use crate::step::StepV;
use crate::store::{
    spec_delete_process, spec_fold_steps, spec_insert_process, spec_save_process, spec_save_step,
    spec_toggle_process, wf_store, StoreV,
};

verus! {

/// Every step-row id sits below the next free one; the piece of
/// [`wf_store`] that the save path leans on.
pub open spec fn step_ids_below(v: StoreV) -> bool {
    forall|i: int| 0 <= i < v.steps.len() ==> (#[trigger] v.steps[i]).id < v.next_step_id
}

/// Filtering a concatenation filters each part.
pub proof fn lemma_steps_of_append(a: Seq<StepRowV>, b: Seq<StepRowV>, pid: usize)
    ensures
        steps_of(a + b, pid) == steps_of(a, pid) + steps_of(b, pid),
    decreases b.len(),
{
    if b.len() == 0 {
        assert(a + b =~= a);
        assert(steps_of(b, pid) =~= Seq::<StepRowV>::empty());
        assert(steps_of(a, pid) + steps_of(b, pid) =~= steps_of(a, pid));
    } else {
        lemma_steps_of_append(a, b.drop_last(), pid);
        assert((a + b).drop_last() =~= a + b.drop_last());
        assert((a + b).last() == b.last());
        if b.last().process_id == Some(pid) {
            assert(steps_of(a, pid) + steps_of(b, pid) =~= (steps_of(a, pid) + steps_of(
                b.drop_last(),
                pid,
            )).push(b.last()));
        }
    }
}

/// A table whose rows all belong to `pid` filters to itself.
pub proof fn lemma_steps_of_all_match(rows: Seq<StepRowV>, pid: usize)
    requires
        forall|i: int| 0 <= i < rows.len() ==> (#[trigger] rows[i]).process_id == Some(pid),
    ensures
        steps_of(rows, pid) == rows,
    decreases rows.len(),
{
    if rows.len() > 0 {
        assert forall|i: int| 0 <= i < rows.drop_last().len() implies (#[trigger] rows.drop_last()[
            i
        ]).process_id == Some(pid) by {
            assert(rows.drop_last()[i] == rows[i]);
        }
        lemma_steps_of_all_match(rows.drop_last(), pid);
        assert(steps_of(rows, pid) =~= rows);
    }
}

/// Every joined row of one process row carries that row's id.
pub proof fn lemma_pair_rows_owner(p: ProcessRowV, srows: Seq<StepRowV>)
    ensures
        forall|k: int|
            0 <= k < pair_rows(p, srows).len() ==> (#[trigger] pair_rows(p, srows)[k]).process_id
                == p.id,
    decreases srows.len(),
{
    if srows.len() > 0 {
        lemma_pair_rows_owner(p, srows.drop_last());
        let rest = pair_rows(p, srows.drop_last());
        assert forall|k: int| 0 <= k < pair_rows(p, srows).len() implies (#[trigger] pair_rows(
            p,
            srows,
        )[k]).process_id == p.id by {
            if srows.last().process_id == Some(p.id) {
                assert(pair_rows(p, srows) == rest.push(
                    crate::row::parsed_of(p, srows.last()),
                ));
                if k < rest.len() {
                    assert(pair_rows(p, srows)[k] == rest[k]);
                }
            } else {
                assert(pair_rows(p, srows) == rest);
            }
        }
    }
}

/// When no step row belongs to `pid`, no joined row carries `pid`.
pub proof fn lemma_joined_excludes(procs: Seq<ProcessRowV>, srows: Seq<StepRowV>, pid: usize)
    requires
        forall|j: int| 0 <= j < srows.len() ==> (#[trigger] srows[j]).process_id != Some(pid),
    ensures
        forall|k: int|
            0 <= k < joined_rows(procs, srows).len() ==> (#[trigger] joined_rows(procs, srows)[
                k
            ]).process_id != pid,
    decreases procs.len(),
{
    if procs.len() > 0 {
        lemma_joined_excludes(procs.drop_last(), srows, pid);
        let p = procs.last();
        let prefix = joined_rows(procs.drop_last(), srows);
        let block = pair_rows(p, srows);
        if p.id == pid {
            lemma_pair_rows_none(p, srows);
        } else {
            lemma_pair_rows_owner(p, srows);
        }
        assert forall|k: int| 0 <= k < joined_rows(procs, srows).len() implies (#[trigger]
        joined_rows(procs, srows)[k]).process_id != pid by {
            assert(joined_rows(procs, srows) == prefix + block);
            if k < prefix.len() {
                assert(joined_rows(procs, srows)[k] == prefix[k]);
            } else {
                assert(joined_rows(procs, srows)[k] == block[k - prefix.len()]);
            }
        }
    }
}

/// An empty filter means no row belongs to `pid`.
pub proof fn lemma_steps_of_empty_no_match(rows: Seq<StepRowV>, pid: usize)
    requires
        steps_of(rows, pid).len() == 0,
    ensures
        forall|i: int| 0 <= i < rows.len() ==> (#[trigger] rows[i]).process_id != Some(pid),
    decreases rows.len(),
{
    if rows.len() > 0 {
        assert(steps_of(rows.drop_last(), pid).len() == 0);
        lemma_steps_of_empty_no_match(rows.drop_last(), pid);
        assert forall|i: int| 0 <= i < rows.len() implies (#[trigger] rows[i]).process_id != Some(
            pid,
        ) by {
            if i < rows.len() - 1 {
                assert(rows.drop_last()[i] == rows[i]);
            }
        }
    }
}

/// Folding steps into the store leaves the processes table, the
/// configuration and the process-id counter alone.
pub proof fn lemma_fold_preserves(v: StoreV, steps: Seq<StepV>, pid: usize)
    ensures
        spec_fold_steps(v, steps, pid).0.processes == v.processes,
        spec_fold_steps(v, steps, pid).0.config == v.config,
        spec_fold_steps(v, steps, pid).0.next_process_id == v.next_process_id,
    decreases steps.len(),
{
    if steps.len() > 0 {
        let head = spec_save_step(v, steps[0], pid);
        match head.1 {
            Err(_) => {},
            Ok(_) => {
                lemma_fold_preserves(head.0, steps.drop_first(), pid);
            },
        }
    }
}

/// A successful fold of fresh steps (no ids yet) appends one row per step,
/// in list order, each stamped with `pid`, stored pending, and carrying the
/// step's name, position and description; earlier rows are untouched.
pub proof fn lemma_fold_appends(v: StoreV, steps: Seq<StepV>, pid: usize)
    requires
        has_proc(v.processes, pid),
        step_ids_below(v),
        v.next_step_id + steps.len() <= usize::MAX,
        forall|k: int| 0 <= k < steps.len() ==> (#[trigger] steps[k]).id is None,
        spec_fold_steps(v, steps, pid).1 is Ok,
    ensures
        ({
            let v2 = spec_fold_steps(v, steps, pid).0;
            &&& v2.steps.len() == v.steps.len() + steps.len()
            &&& forall|k: int| 0 <= k < v.steps.len() ==> #[trigger] v2.steps[k] == v.steps[k]
            &&& forall|k: int|
                0 <= k < steps.len() ==> {
                    let r = #[trigger] v2.steps[v.steps.len() + k];
                    &&& r.name == steps[k].name
                    &&& r.step_num == steps[k].step_num
                    &&& r.description == steps[k].description
                    &&& r.process_id == Some(pid)
                    &&& r.is_done == false
                }
            &&& step_ids_below(v2)
        }),
    decreases steps.len(),
{
    if steps.len() > 0 {
        let head = spec_save_step(v, steps[0], pid);
        assert(steps[0].id is None);
        let sid = v.next_step_id;
        assert(!crate::row::has_step(v.steps, sid)) by {
            if crate::row::has_step(v.steps, sid) {
                let w = choose|w: int| 0 <= w < v.steps.len() && v.steps[w].id == sid;
                assert(v.steps[w].id < v.next_step_id);
            }
        }
        match head.1 {
            Err(_) => {
                assert(spec_fold_steps(v, steps, pid).1 is Err);
            },
            Ok(_) => {
                let v1 = head.0;
                assert(v1.next_step_id == v.next_step_id + 1);
                assert(v1.steps == v.steps.push(
                    StepRowV {
                        id: sid,
                        name: steps[0].name,
                        step_num: steps[0].step_num,
                        description: steps[0].description,
                        process_id: Some(pid),
                        is_done: false,
                    },
                ));
                assert(step_ids_below(v1)) by {
                    assert forall|i: int| 0 <= i < v1.steps.len() implies (#[trigger] v1.steps[
                        i
                    ]).id < v1.next_step_id by {
                        if i < v.steps.len() {
                            assert(v1.steps[i] == v.steps[i]);
                        }
                    }
                }
                assert forall|k: int| 0 <= k < steps.drop_first().len() implies (#[trigger]
                steps.drop_first()[k]).id is None by {
                    assert(steps.drop_first()[k] == steps[k + 1]);
                }
                assert(spec_fold_steps(v, steps, pid) == spec_fold_steps(
                    v1,
                    steps.drop_first(),
                    pid,
                ));
                lemma_fold_appends(v1, steps.drop_first(), pid);
                let v2 = spec_fold_steps(v, steps, pid).0;
                assert forall|k: int| 0 <= k < v.steps.len() implies #[trigger] v2.steps[k]
                    == v.steps[k] by {
                    assert(v2.steps[k] == v1.steps[k]);
                }
                assert forall|k: int| 0 <= k < steps.len() implies {
                    let r = #[trigger] v2.steps[v.steps.len() + k];
                    &&& r.name == steps[k].name
                    &&& r.step_num == steps[k].step_num
                    &&& r.description == steps[k].description
                    &&& r.process_id == Some(pid)
                    &&& r.is_done == false
                } by {
                    if k == 0 {
                        assert(v2.steps[v.steps.len() as int] == v1.steps[v.steps.len() as int]);
                    } else {
                        assert(v2.steps[v1.steps.len() + (k - 1)] == v2.steps[v.steps.len() + k]);
                        assert(steps.drop_first()[k - 1] == steps[k]);
                    }
                }
            },
        }
    }
}

/// Law: saving a fresh process aggregate (no ids assigned yet) under a
/// well-formed store succeeds with the next free process id, and reading
/// that id back yields the same name, the same declared step count, a
/// pending flag, and steps equal to the saved ones in name, description,
/// position and order, with id fields freshly populated.
pub proof fn lemma_save_then_get_round_trip(v: StoreV, p: ProcessV)
    requires
        wf_store(v),
        p.id is None,
        p.name.len() > 0,
        v.next_step_id + p.steps.len() <= usize::MAX,
        forall|k: int| 0 <= k < p.steps.len() ==> (#[trigger] p.steps[k]).id is None,
        spec_save_process(v, p).1 is Ok,
    ensures
        spec_save_process(v, p).1 == Ok::<usize, StoreError>(v.next_process_id),
        ({
            let v2 = spec_save_process(v, p).0;
            let pid = v.next_process_id;
            let got = proc_entity(proc_at(v2.processes, pid), steps_of(v2.steps, pid));
            &&& has_proc(v2.processes, pid)
            &&& got.name == p.name
            &&& got.num_steps == p.num_steps
            &&& got.is_done == false
            &&& got.steps.len() == p.steps.len()
            &&& forall|k: int|
                0 <= k < p.steps.len() ==> {
                    let s = #[trigger] got.steps[k];
                    &&& s.name == p.steps[k].name
                    &&& s.description == p.steps[k].description
                    &&& s.step_num == p.steps[k].step_num
                    &&& s.is_done == false
                    &&& s.process_id == Some(pid)
                    &&& s.id is Some
                }
        }),
{
    let pid = v.next_process_id;
    assert(!has_proc(v.processes, pid)) by {
        if has_proc(v.processes, pid) {
            let w = choose|w: int| 0 <= w < v.processes.len() && v.processes[w].id == pid;
            assert(v.processes[w].id < v.next_process_id);
        }
    }
    let row = ProcessRowV { id: pid, name: p.name, num_steps: p.num_steps, is_done: false };
    let v1 = spec_insert_process(v, p).0;
    assert(v1.processes == v.processes.push(row));
    assert(has_proc(v1.processes, pid)) by {
        assert(v1.processes[v.processes.len() as int] == row);
    }
    let folded = spec_fold_steps(v1, p.steps, pid);
    assert(folded.1 is Ok);
    lemma_fold_preserves(v1, p.steps, pid);
    assert(v1.steps == v.steps);
    assert(v1.next_step_id == v.next_step_id);
    assert(step_ids_below(v1)) by {
        assert forall|i: int| 0 <= i < v1.steps.len() implies (#[trigger] v1.steps[i]).id
            < v1.next_step_id by {
            assert(v.steps[i].id < v.next_step_id);
        }
    }
    lemma_fold_appends(v1, p.steps, pid);
    let v2 = folded.0;
    assert(spec_save_process(v, p).0 == v2);
    // the unique row carrying pid is the pushed one
    assert(proc_at(v2.processes, pid) == row) by {
        let k = proc_idx(v2.processes, pid);
        assert(0 <= k < v2.processes.len() && v2.processes[k].id == pid);
        if k < v.processes.len() {
            assert(v2.processes[k] == v.processes[k]);
            assert(v.processes[k].id < v.next_process_id);
        } else {
            assert(v2.processes[k] == row);
        }
    }
    // the rows of process pid are exactly the appended ones, in order
    let suffix = v2.steps.skip(v.steps.len() as int);
    assert(v2.steps =~= v.steps + suffix);
    lemma_steps_of_append(v.steps, suffix, pid);
    assert forall|i: int| 0 <= i < v.steps.len() implies (#[trigger] v.steps[i]).process_id != Some(
        pid,
    ) by {
        match v.steps[i].process_id {
            Some(q) => {
                assert(has_proc(v.processes, q));
                let w = choose|w: int| 0 <= w < v.processes.len() && v.processes[w].id == q;
                assert(v.processes[w].id < v.next_process_id);
            },
            None => {},
        }
    }
    lemma_steps_of_none(v.steps, pid);
    assert forall|i: int| 0 <= i < suffix.len() implies (#[trigger] suffix[i]).process_id == Some(
        pid,
    ) by {
        assert(suffix[i] == v2.steps[v.steps.len() + i]);
    }
    lemma_steps_of_all_match(suffix, pid);
    assert(steps_of(v2.steps, pid) =~= suffix);
    assert forall|k: int| 0 <= k < p.steps.len() implies {
        let s = #[trigger] proc_entity(proc_at(v2.processes, pid), steps_of(v2.steps, pid)).steps[
            k
        ];
        &&& s.name == p.steps[k].name
        &&& s.description == p.steps[k].description
        &&& s.step_num == p.steps[k].step_num
        &&& s.is_done == false
        &&& s.process_id == Some(pid)
        &&& s.id is Some
    } by {
        assert(suffix[k] == v2.steps[v.steps.len() + k]);
        assert(proc_entity(proc_at(v2.processes, pid), steps_of(v2.steps, pid)).steps[k]
            == crate::row::step_entity(suffix[k]));
    }
}

/// Law: for a process id that exists, flipping its completion flag twice
/// succeeds both times and returns the store, flag included, to exactly its
/// original value.
pub proof fn lemma_toggle_process_twice(v: StoreV, id: usize)
    requires
        wf_store(v),
        has_proc(v.processes, id),
    ensures
        spec_toggle_process(v, id).1 == Ok::<(), StoreError>(()),
        spec_toggle_process(spec_toggle_process(v, id).0, id).1 == Ok::<(), StoreError>(()),
        spec_toggle_process(spec_toggle_process(v, id).0, id).0 == v,
{
    let v1 = spec_toggle_process(v, id).0;
    assert(has_proc(v1.processes, id)) by {
        let w = choose|w: int| 0 <= w < v.processes.len() && v.processes[w].id == id;
        assert(v1.processes[w].id == id);
    }
    let v2 = spec_toggle_process(v1, id).0;
    assert forall|j: int| 0 <= j < v.processes.len() implies #[trigger] v2.processes[j]
        == v.processes[j] by {
        assert(v2.processes[j] =~= v.processes[j]);
    }
    assert(v2.processes =~= v.processes);
    assert(v2 =~= v);
}

/// Law: deleting a process that exists succeeds, removes its row (the id
/// resolves no more), and detaches rather than deletes its steps: the steps
/// table keeps its length, every step of the process survives with only its
/// foreign key cleared, every other step is untouched, and a lookup of the
/// old id finds no steps.
pub proof fn lemma_delete_orphans_steps(v: StoreV, id: usize)
    requires
        wf_store(v),
        has_proc(v.processes, id),
    ensures
        spec_delete_process(v, id).1 == Ok::<(), StoreError>(()),
        ({
            let v2 = spec_delete_process(v, id).0;
            &&& !has_proc(v2.processes, id)
            &&& v2.steps.len() == v.steps.len()
            &&& forall|k: int|
                0 <= k < v.steps.len() ==> #[trigger] v2.steps[k] == (if v.steps[k].process_id
                    == Some(id) {
                    StepRowV { process_id: None, ..v.steps[k] }
                } else {
                    v.steps[k]
                })
            &&& steps_of(v2.steps, id) == Seq::<StepRowV>::empty()
        }),
{
    let v2 = spec_delete_process(v, id).0;
    let kk = proc_idx(v.processes, id);
    assert(0 <= kk < v.processes.len() && v.processes[kk].id == id);
    assert(!has_proc(v2.processes, id)) by {
        assert forall|w: int| 0 <= w < v2.processes.len() implies (#[trigger] v2.processes[w]).id
            != id by {
            let w0: int = if w < kk {
                w
            } else {
                w + 1
            };
            assert(v2.processes[w] == v.processes[w0]);
            if w0 < kk {
                assert(v.processes[w0].id != v.processes[kk].id);
            } else {
                assert(kk < w0);
                assert(v.processes[kk].id != v.processes[w0].id);
            }
        }
    }
    assert forall|i: int| 0 <= i < v2.steps.len() implies (#[trigger] v2.steps[i]).process_id
        != Some(id) by {
        if v.steps[i].process_id == Some(id) {
            assert(v2.steps[i] == StepRowV { process_id: None, ..v.steps[i] });
        } else {
            assert(v2.steps[i] == v.steps[i]);
        }
    }
    lemma_steps_of_none(v2.steps, id);
}

/// Law: persisting a step against a process id that no row carries is
/// rejected with `ConstraintViolation`, and the store is untouched.
pub proof fn lemma_save_step_rejects_dangling(v: StoreV, s: StepV, pid: usize)
    requires
        !has_proc(v.processes, pid),
    ensures
        spec_save_step(v, s, pid) == (v, Err::<usize, StoreError>(StoreError::ConstraintViolation)),
{
}

/// Law: a process that exists but owns no steps contributes no row to the
/// inner-join read, yet still appears in the bulk process read (with an
/// empty step list).
pub proof fn lemma_empty_process_joined_exclusion(v: StoreV, pid: usize)
    requires
        wf_store(v),
        has_proc(v.processes, pid),
        steps_of(v.steps, pid).len() == 0,
    ensures
        forall|k: int|
            0 <= k < joined_rows(v.processes, v.steps).len() ==> (#[trigger] joined_rows(
                v.processes,
                v.steps,
            )[k]).process_id != pid,
        exists|k: int|
            0 <= k < proc_entities(v.processes, v.steps).len() && (#[trigger] proc_entities(
                v.processes,
                v.steps,
            )[k]).id == Some(pid) && proc_entities(v.processes, v.steps)[k].steps.len() == 0,
{
    lemma_steps_of_empty_no_match(v.steps, pid);
    lemma_joined_excludes(v.processes, v.steps, pid);
    let w = choose|w: int| 0 <= w < v.processes.len() && v.processes[w].id == pid;
    assert(proc_entities(v.processes, v.steps)[w] == proc_entity(
        v.processes[w],
        steps_of(v.steps, v.processes[w].id),
    ));
    assert(proc_entities(v.processes, v.steps)[w].id == Some(pid) && proc_entities(
        v.processes,
        v.steps,
    )[w].steps.len() == 0);
}

} // verus!
