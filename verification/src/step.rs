//! The step entity: a named, describable unit within a process.

use vstd::prelude::*;

verus! {

/// One step of a process, as the caller builds it and as reads return it.
///
/// `id` is `None` before first persistence and `Some` afterwards.
/// `process_id` is the back-reference to the owning process; it is `None`
/// for a step whose process was deleted (an orphaned step).
#[derive(Debug)]
pub struct Step {
    pub id: Option<usize>,
    pub name: String,
    pub step_num: usize,
    pub description: String,
    pub process_id: Option<usize>,
    pub is_done: bool,
}

/// The mathematical value of a [`Step`].
#[verifier::ext_equal]
pub ghost struct StepV {
    pub id: Option<usize>,
    pub name: Seq<char>,
    pub step_num: usize,
    pub description: Seq<char>,
    pub process_id: Option<usize>,
    pub is_done: bool,
}

impl View for Step {
    type V = StepV;

    open spec fn view(&self) -> StepV {
        StepV {
            id: self.id,
            name: self.name@,
            step_num: self.step_num,
            description: self.description@,
            process_id: self.process_id,
            is_done: self.is_done,
        }
    }
}

/// The values of a sequence of steps.
pub open spec fn step_seq_view(s: Seq<Step>) -> Seq<StepV> {
    s.map_values(|x: Step| x@)
}

impl Step {
    /// A fresh, not-yet-persisted step at position `step_num`, pending.
    pub fn new(step_num: usize, name: String, description: String) -> (r: Step)
        ensures
            r@ == (StepV {
                id: None,
                name: name@,
                step_num,
                description: description@,
                process_id: None,
                is_done: false,
            }),
    {
        Step { id: None, name, step_num, description, process_id: None, is_done: false }
    }

    /// A field-for-field copy.
    pub fn duplicate(&self) -> (r: Step)
        ensures
            r@ == self@,
    {
        Step {
            id: self.id,
            name: self.name.clone(),
            step_num: self.step_num,
            description: self.description.clone(),
            process_id: self.process_id,
            is_done: self.is_done,
        }
    }
}

} // verus!
