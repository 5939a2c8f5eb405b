//! The process entity: a named unit of work with an ordered list of steps.

use vstd::prelude::*;
use crate::seqs::lemma_map_values_push;
use crate::step::{step_seq_view, Step, StepV};

verus! {

/// A process as the caller builds it and as reads return it.
///
/// `id` is `None` before first persistence. `num_steps` is the declared
/// target count of steps; it is not forced to equal `steps.len()` at all
/// times.
#[derive(Debug)]
pub struct Process {
    pub id: Option<usize>,
    pub name: String,
    pub num_steps: usize,
    pub steps: Vec<Step>,
    pub is_done: bool,
}

/// The mathematical value of a [`Process`].
#[verifier::ext_equal]
pub ghost struct ProcessV {
    pub id: Option<usize>,
    pub name: Seq<char>,
    pub num_steps: usize,
    pub steps: Seq<StepV>,
    pub is_done: bool,
}

impl View for Process {
    type V = ProcessV;

    open spec fn view(&self) -> ProcessV {
        ProcessV {
            id: self.id,
            name: self.name@,
            num_steps: self.num_steps,
            steps: step_seq_view(self.steps@),
            is_done: self.is_done,
        }
    }
}

/// The values of a sequence of processes.
pub open spec fn process_seq_view(s: Seq<Process>) -> Seq<ProcessV> {
    s.map_values(|x: Process| x@)
}

/// Whether some step of `s` already sits at position `num`.
pub open spec fn has_num(s: Seq<StepV>, num: usize) -> bool {
    exists|i: int| 0 <= i < s.len() && s[i].step_num == num
}

/// The first index of `s` whose step sits at position `num`.
pub open spec fn first_num_pos(s: Seq<StepV>, num: usize) -> int {
    choose|i: int|
        0 <= i < s.len() && s[i].step_num == num && (forall|j: int|
            0 <= j < i ==> s[j].step_num != num)
}

/// The same steps with their positions reassigned to the contiguous run
/// `1..=len`, in list order.
pub open spec fn resequenced(s: Seq<StepV>) -> Seq<StepV> {
    Seq::new(s.len(), |i: int| StepV { step_num: (i + 1) as usize, ..s[i] })
}

impl Process {
    /// Whether a step with the same position value as `new_step` exists.
    pub fn check_numstep_exist(&self, new_step: &Step) -> (r: bool)
        ensures
            r == has_num(self@.steps, new_step.step_num),
    {
        let n = self.steps.len();
        let mut i: usize = 0;
        while i < n
            invariant
                i <= n,
                n == self.steps@.len(),
                forall|j: int| 0 <= j < i ==> self@.steps[j].step_num != new_step.step_num,
            decreases n - i,
        {
            if self.steps[i].step_num == new_step.step_num {
                assert(self@.steps[i as int].step_num == new_step.step_num);
                return true;
            }
            i += 1;
        }
        false
    }

    /// Whether the declared step count matches the number of steps held.
    pub fn check_numsteps(&self) -> (r: bool)
        ensures
            r == (self.num_steps == self@.steps.len()),
    {
        self.num_steps == self.steps.len()
    }

    /// Appends a step at the end of the list.
    pub fn add_step(&mut self, new_step: Step)
        ensures
            final(self)@ == (ProcessV {
                steps: old(self)@.steps.push(new_step@),
                ..old(self)@
            }),
    {
        let ghost pre = self.steps@;
        let ghost nv = new_step@;
        self.steps.push(new_step);
        proof {
            lemma_map_values_push(pre, |x: Step| x@, self.steps@.last());
            assert(self@.steps =~= old(self)@.steps.push(nv));
        }
    }

    /// Puts `new_step` in the place of the first step that shares its
    /// position value.
    pub fn swap_step(&mut self, new_step: &Step)
        requires
            has_num(old(self)@.steps, new_step.step_num),
        ensures
            final(self)@ == (ProcessV {
                steps: old(self)@.steps.update(
                    first_num_pos(old(self)@.steps, new_step.step_num),
                    new_step@,
                ),
                ..old(self)@
            }),
    {
        let n = self.steps.len();
        let mut i: usize = 0;
        while i < n
            invariant
                i <= n,
                n == self.steps@.len(),
                self@ == old(self)@,
                has_num(self@.steps, new_step.step_num),
                forall|j: int| 0 <= j < i ==> self@.steps[j].step_num != new_step.step_num,
            decreases n - i,
        {
            if self.steps[i].step_num == new_step.step_num {
                proof {
                    assert(self@.steps[i as int].step_num == new_step.step_num);
                    let k = first_num_pos(self@.steps, new_step.step_num);
                    assert(0 <= k < self@.steps.len() && self@.steps[k].step_num
                        == new_step.step_num && (forall|j: int|
                        0 <= j < k ==> self@.steps[j].step_num != new_step.step_num));
                    assert(k == i as int);
                }
                let ghost pre = self@.steps;
                self.steps.set(i, new_step.duplicate());
                proof {
                    assert(self@.steps =~= pre.update(
                        first_num_pos(pre, new_step.step_num),
                        new_step@,
                    ));
                }
                return ;
            }
            i += 1;
        }
        proof {
            // the scan ruled every index out, yet the precondition says one matches
            let w = choose|w: int|
                0 <= w < self@.steps.len() && self@.steps[w].step_num == new_step.step_num;
            assert(false);
        }
    }

    /// Reconciles one step into the list: the first step sharing its
    /// position value is replaced; with no such step it is appended.
    pub fn update_step(&mut self, new_step: Step)
        ensures
            final(self)@ == (ProcessV {
                steps: if has_num(old(self)@.steps, new_step.step_num) {
                    old(self)@.steps.update(
                        first_num_pos(old(self)@.steps, new_step.step_num),
                        new_step@,
                    )
                } else {
                    old(self)@.steps.push(new_step@)
                },
                ..old(self)@
            }),
    {
        if self.check_numstep_exist(&new_step) {
            self.swap_step(&new_step);
        } else {
            self.add_step(new_step);
        }
    }

    /// Rewrites the step list as `new_steps` with positions reassigned to
    /// the contiguous run `1..=len`, and records the new count.
    pub fn resequence(&mut self, new_steps: Vec<Step>)
        ensures
            final(self)@ == (ProcessV {
                steps: resequenced(step_seq_view(new_steps@)),
                num_steps: new_steps@.len() as usize,
                ..old(self)@
            }),
    {
        let ghost orig = step_seq_view(new_steps@);
        let mut rest = new_steps;
        let n = rest.len();
        let mut out: Vec<Step> = Vec::new();
        let mut i: usize = 0;
        while i < n
            invariant
                i <= n,
                n == orig.len(),
                rest@.len() == n - i,
                forall|j: int| 0 <= j < rest@.len() ==> rest@[j]@ == orig[i as int + j],
                step_seq_view(out@) =~= resequenced(orig).take(i as int),
            decreases n - i,
        {
            let s = rest.remove(0);
            let ghost pre_out = out@;
            assert(s@ == orig[i as int]);
            out.push(Step { step_num: i + 1, ..s });
            proof {
                lemma_map_values_push(pre_out, |x: Step| x@, out@.last());
                assert(step_seq_view(out@) =~= resequenced(orig).take(i + 1));
            }
            i += 1;
        }
        self.steps = out;
        self.num_steps = n;
        proof {
            assert(resequenced(orig).take(n as int) =~= resequenced(orig));
        }
    }
}

} // verus!
