//! One row of the joined read path: a (process, step) pair.

use vstd::prelude::*;

verus! {

/// The fields of a process row and of one of its step rows, side by side,
/// as the inner-join read returns them.
#[derive(Debug)]
pub struct ParsedInfo {
    pub process_id: usize,
    pub process_name: String,
    pub process_num_steps: usize,
    pub process_done: bool,
    pub step_id: usize,
    pub step_name: String,
    pub step_num: usize,
    pub step_description: String,
    pub step_done: bool,
}

/// The mathematical value of a [`ParsedInfo`].
#[verifier::ext_equal]
pub ghost struct ParsedInfoV {
    pub process_id: usize,
    pub process_name: Seq<char>,
    pub process_num_steps: usize,
    pub process_done: bool,
    pub step_id: usize,
    pub step_name: Seq<char>,
    pub step_num: usize,
    pub step_description: Seq<char>,
    pub step_done: bool,
}

impl View for ParsedInfo {
    type V = ParsedInfoV;

    open spec fn view(&self) -> ParsedInfoV {
        ParsedInfoV {
            process_id: self.process_id,
            process_name: self.process_name@,
            process_num_steps: self.process_num_steps,
            process_done: self.process_done,
            step_id: self.step_id,
            step_name: self.step_name@,
            step_num: self.step_num,
            step_description: self.step_description@,
            step_done: self.step_done,
        }
    }
}

/// The values of a sequence of joined rows.
pub open spec fn parsed_seq_view(s: Seq<ParsedInfo>) -> Seq<ParsedInfoV> {
    s.map_values(|x: ParsedInfo| x@)
}

} // verus!
