//! The update command, as plain data handed in by the boundary layer.

use vstd::prelude::*;

verus! {

/// A request to rewrite single text fields by id; with no inner command it
/// asks for nothing.
#[derive(Debug)]
pub struct UpdateSub {
    pub update: Option<UpdateCommands>,
}

/// Which row and which of its text fields to rewrite; an absent field is
/// left untouched.
#[derive(Debug)]
pub enum UpdateCommands {
    Process { id: usize, name: Option<String> },
    Step { id: usize, name: Option<String>, description: Option<String> },
}

} // verus!
