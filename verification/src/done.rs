//! The toggle command, as plain data handed in by the boundary layer.

use vstd::prelude::*;

verus! {

/// A request to flip one completion flag by id.
#[derive(Clone, Copy, Debug)]
pub struct ToggleSub {
    pub done: ToggleCommands,
}

/// Which table the flip addresses.
#[derive(Clone, Copy, Debug)]
pub enum ToggleCommands {
    Process { id: usize },
    Step { id: usize },
}

} // verus!
