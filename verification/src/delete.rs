//! The delete command, as plain data handed in by the boundary layer.

use vstd::prelude::*;

verus! {

/// A request to remove one row by id.
#[derive(Clone, Copy, Debug)]
pub struct DeleteSub {
    pub delete: DeleteCommands,
}

/// Which table the removal addresses.
#[derive(Clone, Copy, Debug)]
pub enum DeleteCommands {
    Process { id: usize },
    Step { id: usize },
}

} // verus!
