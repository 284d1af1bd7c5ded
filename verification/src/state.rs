//! The engine's session state for a text-protocol host: the position the
//! host has set up so far.

use crate::position::Position;
use vstd::prelude::*;

verus! {

/// What the engine remembers between host commands.
pub struct State {
    pub pos: Position,
}

impl State {
    /// A session opened on the starting position.
    pub fn default() -> (r: State)
        ensures
            r.pos == Position::default_spec(),
            r.pos.wf(),
    {
        State { pos: Position::default() }
    }
}

} // verus!
