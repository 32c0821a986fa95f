use vstd::prelude::*;
use crate::position::Position;

verus! {

/// Something a node detected: immutable once made.
#[derive(Clone, Copy, Debug, PartialEq, Eq, Structural)]
pub struct Event {
    pub id: u32,
    pub tick: u32,
    pub position: Position,
}

impl Event {
    pub fn new(id: u32, tick: u32, position: Position) -> (r: Event)
        ensures
            r == (Event { id, tick, position }),
    {
        Event { id, tick, position }
    }
}

} // verus!
