use vstd::prelude::*;

verus! {

/// The best known way toward the node holding `event_id`: the next hop to
/// take and how many hops the whole path has.
#[derive(Clone, Copy, Debug, PartialEq, Eq, Structural)]
pub struct Route {
    pub event_id: u32,
    pub node_id: u32,
    pub shortest_distance: u32,
}

impl Route {
    pub fn new(event_id: u32, node_id: u32, shortest_distance: u32) -> (r: Route)
        ensures
            r == (Route { event_id, node_id, shortest_distance }),
    {
        Route { event_id, node_id, shortest_distance }
    }
}

} // verus!
