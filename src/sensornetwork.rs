use vstd::prelude::*;
use std::collections::HashMap;
use crate::event::Event;
use crate::lists::{fresh_id, key_list, lemma_take_one_more_contains};
use crate::network::Network;
use crate::node::{
    first_request, lemma_routes_improved_transitive, lemma_within_later_clock, routes_improved,
    step_between, Answer, Node, NodeOptions,
};
use crate::messages::{AgentView, MessageView};
use crate::position::{squared_distance, Position};
use crate::rng::{choose_one, random_index, random_u32};

verus! {

broadcast use vstd::std_specs::hash::group_hash_axioms;

/// The parameters of a run. Two nodes are neighbours when the square of their
/// distance is at most `neighbour_range_squared`: for a radius `r >= 0`, that is
/// `Some` of the floor of `r * r`; `None` puts no two nodes in range.
#[derive(Clone, Copy, Debug)]
pub struct SensorNetworkOptions {
    pub event_probability: u32,
    pub agent_probability: u32,
    pub agent_max_hops: u32,
    pub request_ticks: u32,
    pub request_max_hops: u32,
    pub request_retry_multiplier: u32,
    pub neighbour_range_squared: Option<u64>,
}

/// How many nodes issue requests.
pub const REQUEST_SOURCE_COUNT: usize = 4;

impl SensorNetworkOptions {
    /// The probabilities are the inverses of positive numbers, and request
    /// waves have a positive period.
    pub open spec fn valid(self) -> bool {
        &&& self.event_probability > 0
        &&& self.agent_probability > 0
        &&& self.request_ticks > 0
    }

    pub open spec fn node_options(self) -> NodeOptions {
        NodeOptions {
            agent_probability: self.agent_probability,
            agent_max_hops: self.agent_max_hops,
            request_max_hops: self.request_max_hops,
            request_retry_multiplier: self.request_retry_multiplier,
        }
    }
}

/// `p` and `q` are within range of each other; `None` is a range that holds
/// no distance at all.
pub open spec fn in_range(p: Position, q: Position, range_squared: Option<u64>) -> bool {
    match range_squared {
        Some(r) => squared_distance(p, q) <= r,
        None => false,
    }
}

/// Nodes `a` and `b` of `nodes` are within range of each other.
pub open spec fn linked(nodes: Map<u32, Node>, range_squared: Option<u64>, a: u32, b: u32) -> bool {
    &&& nodes.contains_key(a)
    &&& nodes.contains_key(b)
    &&& a != b
    &&& in_range(nodes[a].place(), nodes[b].place(), range_squared)
}

/// The positions that `ids[i]` at `positions[i]` give, a later repeat of an
/// id replacing the earlier one.
pub open spec fn placed(ids: Seq<u32>, positions: Seq<Position>) -> Map<u32, Position>
    decreases ids.len(),
{
    if ids.len() == 0 || positions.len() == 0 {
        Map::empty()
    } else {
        placed(ids.drop_last(), positions.drop_last()).insert(ids.last(), positions.last())
    }
}

/// From `start` to `now` each node kept its place, id, neighbours and
/// options, stayed well formed within the clock `tick`, and only shortened
/// its routes.
pub open spec fn progressed(start: Map<u32, Node>, now: Map<u32, Node>, tick: u32) -> bool {
    &&& now.dom() == start.dom()
    &&& forall|k: u32| #[trigger]
        now.contains_key(k) ==> {
            &&& now[k].same_place(start[k])
            &&& now[k].wf()
            &&& now[k].within_clock(tick)
            &&& routes_improved(start[k].routes(), now[k].routes())
        }
}

/// The answers counted in `outs`, in order.
pub open spec fn collect(outs: Seq<Option<Answer>>) -> Seq<Answer>
    decreases outs.len(),
{
    if outs.len() == 0 {
        Seq::empty()
    } else {
        let rest = collect(outs.drop_last());
        match outs.last() {
            Some(a) => rest.push(a),
            None => rest,
        }
    }
}

/// Every node took one step at `tick`, in the order `order`, the bus going
/// through `buses` from `bus_before` to `bus_after`; node `order[j]` counted
/// `outs[j]`.
pub open spec fn nodes_stepped(
    before: Map<u32, Node>,
    after: Map<u32, Node>,
    bus_before: Network,
    bus_after: Network,
    tick: u32,
    order: Seq<u32>,
    buses: Seq<Network>,
    outs: Seq<Option<Answer>>,
) -> bool {
    &&& order.no_duplicates()
    &&& order.to_set() == before.dom()
    &&& after.dom() == before.dom()
    &&& buses.len() == order.len() + 1
    &&& outs.len() == order.len()
    &&& buses[0] == bus_before
    &&& buses[order.len() as int] == bus_after
    &&& forall|j: int|
        0 <= j < order.len() ==> #[trigger] step_between(
            before[order[j]],
            after[order[j]],
            buses[j],
            buses[j + 1],
            tick,
            outs[j],
        )
}

/// The agent a detection may start at a node.
pub open spec fn new_agent(tick: u32) -> MessageView {
    MessageView::Agent(AgentView { tick, hops: 0, route: Seq::empty(), routes: Map::empty() })
}

/// Node `b` detected `e`, becoming `a`, with the bus going from `nb` to `na`.
pub open spec fn detected(b: Node, a: Node, nb: Network, na: Network, e: Event) -> bool {
    &&& a.same_place(b)
    &&& a.routes() == b.routes().insert(
        e.id,
        crate::route::Route { event_id: e.id, node_id: b.node_id(), shortest_distance: 0 },
    )
    &&& a.events() == b.events().insert(e.id, e)
    &&& a.pending() == b.pending()
    &&& (Network::unchanged(nb, na) || Network::sent(nb, na, b.node_id(), new_agent(e.tick)))
}

/// Node `k` of `before` detected nothing; or it detected a new event with a
/// fresh id, at its own position, which was logged.
pub open spec fn detection_step(
    before: Map<u32, Node>,
    after: Map<u32, Node>,
    bus_before: Network,
    bus_after: Network,
    log_before: Seq<u32>,
    log_after: Seq<u32>,
    k: u32,
    tick: u32,
) -> bool {
    ||| after == before && bus_after == bus_before && log_after == log_before
    ||| exists|id: u32|
        #[trigger] log_before.push(id) == log_after && !log_before.contains(id) && after
            == before.insert(k, after[k]) && detected(
            before[k],
            after[k],
            bus_before,
            bus_after,
            Event { id, tick, position: before[k].place() },
        )
}

/// The nodes, in the order `order`, each had their chance to detect an event
/// at `tick`, going through `states`, `buses` and the event logs `logs`.
pub open spec fn detections(
    before: SensorNetwork,
    after: SensorNetwork,
    tick: u32,
    order: Seq<u32>,
    states: Seq<Map<u32, Node>>,
    buses: Seq<Network>,
    logs: Seq<Seq<u32>>,
) -> bool {
    &&& order.no_duplicates()
    &&& order.to_set() == before.nodes().dom()
    &&& states.len() == order.len() + 1
    &&& buses.len() == order.len() + 1
    &&& logs.len() == order.len() + 1
    &&& states[0] == before.nodes()
    &&& buses[0] == before.bus()
    &&& logs[0] == before.event_ids()
    &&& states[order.len() as int] == after.nodes()
    &&& buses[order.len() as int] == after.bus()
    &&& logs[order.len() as int] == after.event_ids()
    &&& forall|j: int|
        0 <= j < order.len() ==> #[trigger] detection_step(
            states[j],
            states[j + 1],
            buses[j],
            buses[j + 1],
            logs[j],
            logs[j + 1],
            order[j],
            tick,
        )
}

/// Source `s` of `before` sent a first request, with an id it had not
/// pending, for an event of `log`; or its pending table was full and nothing
/// happened.
pub open spec fn request_step(
    before: Map<u32, Node>,
    after: Map<u32, Node>,
    bus_before: Network,
    bus_after: Network,
    s: u32,
    log: Seq<u32>,
    tick: u32,
) -> bool {
    &&& after == before.insert(s, after[s])
    &&& after[s].same_place(before[s])
    &&& after[s].routes() == before[s].routes()
    &&& after[s].events() == before[s].events()
    &&& if before[s].pending().dom().len() >= u32::MAX {
        after[s].pending() == before[s].pending() && Network::unchanged(bus_before, bus_after)
    } else {
        exists|id: u32, e: u32|
            #![trigger first_request(tick, id, e)]
            log.contains(e) && !before[s].pending().contains_key(id) && after[s].pending()
                == before[s].pending().insert(id, first_request(tick, id, e)) && Network::sent(
                bus_before,
                bus_after,
                s,
                MessageView::Request(first_request(tick, id, e)),
            )
    }
}

/// A request wave is due at the tick of `net`.
pub open spec fn wave_due(net: SensorNetwork) -> bool {
    net.tick() % net.options().request_ticks == 0 && net.event_ids().len() > 0
}

/// The request wave from `before` to `after`: when due, each source in turn
/// sent one request, going through `states` and `buses`; otherwise nothing.
pub open spec fn requests_sent(
    before: SensorNetwork,
    after: SensorNetwork,
    states: Seq<Map<u32, Node>>,
    buses: Seq<Network>,
) -> bool {
    if wave_due(before) {
        &&& states.len() == before.sources().len() + 1
        &&& buses.len() == before.sources().len() + 1
        &&& states[0] == before.nodes()
        &&& buses[0] == before.bus()
        &&& states[before.sources().len() as int] == after.nodes()
        &&& buses[before.sources().len() as int] == after.bus()
        &&& forall|i: int|
            0 <= i < before.sources().len() ==> #[trigger] request_step(
                states[i],
                states[i + 1],
                buses[i],
                buses[i + 1],
                before.sources()[i],
                before.event_ids(),
                before.tick(),
            )
    } else {
        after.nodes() == before.nodes() && after.bus() == before.bus()
    }
}

/// One tick from `before` to `after`, with the answers counted: the clock
/// advanced, events were detected (`mid1`), the request wave went out
/// (`mid2`), and every node took its step.
pub open spec fn ticked(
    before: SensorNetwork,
    mid1: SensorNetwork,
    mid2: SensorNetwork,
    after: SensorNetwork,
    answers: Seq<Answer>,
) -> bool {
    &&& mid1.tick() == before.tick() + 1
    &&& mid2.tick() == mid1.tick()
    &&& mid1.sources() == before.sources()
    &&& mid2.sources() == before.sources()
    &&& mid1.options() == before.options()
    &&& mid2.options() == before.options()
    &&& mid2.event_ids() == mid1.event_ids()
    &&& after.event_ids() == mid1.event_ids()
    &&& exists|order: Seq<u32>, states: Seq<Map<u32, Node>>, buses: Seq<Network>, logs: Seq<Seq<u32>>|
        #[trigger] detections(before, mid1, mid1.tick(), order, states, buses, logs)
    &&& exists|states: Seq<Map<u32, Node>>, buses: Seq<Network>|
        #[trigger] requests_sent(mid1, mid2, states, buses)
    &&& exists|order: Seq<u32>, buses: Seq<Network>, outs: Seq<Option<Answer>>|
        #[trigger] nodes_stepped(mid2.nodes(), after.nodes(), mid2.bus(), after.bus(), mid1.tick(), order, buses, outs)
            && answers == collect(outs)
}

pub struct SensorNetwork {
    options: SensorNetworkOptions,
    network: Network,
    nodes: HashMap<u32, Node>,
    request_source_nodes: Vec<u32>,
    node_event_ids: Vec<u32>,
    tick: u32,
}

impl SensorNetwork {
    pub closed spec fn options(self) -> SensorNetworkOptions {
        self.options
    }

    pub closed spec fn bus(self) -> Network {
        self.network
    }

    /// The nodes, by id.
    pub closed spec fn nodes(self) -> Map<u32, Node> {
        self.nodes@
    }

    pub closed spec fn sources(self) -> Seq<u32> {
        self.request_source_nodes@
    }

    /// Every event id detected so far, oldest first.
    pub closed spec fn event_ids(self) -> Seq<u32> {
        self.node_event_ids@
    }

    pub closed spec fn tick(self) -> u32 {
        self.tick
    }

    /// Node `a` has `b` as neighbour exactly when the two are within range.
    pub open spec fn topology_ok(self) -> bool {
        forall|a: u32, b: u32|
            #![trigger self.nodes()[a].neighbours().contains(b)]
            self.nodes().contains_key(a) ==> (self.nodes()[a].neighbours().contains(b) <==> linked(
                self.nodes(),
                self.options().neighbour_range_squared,
                a,
                b,
            ))
    }

    /// Each node is well formed, keyed by its id and shares the options.
    pub open spec fn nodes_ok(self) -> bool {
        forall|k: u32| #[trigger]
            self.nodes().contains_key(k) ==> {
                &&& self.nodes()[k].node_id() == k
                &&& self.nodes()[k].wf()
                &&& self.nodes()[k].within_clock(self.tick())
                &&& self.nodes()[k].options() == self.options().node_options()
            }
    }

    pub open spec fn wf(self) -> bool {
        &&& self.options().valid()
        &&& self.nodes_ok()
        &&& self.topology_ok()
        &&& forall|i: int|
            0 <= i < self.sources().len() ==> self.nodes().contains_key(#[trigger] self.sources()[i])
        &&& self.bus().within_clock()
        &&& self.event_ids().no_duplicates()
        &&& self.nodes().dom().len() < u32::MAX
        &&& forall|k: u32| #[trigger]
            self.nodes().contains_key(k) ==> self.nodes()[k].neighbours().no_duplicates()
    }

    /// Builds the network of nodes `ids[i]` at `positions[i]`, with no request
    /// source yet; a repeated id keeps the later position.
    pub fn with_ids(positions: &Vec<Position>, ids: &Vec<u32>, options: SensorNetworkOptions) -> (r:
        SensorNetwork)
        requires
            ids@.len() == positions@.len(),
            ids@.len() < u32::MAX,
            options.valid(),
        ensures
            r.wf(),
            r.nodes().dom() == ids@.to_set(),
            r.options() == options,
            r.nodes().map_values(|n: Node| n.place()) == placed(ids@, positions@),
            forall|k: u32| #[trigger]
                r.nodes().contains_key(k) ==> {
                    &&& r.nodes()[k].routes().is_empty()
                    &&& r.nodes()[k].events().is_empty()
                    &&& r.nodes()[k].pending().is_empty()
                },
            r.sources() == Seq::<u32>::empty(),
            r.event_ids() == Seq::<u32>::empty(),
            r.tick() == 0,
            forall|n: u32| #[trigger] r.bus().queue(n) == Seq::<crate::messages::MessageView>::empty(),
    {
        let node_options = NodeOptions {
            agent_probability: options.agent_probability,
            agent_max_hops: options.agent_max_hops,
            request_max_hops: options.request_max_hops,
            request_retry_multiplier: options.request_retry_multiplier,
        };
        let mut nodes: HashMap<u32, Node> = HashMap::new();
        let mut i: usize = 0;
        while i < ids.len()
            invariant
                i <= ids@.len(),
                ids@.len() == positions@.len(),
                node_options == options.node_options(),
                nodes@.map_values(|n: Node| n.place()) == placed(
                    ids@.take(i as int),
                    positions@.take(i as int),
                ),
                forall|k: u32| #[trigger]
                    nodes@.contains_key(k) ==> {
                        &&& nodes@[k].node_id() == k
                        &&& nodes@[k].wf()
                        &&& nodes@[k].within_clock(0)
                        &&& nodes@[k].options() == node_options
                        &&& nodes@[k].neighbours() == Seq::<u32>::empty()
                        &&& nodes@[k].routes().is_empty()
                        &&& nodes@[k].events().is_empty()
                        &&& nodes@[k].pending().is_empty()
                    },
            decreases ids@.len() - i,
        {
            let ghost before = nodes@;
            let node = Node::new(ids[i], positions[i], node_options);
            nodes.insert(ids[i], node);
            assert(ids@.take(i + 1).drop_last() =~= ids@.take(i as int));
            assert(positions@.take(i + 1).drop_last() =~= positions@.take(i as int));
            assert(nodes@.map_values(|n: Node| n.place()) =~= before.map_values(|n: Node| n.place()).insert(
                ids@[i as int],
                positions@[i as int],
            ));
            i = i + 1;
        }
        assert(ids@.take(ids@.len() as int) =~= ids@);
        assert(positions@.take(positions@.len() as int) =~= positions@);
        let ghost start = nodes@;
        let ks = key_list(&nodes);
        let range_squared = options.neighbour_range_squared;
        let mut i: usize = 0;
        while i < ks.len()
            invariant
                i <= ks@.len(),
                ks@.to_set() == start.dom(),
                ks@.no_duplicates(),
                range_squared == options.neighbour_range_squared,
                nodes@.dom() == start.dom(),
                forall|k: u32| #[trigger]
                    nodes@.contains_key(k) ==> {
                        &&& nodes@[k].node_id() == start[k].node_id()
                        &&& nodes@[k].place() == start[k].place()
                        &&& nodes@[k].options() == start[k].options()
                        &&& nodes@[k].routes() == start[k].routes()
                        &&& nodes@[k].events() == start[k].events()
                        &&& nodes@[k].pending() == start[k].pending()
                        &&& nodes@[k].wf()
                        &&& nodes@[k].within_clock(0)
                        &&& nodes@[k].neighbours().no_duplicates()
                    },
                forall|a: u32, b: u32|
                    #![trigger nodes@[a].neighbours().contains(b)]
                    ks@.take(i as int).contains(a) ==> (nodes@[a].neighbours().contains(b) <==> linked(
                        start,
                        range_squared,
                        a,
                        b,
                    )),
            decreases ks@.len() - i,
        {
            let a = ks[i];
            assert(ks@.contains(a)) by {
                assert(ks@[i as int] == a);
            }
            let pa = nodes.get(&a).unwrap().get_position();
            let mut neighbours: Vec<u32> = Vec::new();
            let mut j: usize = 0;
            while j < ks.len()
                invariant
                    j <= ks@.len(),
                    ks@.to_set() == start.dom(),
                    nodes@.dom() == start.dom(),
                    start.contains_key(a),
                    pa == start[a].place(),
                    forall|k: u32| #[trigger]
                        nodes@.contains_key(k) ==> nodes@[k].place() == start[k].place(),
                    forall|b: u32|
                        #![trigger neighbours@.contains(b)]
                        neighbours@.contains(b) <==> (ks@.take(j as int).contains(b) && b != a
                            && in_range(pa, start[b].place(), range_squared)),
                    neighbours@.no_duplicates(),
                    ks@.no_duplicates(),
                decreases ks@.len() - j,
            {
                let b = ks[j];
                proof {
                    crate::node::lemma_take_one_more(ks@, j as int);
                    assert(!ks@.take(j as int).contains(b)) by {
                        if ks@.take(j as int).contains(b) {
                            assert(ks@.take(j as int).to_set().contains(b));
                        }
                    }
                }
                assert(ks@.contains(b)) by {
                    assert(ks@[j as int] == b);
                }
                let ghost t0 = ks@.take(j as int);
                let ghost t1 = ks@.take(j + 1);
                proof {
                    lemma_take_one_more_contains(ks@, j as int);
                }
                let pb = nodes.get(&b).unwrap().get_position();
                let ghost before = neighbours@;
                let close = match range_squared {
                    Some(r) => pa.squared_distance_to(&pb) <= r as u128,
                    None => false,
                };
                if b != a && close {
                    let ghost nb0 = neighbours@;
                    neighbours.push(b);
                    proof {
                        assert(!nb0.contains(b));
                        assert forall|x: int, y: int| 0 <= x < y < neighbours@.len() implies neighbours@[x]
                            != neighbours@[y] by {
                            if y == nb0.len() {
                                assert(nb0.contains(nb0[x]));
                            }
                        }
                        before.lemma_push_to_set_commute(b);
                        assert(forall|x: u32| neighbours@.contains(x) <==> neighbours@.to_set().contains(x));
                        assert(forall|x: u32| before.contains(x) <==> before.to_set().contains(x));
                    }
                }
                j = j + 1;
            }
            assert(ks@.take(ks@.len() as int) =~= ks@);
            assert(forall|x: u32| ks@.contains(x) <==> ks@.to_set().contains(x));
            let ghost nodes_before = nodes@;
            let mut node = nodes.remove(&a).unwrap();
            node.set_neighbour_nodes(neighbours);
            nodes.insert(a, node);
            proof {
                let t0 = ks@.take(i as int);
                let t1 = ks@.take(i + 1);
                lemma_take_one_more_contains(ks@, i as int);
                assert forall|x: u32, b: u32|
                    #![trigger nodes@[x].neighbours().contains(b)]
                    t1.contains(x) implies (nodes@[x].neighbours().contains(b) <==> linked(
                        start,
                        range_squared,
                        x,
                        b,
                    )) by {
                    if x != a {
                        assert(t0.contains(x));
                        assert(nodes@[x] == nodes_before[x]);
                    }
                }
            }
            i = i + 1;
        }
        assert(ks@.take(ks@.len() as int) =~= ks@);
        assert(forall|x: u32| ks@.contains(x) <==> ks@.to_set().contains(x));
        let r = SensorNetwork {
            options,
            network: Network::new(),
            nodes,
            request_source_nodes: Vec::new(),
            node_event_ids: Vec::new(),
            tick: 0,
        };
        assert forall|a: u32, b: u32|
            #![trigger r.nodes()[a].neighbours().contains(b)]
            r.nodes().contains_key(a) implies (r.nodes()[a].neighbours().contains(b) <==> linked(
                r.nodes(),
                options.neighbour_range_squared,
                a,
                b,
            )) by {
            assert(linked(r.nodes(), range_squared, a, b) == linked(start, range_squared, a, b));
        }
        assert(r.nodes().map_values(|n: Node| n.place()) =~= start.map_values(|n: Node| n.place()));
        proof {
            lemma_placed_dom(ids@, positions@);
            assert(r.nodes().dom() =~= start.map_values(|n: Node| n.place()).dom());
            ids@.lemma_cardinality_of_set();
        }
        r
    }
}

impl SensorNetwork {
    /// Builds the network of a node at each of `positions`, each with a fresh
    /// random id that no other node has, and picks four request sources at
    /// random among the nodes.
    pub fn new(positions: Vec<Position>, options: SensorNetworkOptions) -> (r: SensorNetwork)
        requires
            options.valid(),
            positions@.len() < u32::MAX,
        ensures
            r.wf(),
            r.options() == options,
            r.nodes().dom().len() == positions@.len(),
            exists|ids: Seq<u32>|
                ids.len() == positions@.len() && ids.no_duplicates() && #[trigger] placed(
                    ids,
                    positions@,
                ) == r.nodes().map_values(|n: Node| n.place()),
            forall|k: u32| #[trigger]
                r.nodes().contains_key(k) ==> {
                    &&& r.nodes()[k].routes().is_empty()
                    &&& r.nodes()[k].events().is_empty()
                    &&& r.nodes()[k].pending().is_empty()
                },
            forall|n: u32| #[trigger] r.bus().queue(n) == Seq::<crate::messages::MessageView>::empty(),
            positions@.len() > 0 ==> r.sources().len() == REQUEST_SOURCE_COUNT,
            r.event_ids() == Seq::<u32>::empty(),
            r.tick() == 0,
    {
        let mut ids: Vec<u32> = Vec::new();
        let mut i: usize = 0;
        while i < positions.len()
            invariant
                i <= positions@.len(),
                positions@.len() < u32::MAX,
                ids@.len() == i,
                ids@.no_duplicates(),
            decreases positions@.len() - i,
        {
            let id = fresh_id(&ids, random_u32());
            let ghost ids0 = ids@;
            ids.push(id);
            proof {
                assert forall|x: int, y: int| 0 <= x < y < ids@.len() implies ids@[x] != ids@[y] by {
                    if y == ids0.len() {
                        assert(ids0.contains(ids0[x]));
                    }
                }
            }
            i = i + 1;
        }
        let mut network = SensorNetwork::with_ids(&positions, &ids, options);
        let ghost built = network;
        proof {
            ids@.unique_seq_to_set();
        }
        let ks = key_list(&network.nodes);
        if ks.len() > 0 {
            proof {
                assert(positions@.len() > 0 ==> placed(ids@, positions@).contains_key(ids@.last()));
            }
            let mut j: usize = 0;
            while j < REQUEST_SOURCE_COUNT
                invariant
                    j <= REQUEST_SOURCE_COUNT,
                    ks@.len() > 0,
                    ks@.to_set() == network.nodes().dom(),
                    network.request_source_nodes@.len() == j,
                    network.options == built.options,
                    network.nodes == built.nodes,
                    network.network == built.network,
                    network.node_event_ids == built.node_event_ids,
                    network.tick == built.tick,
                    built.wf(),
                    built.options() == options,
                    forall|x: int|
                        0 <= x < network.sources().len() ==> network.nodes().contains_key(
                            #[trigger] network.sources()[x],
                        ),
                decreases REQUEST_SOURCE_COUNT - j,
            {
                let k = random_index(ks.len());
                assert(ks@.to_set().contains(ks@[k as int]));
                let ghost before = network.sources();
                network.request_source_nodes.push(ks[k]);
                assert(forall|x: int| 0 <= x < before.len() ==> network.sources()[x] == before[x]);
                j = j + 1;
            }
        } else {
            proof {
                if positions@.len() > 0 {
                    let m = placed(ids@, positions@);
                    assert(m.contains_key(ids@.last()));
                    assert(network.nodes().map_values(|n: Node| n.place()).contains_key(ids@.last()));
                    assert(network.nodes().contains_key(ids@.last()));
                    assert(ks@.to_set().contains(ids@.last()));
                    assert(ks@.contains(ids@.last()));
                }
            }
        }
        network
    }

    /// Each node, in turn, detects a new event at the current tick with
    /// probability 1/event_probability; the event gets an id not used before,
    /// which is logged.
    pub fn inject_events(&mut self)
        requires
            old(self).wf(),
        ensures
            final(self).wf(),
            final(self).tick() == old(self).tick(),
            final(self).options() == old(self).options(),
            final(self).sources() == old(self).sources(),
            progressed(old(self).nodes(), final(self).nodes(), old(self).tick()),
            exists|order: Seq<u32>, states: Seq<Map<u32, Node>>, buses: Seq<Network>, logs: Seq<Seq<u32>>|
                #[trigger] detections(*old(self), *final(self), old(self).tick(), order, states, buses, logs),
    {
        let ghost start = self.nodes();
        let tick = self.tick;
        let ks = key_list(&self.nodes);
        let ghost mut states: Seq<Map<u32, Node>> = seq![self.nodes@];
        let ghost mut buses: Seq<Network> = seq![self.network];
        let ghost mut logs: Seq<Seq<u32>> = seq![self.node_event_ids@];
        proof {
            assert forall|k: u32| #[trigger] start.contains_key(k) implies start[k].same_place(start[k])
                && routes_improved(start[k].routes(), start[k].routes()) by {}
        }
        let mut i: usize = 0;
        while i < ks.len()
            invariant
                i <= ks@.len(),
                ks@.to_set() == start.dom(),
                ks@.no_duplicates(),
                tick == self.tick,
                self.options == old(self).options,
                self.options.valid(),
                self.request_source_nodes@ == old(self).request_source_nodes@,
                self.node_event_ids@.no_duplicates(),
                progressed(start, self.nodes@, tick),
                self.network.within_clock(),
                forall|k: u32| #[trigger] start.contains_key(k) ==> start[k].node_id() == k
                    && start[k].options() == self.options.node_options(),
                start == old(self).nodes(),
                states.len() == i + 1,
                buses.len() == i + 1,
                logs.len() == i + 1,
                states[0] == old(self).nodes(),
                buses[0] == old(self).bus(),
                logs[0] == old(self).event_ids(),
                states[i as int] == self.nodes@,
                buses[i as int] == self.network,
                logs[i as int] == self.node_event_ids@,
                forall|j: int|
                    0 <= j < i ==> #[trigger] detection_step(
                        states[j],
                        states[j + 1],
                        buses[j],
                        buses[j + 1],
                        logs[j],
                        logs[j + 1],
                        ks@[j],
                        tick,
                    ),
            decreases ks@.len() - i,
        {
            let k = ks[i];
            assert(ks@.to_set().contains(k)) by {
                assert(ks@.contains(k)) by {
                    assert(ks@[i as int] == k);
                }
            }
            let ghost nodes_before = self.nodes@;
            let ghost bus_before = self.network;
            let ghost log_before = self.node_event_ids@;
            if random_index(self.options.event_probability as usize) == 0
                && self.node_event_ids.len() < u32::MAX as usize {
                let event_id = fresh_id(&self.node_event_ids, random_u32());
                self.node_event_ids.push(event_id);
                let mut node = self.nodes.remove(&k).unwrap();
                let event = Event::new(event_id, tick, node.get_position());
                node.detect_event(&mut self.network, tick, event);
                proof {
                    lemma_routes_improved_transitive(
                        start[k].routes(),
                        nodes_before[k].routes(),
                        node.routes(),
                    );
                }
                self.nodes.insert(k, node);
                proof {
                    assert(self.nodes@.dom() =~= start.dom());
                    assert(self.nodes@ =~= nodes_before.insert(k, self.nodes@[k]));
                    assert(log_before.push(event_id) == self.node_event_ids@);
                    assert(self.node_event_ids@.no_duplicates()) by {
                        assert forall|a: int, b: int|
                            0 <= a < b < self.node_event_ids@.len() implies self.node_event_ids@[a]
                                != self.node_event_ids@[b] by {
                            if b == log_before.len() {
                                assert(log_before.contains(log_before[a]));
                            }
                        }
                    }
                    assert(detection_step(
                        nodes_before,
                        self.nodes@,
                        bus_before,
                        self.network,
                        log_before,
                        self.node_event_ids@,
                        k,
                        tick,
                    ));
                }
            }
            proof {
                states = states.push(self.nodes@);
                buses = buses.push(self.network);
                logs = logs.push(self.node_event_ids@);
                assert(detection_step(
                    states[i as int],
                    states[i + 1],
                    buses[i as int],
                    buses[i + 1],
                    logs[i as int],
                    logs[i + 1],
                    ks@[i as int],
                    tick,
                ));
            }
            i = i + 1;
        }
        proof {
            lemma_wf_kept(*old(self), *self);
            assert(detections(*old(self), *self, tick, ks@, states, buses, logs));
        }
    }

    /// When a wave is due (the tick is a multiple of `request_ticks` and some
    /// event exists), each request source in turn asks for a random event
    /// seen so far.
    pub fn request_wave(&mut self)
        requires
            old(self).wf(),
        ensures
            final(self).wf(),
            final(self).tick() == old(self).tick(),
            final(self).options() == old(self).options(),
            final(self).sources() == old(self).sources(),
            final(self).event_ids() == old(self).event_ids(),
            progressed(old(self).nodes(), final(self).nodes(), old(self).tick()),
            exists|states: Seq<Map<u32, Node>>, buses: Seq<Network>|
                #[trigger] requests_sent(*old(self), *final(self), states, buses),
    {
        let ghost start = self.nodes();
        let tick = self.tick;
        let ghost mut states: Seq<Map<u32, Node>> = seq![self.nodes@];
        let ghost mut buses: Seq<Network> = seq![self.network];
        proof {
            assert forall|k: u32| #[trigger] start.contains_key(k) implies start[k].same_place(start[k])
                && routes_improved(start[k].routes(), start[k].routes()) by {}
        }
        if tick % self.options.request_ticks == 0 && self.node_event_ids.len() > 0 {
            let mut j: usize = 0;
            while j < self.request_source_nodes.len()
                invariant
                    j <= self.request_source_nodes@.len(),
                    tick == self.tick,
                    self.node_event_ids@.len() > 0,
                    self.options == old(self).options,
                    self.request_source_nodes@ == old(self).request_source_nodes@,
                    self.node_event_ids@ == old(self).node_event_ids@,
                    progressed(start, self.nodes@, tick),
                    self.network.within_clock(),
                    start == old(self).nodes(),
                    forall|k: u32| #[trigger] start.contains_key(k) ==> start[k].node_id() == k,
                    forall|x: int|
                        0 <= x < old(self).sources().len() ==> start.contains_key(
                            #[trigger] old(self).sources()[x],
                        ),
                    states.len() == j + 1,
                    buses.len() == j + 1,
                    states[0] == old(self).nodes(),
                    buses[0] == old(self).bus(),
                    states[j as int] == self.nodes@,
                    buses[j as int] == self.network,
                    forall|x: int|
                        0 <= x < j ==> #[trigger] request_step(
                            states[x],
                            states[x + 1],
                            buses[x],
                            buses[x + 1],
                            old(self).sources()[x],
                            old(self).event_ids(),
                            tick,
                        ),
                decreases self.request_source_nodes@.len() - j,
            {
                let source = self.request_source_nodes[j];
                assert(start.contains_key(old(self).sources()[j as int]));
                let event_id = choose_one(&self.node_event_ids).unwrap();
                let ghost nodes_before = self.nodes@;
                let ghost bus_before = self.network;
                let mut node = self.nodes.remove(&source).unwrap();
                node.send_request(&mut self.network, tick, event_id);
                self.nodes.insert(source, node);
                proof {
                    assert(self.nodes@.dom() =~= start.dom());
                    assert(self.nodes@ =~= nodes_before.insert(source, self.nodes@[source]));
                    if nodes_before[source].pending().dom().len() < u32::MAX {
                        let id = choose|id: u32|
                            {
                                &&& !nodes_before[source].pending().contains_key(id)
                                &&& self.nodes@[source].pending() == nodes_before[source].pending().insert(
                                    id,
                                    #[trigger] first_request(tick, id, event_id),
                                )
                                &&& Network::sent(
                                    bus_before,
                                    self.network,
                                    nodes_before[source].node_id(),
                                    MessageView::Request(first_request(tick, id, event_id)),
                                )
                            };
                        assert(first_request(tick, id, event_id) == first_request(tick, id, event_id));
                    }
                    assert(request_step(
                        nodes_before,
                        self.nodes@,
                        bus_before,
                        self.network,
                        source,
                        old(self).event_ids(),
                        tick,
                    ));
                    states = states.push(self.nodes@);
                    buses = buses.push(self.network);
                }
                j = j + 1;
            }
            proof {
                assert(requests_sent(*old(self), *self, states, buses));
            }
        } else {
            assert(requests_sent(*old(self), *self, states, buses));
        }
        proof {
            lemma_wf_kept(*old(self), *self);
        }
    }

    /// Every node takes its step at the current tick, one after the other on
    /// the shared bus; returns the answers counted, in that order.
    pub fn update_nodes(&mut self) -> (r: Vec<Answer>)
        requires
            old(self).wf(),
            old(self).tick() < u32::MAX,
        ensures
            final(self).wf(),
            final(self).tick() == old(self).tick(),
            final(self).options() == old(self).options(),
            final(self).sources() == old(self).sources(),
            final(self).event_ids() == old(self).event_ids(),
            progressed(old(self).nodes(), final(self).nodes(), old(self).tick()),
            exists|order: Seq<u32>, buses: Seq<Network>, outs: Seq<Option<Answer>>|
                #[trigger] nodes_stepped(old(self).nodes(), final(self).nodes(), old(self).bus(), final(self).bus(), old(self).tick(), order, buses, outs)
                    && r@ == collect(outs),
            r@.len() <= old(self).nodes().dom().len(),
    {
        let ghost start = self.nodes();
        let tick = self.tick;
        let ks = key_list(&self.nodes);
        let ghost mut buses: Seq<Network> = seq![self.network];
        let ghost mut outs: Seq<Option<Answer>> = Seq::empty();
        proof {
            assert forall|k: u32| #[trigger] start.contains_key(k) implies start[k].same_place(start[k])
                && routes_improved(start[k].routes(), start[k].routes()) by {}
        }
        let mut answers: Vec<Answer> = Vec::new();
        let mut i: usize = 0;
        while i < ks.len()
            invariant
                i <= ks@.len(),
                ks@.to_set() == start.dom(),
                ks@.no_duplicates(),
                tick == self.tick,
                tick < u32::MAX,
                self.options == old(self).options,
                self.request_source_nodes@ == old(self).request_source_nodes@,
                self.node_event_ids@ == old(self).node_event_ids@,
                progressed(start, self.nodes@, tick),
                self.network.within_clock(),
                start == old(self).nodes(),
                answers@.len() <= i,
                buses.len() == i + 1,
                outs.len() == i,
                buses[0] == old(self).bus(),
                buses[i as int] == self.network,
                answers@ == collect(outs),
                forall|k: u32| #[trigger]
                    self.nodes@.contains_key(k) ==> !ks@.take(i as int).contains(k) ==> self.nodes@[k]
                        == start[k],
                forall|j: int|
                    0 <= j < i ==> #[trigger] step_between(
                        start[ks@[j]],
                        self.nodes@[ks@[j]],
                        buses[j],
                        buses[j + 1],
                        tick,
                        outs[j],
                    ),
            decreases ks@.len() - i,
        {
            let k = ks[i];
            assert(ks@.to_set().contains(k)) by {
                assert(ks@.contains(k)) by {
                    assert(ks@[i as int] == k);
                }
            }
            let ghost nodes_before = self.nodes@;
            let ghost net_before = self.network;
            proof {
                crate::node::lemma_take_one_more(ks@, i as int);
                assert(!ks@.take(i as int).contains(k)) by {
                    if ks@.take(i as int).contains(k) {
                        assert(ks@.take(i as int).to_set().contains(k));
                    }
                }
            }
            let mut node = self.nodes.remove(&k).unwrap();
            let answer = node.step(&mut self.network, tick);
            proof {
                lemma_routes_improved_transitive(
                    start[k].routes(),
                    nodes_before[k].routes(),
                    node.routes(),
                );
            }
            self.nodes.insert(k, node);
            assert(self.nodes@.dom() =~= start.dom());
            match answer {
                Some(a) => answers.push(a),
                None => {},
            }
            proof {
                let ghost outs0 = outs;
                buses = buses.push(self.network);
                outs = outs.push(answer);
                assert(outs.drop_last() =~= outs0);
                let t0 = ks@.take(i as int);
                let t1 = ks@.take(i + 1);
                lemma_take_one_more_contains(ks@, i as int);
                assert forall|j: int| 0 <= j < i + 1 implies #[trigger] step_between(
                    start[ks@[j]],
                    self.nodes@[ks@[j]],
                    buses[j],
                    buses[j + 1],
                    tick,
                    outs[j],
                ) by {
                    if j < i {
                        assert(ks@[j] != k) by {
                            assert(ks@[j] == t0[j]);
                        }
                    }
                }
            }
            i = i + 1;
        }
        proof {
            ks@.unique_seq_to_set();
            assert(nodes_stepped(start, self.nodes@, old(self).bus(), self.network, tick, ks@, buses, outs));
            lemma_wf_kept(*old(self), *self);
        }
        answers
    }

    /// One tick with the answers it produced, in the order the nodes counted
    /// them: the clock advances, events are detected (`inject_events`), a
    /// request wave goes out if due (`request_wave`), then every node takes
    /// its step (`update_nodes`).
    pub fn update_answers(&mut self) -> (r: Vec<Answer>)
        requires
            old(self).wf(),
            old(self).tick() < u32::MAX - 1,
        ensures
            final(self).wf(),
            final(self).tick() == old(self).tick() + 1,
            final(self).options() == old(self).options(),
            final(self).sources() == old(self).sources(),
            progressed(old(self).nodes(), final(self).nodes(), final(self).tick()),
            exists|mid1: SensorNetwork, mid2: SensorNetwork|
                #[trigger] ticked(*old(self), mid1, mid2, *final(self), r@),
            r@.len() <= old(self).nodes().dom().len(),
    {
        let ghost start = self.nodes();
        self.tick = self.tick + 1;
        let tick = self.tick;
        proof {
            assert forall|k: u32| #[trigger] start.contains_key(k) implies start[k].within_clock(tick) by {
                lemma_within_later_clock(start[k], (tick - 1) as u32, tick);
            }
        }
        assert(self.nodes() == start);
        assert(self.nodes_ok());
        assert(self.bus() == old(self).bus());
        assert(self.sources() == old(self).sources());
        assert(self.options() == old(self).options());
        assert(self.event_ids() == old(self).event_ids());
        assert(self.topology_ok());
        assert(self.wf());
        let ghost s0 = *self;
        self.inject_events();
        let ghost mid1 = *self;
        self.request_wave();
        let ghost mid2 = *self;
        let r = self.update_nodes();
        proof {
            let (order, states, buses, logs) = choose|order: Seq<u32>, states: Seq<Map<u32, Node>>, buses: Seq<Network>, logs: Seq<Seq<u32>>|
                #[trigger] detections(s0, mid1, tick, order, states, buses, logs);
            assert(detections(*old(self), mid1, mid1.tick(), order, states, buses, logs));
            assert(ticked(*old(self), mid1, mid2, *self, r@));
            assert forall|k: u32| #[trigger] self.nodes().contains_key(k) implies {
                &&& self.nodes()[k].same_place(start[k])
                &&& self.nodes()[k].wf()
                &&& self.nodes()[k].within_clock(tick)
                &&& routes_improved(start[k].routes(), self.nodes()[k].routes())
            } by {
                lemma_routes_improved_transitive(start[k].routes(), mid1.nodes()[k].routes(), mid2.nodes()[k].routes());
                lemma_routes_improved_transitive(start[k].routes(), mid2.nodes()[k].routes(), self.nodes()[k].routes());
            }
        }
        r
    }

    pub fn get_tick(&self) -> (r: u32)
        ensures
            r == self.tick(),
    {
        self.tick
    }

    /// The node with id `id`.
    pub fn node(&self, id: u32) -> (r: Option<&Node>)
        ensures
            r is Some <==> self.nodes().contains_key(id),
            r matches Some(n) ==> *n == self.nodes()[id],
    {
        self.nodes.get(&id)
    }

    /// The ids of all nodes.
    pub fn node_ids(&self) -> (r: Vec<u32>)
        ensures
            r@.to_set() == self.nodes().dom(),
            r@.no_duplicates(),
    {
        key_list(&self.nodes)
    }

    /// The ids of the request sources.
    pub fn request_sources(&self) -> (r: &Vec<u32>)
        ensures
            r@ == self.sources(),
    {
        &self.request_source_nodes
    }

    /// Every event id detected so far, oldest first.
    pub fn detected_event_ids(&self) -> (r: &Vec<u32>)
        ensures
            r@ == self.event_ids(),
    {
        &self.node_event_ids
    }

    /// One tick, as `update_answers`; returns the number of answers.
    pub fn update(&mut self) -> (r: u32)
        requires
            old(self).wf(),
            old(self).tick() < u32::MAX - 1,
        ensures
            final(self).wf(),
            final(self).tick() == old(self).tick() + 1,
            final(self).options() == old(self).options(),
            final(self).sources() == old(self).sources(),
            progressed(old(self).nodes(), final(self).nodes(), final(self).tick()),
            exists|mid1: SensorNetwork, mid2: SensorNetwork, answers: Seq<Answer>|
                #[trigger] ticked(*old(self), mid1, mid2, *final(self), answers) && r == answers.len(),
    {
        let answers = self.update_answers();
        answers.len() as u32
    }
}

/// The ids placed are those of `ids`.
proof fn lemma_placed_dom(ids: Seq<u32>, positions: Seq<Position>)
    requires
        ids.len() == positions.len(),
    ensures
        placed(ids, positions).dom() == ids.to_set(),
    decreases ids.len(),
{
    if ids.len() > 0 {
        lemma_placed_dom(ids.drop_last(), positions.drop_last());
        assert(ids =~= ids.drop_last().push(ids.last()));
        ids.drop_last().lemma_push_to_set_commute(ids.last());
        assert(placed(ids, positions).dom() =~= ids.to_set());
    } else {
        assert(ids.to_set() =~= Set::<u32>::empty());
        assert(placed(ids, positions).dom() =~= Set::<u32>::empty());
    }
}

/// What a phase of a tick keeps: with the options, sources and each node's
/// place and neighbours unchanged, the network stays well formed.
proof fn lemma_wf_kept(before: SensorNetwork, after: SensorNetwork)
    requires
        before.wf(),
        after.options() == before.options(),
        after.sources() == before.sources(),
        progressed(before.nodes(), after.nodes(), after.tick()),
        after.bus().within_clock(),
        after.event_ids().no_duplicates(),
    ensures
        after.wf(),
{
    assert(after.nodes().dom() =~= before.nodes().dom());
    assert forall|a: u32, b: u32|
        #![trigger after.nodes()[a].neighbours().contains(b)]
        after.nodes().contains_key(a) implies (after.nodes()[a].neighbours().contains(b) <==> linked(
            after.nodes(),
            after.options().neighbour_range_squared,
            a,
            b,
        )) by {
        assert(before.nodes()[a].neighbours().contains(b) <==> linked(
            before.nodes(),
            before.options().neighbour_range_squared,
            a,
            b,
        ));
        if before.nodes().contains_key(b) {
            assert(after.nodes()[b].place() == before.nodes()[b].place());
        }
    }
    assert forall|x: int| 0 <= x < after.sources().len() implies after.nodes().contains_key(
        #[trigger] after.sources()[x],
    ) by {
        assert(before.nodes().contains_key(before.sources()[x]));
    }
}

/// The neighbour relation is symmetric.
pub proof fn lemma_neighbours_symmetric(net: SensorNetwork, a: u32, b: u32)
    requires
        net.wf(),
        net.nodes().contains_key(a),
        net.nodes().contains_key(b),
    ensures
        net.nodes()[a].neighbours().contains(b) <==> net.nodes()[b].neighbours().contains(a),
{
    crate::position::lemma_squared_distance_symmetric(net.nodes()[a].place(), net.nodes()[b].place());
    assert(net.nodes()[a].neighbours().contains(b) <==> linked(
        net.nodes(),
        net.options().neighbour_range_squared,
        a,
        b,
    ));
    assert(net.nodes()[b].neighbours().contains(a) <==> linked(
        net.nodes(),
        net.options().neighbour_range_squared,
        b,
        a,
    ));
}

} // verus!
