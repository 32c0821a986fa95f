use vstd::prelude::*;
use std::collections::HashMap;
use crate::event::Event;
use crate::lists::{
    contains_id, fresh_id, key_list, lemma_take_one_more_contains, reversed, with_last, without_first,
};
use crate::messages::{
    AgentMessage, AgentView, Message, MessageView, RequestMessage, RequestView, ResponseMessage,
    ResponseView,
};
use crate::network::Network;
use crate::position::Position;
use crate::rng::{choose_one, random_index, random_u32};
use crate::route::Route;

verus! {

broadcast use vstd::std_specs::hash::group_hash_axioms;

/// The protocol parameters every node shares.
#[derive(Clone, Copy, Debug)]
pub struct NodeOptions {
    pub agent_probability: u32,
    pub agent_max_hops: u32,
    pub request_max_hops: u32,
    pub request_retry_multiplier: u32,
}

/// What a node reports when a response to one of its requests arrives.
#[derive(Clone, Copy, Debug, PartialEq, Eq, Structural)]
pub struct Answer {
    pub event_id: u32,
    pub tick: u32,
    pub position: Position,
    pub hops: u32,
}

pub struct Node {
    pub id: u32,
    pub position: Position,
    options: NodeOptions,
    pub neighbour_nodes: Vec<u32>,
    routes: HashMap<u32, Route>,
    events: HashMap<u32, Event>,
    request_messages: HashMap<u32, RequestMessage>,
}

/// The neighbours a walk may take next from a node: those it has not visited
/// yet, or all of them once every one was visited.
pub open spec fn candidates(neighbours: Seq<u32>, visited: Seq<u32>) -> Set<u32> {
    let fresh = neighbours.to_set().filter(|n: u32| !visited.contains(n));
    if fresh.is_empty() {
        neighbours.to_set()
    } else {
        fresh
    }
}

/// No known distance grew from `before` to `after`.
pub open spec fn routes_improved(before: Map<u32, Route>, after: Map<u32, Route>) -> bool {
    forall|e: u32| #[trigger]
        before.contains_key(e) ==> after.contains_key(e) && after[e].shortest_distance
            <= before[e].shortest_distance
}

/// The table after an advertisement: an entry is taken over where none was
/// known, or replaces the next hop and distance where it is strictly shorter.
pub open spec fn merged_routes(local: Map<u32, Route>, advertised: Map<u32, Route>) -> Map<
    u32,
    Route,
> {
    Map::new(
        |e: u32| local.contains_key(e) || advertised.contains_key(e),
        |e: u32| merge_entry(local, advertised, e),
    )
}

pub open spec fn merge_entry(local: Map<u32, Route>, advertised: Map<u32, Route>, e: u32) -> Route {
    if !local.contains_key(e) {
        advertised[e]
    } else if advertised.contains_key(e) && advertised[e].shortest_distance
        < local[e].shortest_distance {
        Route {
            event_id: local[e].event_id,
            node_id: advertised[e].node_id,
            shortest_distance: advertised[e].shortest_distance,
        }
    } else {
        local[e]
    }
}

/// The advertisement a node sends on: each of its routes, one hop longer,
/// through itself.
pub open spec fn advertisement(routes: Map<u32, Route>, self_id: u32) -> Map<u32, Route> {
    Map::new(
        |e: u32| routes.contains_key(e),
        |e: u32|
            Route {
                event_id: routes[e].event_id,
                node_id: self_id,
                shortest_distance: (routes[e].shortest_distance + 1) as u32,
            },
    )
}

/// The first request `id` for `event_id`, sent at `tick`.
pub open spec fn first_request(tick: u32, id: u32, event_id: u32) -> RequestView {
    RequestView { tick, hops: 0, route: Seq::empty(), id, sequence: 1, event_id, is_route_found: false }
}

/// A pending request is due for a retry or for abandonment at `tick`.
pub open spec fn is_due(m: RequestView, tick: u32, window: int) -> bool {
    m.tick + window < tick
}

/// The retry of request `m`, sent at `tick`.
pub open spec fn retry_of(m: RequestView, tick: u32) -> RequestView {
    RequestView { tick, sequence: (m.sequence + 1) as u32, is_route_found: false, ..m }
}

/// Whether pending request `m` is retried at `tick`.
pub open spec fn is_retried(m: RequestView, tick: u32, window: int) -> bool {
    is_due(m, tick, window) && m.sequence <= 1
}

/// Whether pending request `m` is abandoned at `tick`.
pub open spec fn is_abandoned(m: RequestView, tick: u32, window: int) -> bool {
    is_due(m, tick, window) && m.sequence > 1
}

/// The pending table after the entries of `done` were looked at, at `tick`.
pub open spec fn expired_on(
    pending: Map<u32, RequestView>,
    done: Set<u32>,
    tick: u32,
    window: int,
) -> Map<u32, RequestView> {
    Map::new(
        |id: u32|
            pending.contains_key(id) && !(done.contains(id) && is_abandoned(
                pending[id],
                tick,
                window,
            )),
        |id: u32|
            if done.contains(id) && is_retried(pending[id], tick, window) {
                retry_of(pending[id], tick)
            } else {
                pending[id]
            },
    )
}

/// The pending table after the retry and expiry pass at `tick`.
pub open spec fn expired(pending: Map<u32, RequestView>, tick: u32, window: int) -> Map<
    u32,
    RequestView,
> {
    expired_on(pending, pending.dom(), tick, window)
}

/// The ids of the requests in `pending` that are retried at `tick`.
pub open spec fn retried_ids(pending: Map<u32, RequestView>, tick: u32, window: int) -> Set<u32> {
    pending.dom().filter(|id: u32| is_retried(pending[id], tick, window))
}

/// The retries of `ids`, in that order, as queued messages.
pub open spec fn retry_messages(pending: Map<u32, RequestView>, ids: Seq<u32>, tick: u32) -> Seq<
    MessageView,
> {
    ids.map_values(|id: u32| MessageView::Request(retry_of(pending[id], tick)))
}

/// The agent that node `me` sends on after handling `a` at `tick`, carrying
/// the advertisement of its table `routes`.
pub open spec fn forwarded_agent(a: AgentView, tick: u32, me: u32, routes: Map<u32, Route>) -> MessageView {
    MessageView::Agent(
        AgentView {
            tick: (tick + 1) as u32,
            hops: (a.hops + 1) as u32,
            route: a.route.push(me),
            routes: advertisement(routes, me),
        },
    )
}

/// The request that node `me` sends on after handling `r` at `tick`.
pub open spec fn forwarded_request(r: RequestView, tick: u32, me: u32, found: bool) -> MessageView {
    MessageView::Request(
        RequestView {
            tick: (tick + 1) as u32,
            hops: (r.hops + 1) as u32,
            route: r.route.push(me),
            is_route_found: found,
            ..r
        },
    )
}

/// The response a holder of `event` makes to request `r` at `tick`: it goes
/// back along the reversed route of the request.
pub open spec fn response_to(r: RequestView, tick: u32, event: Event) -> MessageView {
    MessageView::Response(
        ResponseView {
            tick: (tick + 1) as u32,
            hops: 0,
            route: Seq::empty(),
            id: r.id,
            path: r.route.reverse(),
            event_id: r.event_id,
            event,
        },
    )
}

/// The response that node `me` passes on to the next node of its path.
pub open spec fn forwarded_response(r: ResponseView, tick: u32, me: u32) -> MessageView {
    MessageView::Response(
        ResponseView {
            tick: (tick + 1) as u32,
            hops: (r.hops + 1) as u32,
            route: r.route.push(me),
            path: r.path.drop_first(),
            ..r
        },
    )
}

/// `message` went to one of the nodes that a walk from `node` may take next,
/// having visited `visited`; or nothing was sent where `node` has no
/// neighbour.
pub open spec fn sent_to_candidate(
    node: Node,
    visited: Seq<u32>,
    before: Network,
    after: Network,
    message: MessageView,
) -> bool {
    if node.neighbours().len() == 0 {
        Network::unchanged(before, after)
    } else {
        exists|t: u32|
            #[trigger] candidates(node.neighbours(), visited).contains(t) && Network::sent(
                before,
                after,
                t,
                message,
            )
    }
}

/// The effect of an agent `a` delivered to `before` at `tick`.
pub open spec fn agent_handled(
    before: Node,
    after: Node,
    net_before: Network,
    net_after: Network,
    a: AgentView,
    tick: u32,
) -> bool {
    &&& after.routes() == merged_routes(before.routes(), a.routes)
    &&& after.events() == before.events()
    &&& after.pending() == before.pending()
    &&& if a.hops < before.options().agent_max_hops {
        sent_to_candidate(
            before,
            a.route,
            net_before,
            net_after,
            forwarded_agent(a, tick, before.node_id(), after.routes()),
        )
    } else {
        Network::unchanged(net_before, net_after)
    }
}

/// The effect of a request `r` delivered to `before` at `tick`.
pub open spec fn request_handled(
    before: Node,
    after: Node,
    net_before: Network,
    net_after: Network,
    r: RequestView,
    tick: u32,
) -> bool {
    &&& after.routes() == before.routes()
    &&& after.events() == before.events()
    &&& after.pending() == before.pending()
    &&& if before.events().contains_key(r.event_id) {
        Network::sent(
            net_before,
            net_after,
            before.node_id(),
            response_to(r, tick, before.events()[r.event_id]),
        )
    } else if r.is_route_found || r.hops < before.options().request_max_hops {
        if before.routes().contains_key(r.event_id) {
            Network::sent(
                net_before,
                net_after,
                before.routes()[r.event_id].node_id,
                forwarded_request(r, tick, before.node_id(), true),
            )
        } else {
            sent_to_candidate(
                before,
                r.route,
                net_before,
                net_after,
                forwarded_request(r, tick, before.node_id(), false),
            )
        }
    } else {
        Network::unchanged(net_before, net_after)
    }
}

/// The effect of a response `r` delivered to `before` at `tick`, and the
/// answer reported.
pub open spec fn response_handled(
    before: Node,
    after: Node,
    net_before: Network,
    net_after: Network,
    r: ResponseView,
    tick: u32,
    answer: Option<Answer>,
) -> bool {
    &&& after.routes() == before.routes()
    &&& after.events() == before.events()
    &&& if before.pending().contains_key(r.id) {
        &&& answer == Some(
            Answer {
                event_id: r.event.id,
                tick: r.event.tick,
                position: r.event.position,
                hops: r.hops,
            },
        )
        &&& after.pending() == before.pending().remove(r.id)
        &&& Network::unchanged(net_before, net_after)
    } else {
        &&& answer is None
        &&& after.pending() == before.pending()
        &&& if r.path.len() > 0 {
            Network::sent(net_before, net_after, r.path[0], forwarded_response(r, tick, before.node_id()))
        } else {
            Network::unchanged(net_before, net_after)
        }
    }
}

/// The effect of `m` delivered to `before` at `tick`.
pub open spec fn message_handled(
    before: Node,
    after: Node,
    net_before: Network,
    net_after: Network,
    m: MessageView,
    tick: u32,
    answer: Option<Answer>,
) -> bool {
    match m {
        MessageView::Agent(a) => agent_handled(before, after, net_before, net_after, a, tick)
            && answer is None,
        MessageView::Request(r) => request_handled(before, after, net_before, net_after, r, tick)
            && answer is None,
        MessageView::Response(r) => response_handled(
            before,
            after,
            net_before,
            net_after,
            r,
            tick,
            answer,
        ),
    }
}

/// Step A took node `before` to `after` at `tick`: the pending table went
/// through the retry and expiry pass, and the retries were queued to the
/// node itself, in the order the table was walked.
pub open spec fn retried(before: Node, after: Node, net_before: Network, net_after: Network, tick: u32) -> bool {
    &&& after.same_place(before)
    &&& after.routes() == before.routes()
    &&& after.events() == before.events()
    &&& after.pending() == expired(before.pending(), tick, before.window())
    &&& exists|sent: Seq<u32>|
        {
            &&& sent.no_duplicates()
            &&& sent.to_set() == retried_ids(before.pending(), tick, before.window())
            &&& #[trigger] net_after.queue(before.node_id()) == net_before.queue(before.node_id())
                + retry_messages(before.pending(), sent, tick)
        }
    &&& forall|n: u32|
        n != before.node_id() ==> #[trigger] net_after.queue(n) == net_before.queue(n)
}

/// Step B took node `before` to `after` at `tick`: the head of its queue, if
/// due, was taken off and handled; otherwise nothing happened.
pub open spec fn delivered(
    before: Node,
    after: Node,
    net_before: Network,
    net_after: Network,
    tick: u32,
    answer: Option<Answer>,
) -> bool {
    let q = net_before.queue(before.node_id());
    if q.len() > 0 && q[0].tick() <= tick {
        exists|net_taken: Network|
            #[trigger] Network::taken(net_before, net_taken, before.node_id())
                && message_handled(before, after, net_taken, net_after, q[0], tick, answer)
    } else {
        &&& after == before
        &&& Network::unchanged(net_before, net_after)
        &&& answer is None
    }
}

/// Node `before` became `after` by one step at `tick` (Step A then Step B)
/// that took the bus from `net_before` to `net_after` and counted `answer`.
pub open spec fn step_between(
    before: Node,
    after: Node,
    net_before: Network,
    net_after: Network,
    tick: u32,
    answer: Option<Answer>,
) -> bool {
    exists|mid: Node, net_mid: Network|
        #[trigger] retried(before, mid, net_before, net_mid, tick) && delivered(
            mid,
            after,
            net_mid,
            net_after,
            tick,
            answer,
        )
}

/// The table after the advertised entries of `done` were merged in.
pub open spec fn merged_on(local: Map<u32, Route>, advertised: Map<u32, Route>, done: Set<u32>) -> Map<
    u32,
    Route,
> {
    Map::new(
        |e: u32| local.contains_key(e) || (done.contains(e) && advertised.contains_key(e)),
        |e: u32|
            if done.contains(e) && advertised.contains_key(e) {
                merge_entry(local, advertised, e)
            } else {
                local[e]
            },
    )
}

/// A sequence without repeats, cut after `i`, as a set: the one before plus
/// element `i`.
pub proof fn lemma_take_one_more(s: Seq<u32>, i: int)
    requires
        0 <= i < s.len(),
        s.no_duplicates(),
    ensures
        s.take(i + 1).to_set() == s.take(i).to_set().insert(s[i]),
        !s.take(i).to_set().contains(s[i]),
{
    assert(s.take(i + 1) =~= s.take(i).push(s[i]));
    s.take(i).lemma_push_to_set_commute(s[i]);
    if s.take(i).to_set().contains(s[i]) {
        let j = choose|j: int| 0 <= j < i && #[trigger] s.take(i)[j] == s[i];
        assert(s[j] == s[i]);
    }
}

impl Node {
    pub closed spec fn node_id(self) -> u32 {
        self.id
    }

    pub closed spec fn place(self) -> Position {
        self.position
    }

    /// The ids of the nodes within range, fixed when the topology is built.
    pub closed spec fn neighbours(self) -> Seq<u32> {
        self.neighbour_nodes@
    }

    pub closed spec fn options(self) -> NodeOptions {
        self.options
    }

    /// The routing table, by event id.
    pub closed spec fn routes(self) -> Map<u32, Route> {
        self.routes@
    }

    /// The events detected here, by event id.
    pub closed spec fn events(self) -> Map<u32, Event> {
        self.events@
    }

    /// The requests this node sent and still waits for, by request id.
    pub closed spec fn pending(self) -> Map<u32, RequestView> {
        self.request_messages@.map_values(|m: RequestMessage| m@)
    }

    /// The time a request may go unanswered before it is retried or dropped.
    pub open spec fn window(self) -> int {
        self.options().request_max_hops * self.options().request_retry_multiplier
    }

    pub open spec fn wf(self) -> bool {
        &&& forall|e: u32| #[trigger]
            self.routes().contains_key(e) ==> self.routes()[e].event_id == e
        &&& forall|e: u32| #[trigger]
            self.events().contains_key(e) ==> {
                &&& self.events()[e].id == e
                &&& self.routes().contains_key(e)
                &&& self.routes()[e].shortest_distance == 0
                &&& self.routes()[e].node_id == self.node_id()
            }
        &&& forall|r: u32| #[trigger]
            self.pending().contains_key(r) ==> {
                &&& self.pending()[r].id == r
                &&& 1 <= self.pending()[r].sequence <= 2
                &&& self.pending()[r].hops == 0
            }
    }

    /// No known distance exceeds the clock.
    pub open spec fn within_clock(self, tick: u32) -> bool {
        forall|e: u32| #[trigger]
            self.routes().contains_key(e) ==> self.routes()[e].shortest_distance <= tick
    }

    /// What stays fixed for the whole run.
    pub open spec fn same_place(self, other: Node) -> bool {
        &&& self.node_id() == other.node_id()
        &&& self.place() == other.place()
        &&& self.neighbours() == other.neighbours()
        &&& self.options() == other.options()
    }

    pub fn new(id: u32, position: Position, options: NodeOptions) -> (r: Node)
        ensures
            r.node_id() == id,
            r.place() == position,
            r.options() == options,
            r.neighbours() == Seq::<u32>::empty(),
            r.routes() == Map::<u32, Route>::empty(),
            r.events() == Map::<u32, Event>::empty(),
            r.pending() == Map::<u32, RequestView>::empty(),
            r.wf(),
            r.within_clock(0),
    {
        let r = Node {
            id,
            position,
            options,
            neighbour_nodes: Vec::new(),
            routes: HashMap::new(),
            events: HashMap::new(),
            request_messages: HashMap::new(),
        };
        assert(r.pending() =~= Map::<u32, RequestView>::empty());
        r
    }

    /// Records `event` as detected here at `tick` (see `detect_event_with`),
    /// starting an agent with probability 1/agent_probability.
    pub fn detect_event(&mut self, network: &mut Network, tick: u32, event: Event)
        requires
            old(self).wf(),
            old(self).options().agent_probability > 0,
        ensures
            final(self).same_place(*old(self)),
            final(self).wf(),
            final(self).routes() == old(self).routes().insert(
                event.id,
                Route { event_id: event.id, node_id: old(self).node_id(), shortest_distance: 0 },
            ),
            final(self).events() == old(self).events().insert(event.id, event),
            final(self).pending() == old(self).pending(),
            routes_improved(old(self).routes(), final(self).routes()),
            old(self).within_clock(tick) ==> final(self).within_clock(tick),
            old(self).options().agent_probability != 1 ==> Network::unchanged(
                *old(network),
                *final(network),
            ) || Network::sent(
                *old(network),
                *final(network),
                old(self).node_id(),
                MessageView::Agent(
                    AgentView { tick, hops: 0, route: Seq::empty(), routes: Map::empty() },
                ),
            ),
            old(self).options().agent_probability == 1 ==> Network::sent(
                *old(network),
                *final(network),
                old(self).node_id(),
                MessageView::Agent(
                    AgentView { tick, hops: 0, route: Seq::empty(), routes: Map::empty() },
                ),
            ),
            old(network).within_clock() ==> final(network).within_clock(),
    {
        let start_agent = random_index(self.options.agent_probability as usize) == 0;
        self.detect_event_with(network, tick, event, start_agent);
    }

    /// Records `event` as detected here at `tick`, with a route of distance 0
    /// to it, and starts the walk of an agent from this node when
    /// `start_agent` holds.
    pub fn detect_event_with(&mut self, network: &mut Network, tick: u32, event: Event, start_agent: bool)
        requires
            old(self).wf(),
        ensures
            final(self).same_place(*old(self)),
            final(self).wf(),
            final(self).routes() == old(self).routes().insert(
                event.id,
                Route { event_id: event.id, node_id: old(self).node_id(), shortest_distance: 0 },
            ),
            final(self).events() == old(self).events().insert(event.id, event),
            final(self).pending() == old(self).pending(),
            routes_improved(old(self).routes(), final(self).routes()),
            old(self).within_clock(tick) ==> final(self).within_clock(tick),
            !start_agent ==> Network::unchanged(*old(network), *final(network)),
            start_agent ==> Network::sent(
                *old(network),
                *final(network),
                old(self).node_id(),
                MessageView::Agent(
                    AgentView {
                        tick,
                        hops: 0,
                        route: Seq::empty(),
                        routes: Map::empty(),
                    },
                ),
            ),
            old(network).within_clock() ==> final(network).within_clock(),
    {
        self.routes.insert(event.id, Route::new(event.id, self.id, 0));
        self.events.insert(event.id, event);
        assert(self.pending() == old(self).pending());
        assert forall|e: u32| #[trigger] self.routes().contains_key(e) implies self.routes()[e].event_id == e by {
            if e != event.id {
                assert(old(self).routes().contains_key(e));
            }
        }
        assert forall|e: u32| #[trigger] self.events().contains_key(e) implies {
            &&& self.events()[e].id == e
            &&& self.routes().contains_key(e)
            &&& self.routes()[e].shortest_distance == 0
            &&& self.routes()[e].node_id == self.node_id()
        } by {
            if e != event.id {
                assert(old(self).events().contains_key(e));
            }
        }
        if start_agent {
            let agent = AgentMessage::new(tick, 0, Vec::new(), HashMap::new());
            network.send(self.id, Message::AgentMessage(agent));
        }
    }

    /// Sends a request for `event_id` with a random id that no pending
    /// request has (see `send_request_with_id`); sends nothing when every
    /// `u32` but one is already pending.
    pub fn send_request(&mut self, network: &mut Network, tick: u32, event_id: u32)
        requires
            old(self).wf(),
        ensures
            final(self).same_place(*old(self)),
            final(self).wf(),
            final(self).routes() == old(self).routes(),
            final(self).events() == old(self).events(),
            old(self).pending().dom().len() < u32::MAX ==> exists|id: u32|
                {
                    &&& !old(self).pending().contains_key(id)
                    &&& final(self).pending() == old(self).pending().insert(
                        id,
                        #[trigger] first_request(tick, id, event_id),
                    )
                    &&& Network::sent(
                        *old(network),
                        *final(network),
                        old(self).node_id(),
                        MessageView::Request(first_request(tick, id, event_id)),
                    )
                },
            old(self).pending().dom().len() >= u32::MAX ==> final(self).pending() == old(
                self,
            ).pending() && Network::unchanged(*old(network), *final(network)),
            old(network).within_clock() ==> final(network).within_clock(),
    {
        let ids = key_list(&self.request_messages);
        proof {
            ids@.unique_seq_to_set();
            assert(self.pending().dom() =~= self.request_messages@.dom());
        }
        if ids.len() >= u32::MAX as usize {
            return;
        }
        let id = fresh_id(&ids, random_u32());
        assert(!old(self).pending().contains_key(id)) by {
            if old(self).pending().contains_key(id) {
                assert(ids@.to_set().contains(id));
            }
        }
        self.send_request_with_id(network, tick, event_id, id);
    }

    /// Records a first request `id` for `event_id` as pending and queues it
    /// to this node itself.
    pub fn send_request_with_id(&mut self, network: &mut Network, tick: u32, event_id: u32, id: u32)
        requires
            old(self).wf(),
        ensures
            final(self).same_place(*old(self)),
            final(self).wf(),
            final(self).routes() == old(self).routes(),
            final(self).events() == old(self).events(),
            final(self).pending() == old(self).pending().insert(id, first_request(tick, id, event_id)),
            Network::sent(
                *old(network),
                *final(network),
                old(self).node_id(),
                MessageView::Request(first_request(tick, id, event_id)),
            ),
            old(network).within_clock() ==> final(network).within_clock(),
    {
        let message = RequestMessage::new(tick, 0, Vec::new(), id, 1, event_id, false);
        self.request_messages.insert(id, message.duplicate());
        assert(self.pending() =~= old(self).pending().insert(id, message@));
        assert(self.routes() == old(self).routes());
        assert(self.events() == old(self).events());
        assert forall|r: u32| #[trigger] self.pending().contains_key(r) implies {
            &&& self.pending()[r].id == r
            &&& 1 <= self.pending()[r].sequence <= 2
            &&& self.pending()[r].hops == 0
        } by {
            if r != id {
                assert(old(self).pending().contains_key(r));
            }
        }
        network.send(self.id, Message::RequestMessage(message));
    }

    /// The neighbours a walk may move to from here, having visited `route`:
    /// those not in `route`, or all of them when every one is in it.
    pub fn neighbour_candidates(&self, route: &Vec<u32>) -> (r: Vec<u32>)
        ensures
            r@.to_set() == candidates(self.neighbours(), route@),
            r@.len() == 0 <==> self.neighbours().len() == 0,
    {
        let ghost nb = self.neighbour_nodes@;
        let ghost fresh = nb.to_set().filter(|n: u32| !route@.contains(n));
        let mut possible: Vec<u32> = Vec::new();
        let mut i: usize = 0;
        while i < self.neighbour_nodes.len()
            invariant
                i <= nb.len(),
                nb == self.neighbour_nodes@,
                forall|n: u32|
                    possible@.contains(n) <==> (nb.take(i as int).contains(n) && !route@.contains(n)),
            decreases nb.len() - i,
        {
            let n = self.neighbour_nodes[i];
            assert(nb.take(i + 1) =~= nb.take(i as int).push(n));
            let ghost before = possible@;
            if !contains_id(route, n) {
                possible.push(n);
                assert forall|x: u32| possible@.contains(x) <==> (before.contains(x) || x == n) by {
                    if possible@.contains(x) && x != n {
                        let j = choose|j: int| 0 <= j < possible@.len() && #[trigger] possible@[j] == x;
                        assert(before[j] == x);
                    }
                    if x == n {
                        assert(possible@[possible@.len() - 1] == n);
                    }
                    if before.contains(x) {
                        let j = choose|j: int| 0 <= j < before.len() && #[trigger] before[j] == x;
                        assert(possible@[j] == x);
                    }
                }
            }
            let ghost t0 = nb.take(i as int);
            let ghost t1 = nb.take(i + 1);
            proof {
                lemma_take_one_more_contains(nb, i as int);
            }
            assert forall|x: u32| possible@.contains(x) <==> (t1.contains(x) && !route@.contains(x)) by {
                if x != n {
                    assert(possible@.contains(x) <==> before.contains(x));
                }
            }
            i = i + 1;
        }
        assert(nb.take(nb.len() as int) =~= nb);
        if possible.len() > 0 {
            assert(possible@.to_set() =~= fresh);
            assert(possible@.contains(possible@[0]));
            assert(fresh.contains(possible@[0]));
            assert(nb.to_set().contains(possible@[0]));
            assert(nb.len() > 0);
            possible
        } else {
            assert(fresh =~= Set::<u32>::empty()) by {
                assert forall|n: u32| !fresh.contains(n) by {
                    if fresh.contains(n) {
                        assert(possible@.contains(n));
                    }
                }
            }
            let r = self.neighbour_nodes.clone();
            assert(r@ =~= nb);
            proof {
                if nb.len() > 0 {
                    assert(nb.to_set().contains(nb[0]));
                }
            }
            r
        }
    }


    /// The neighbour a walk moves to: a random one of `neighbour_candidates`;
    /// `None` for a node without neighbours.
    pub fn get_neighbour_node(&self, route: &Vec<u32>) -> (r: Option<u32>)
        ensures
            r is None <==> self.neighbours().len() == 0,
            r matches Some(n) ==> candidates(self.neighbours(), route@).contains(n),
    {
        let possible = self.neighbour_candidates(route);
        let r = choose_one(&possible);
        proof {
            if r is Some {
                assert(possible@.to_set().contains(r->0));
            }
        }
        r
    }

    /// Step A of a tick: every pending request older than the window is
    /// retried once (sequence 2, sent anew at `tick` to this node itself), and
    /// dropped for good when its retry is that old too.
    pub fn expire_requests(&mut self, network: &mut Network, tick: u32)
        requires
            old(self).wf(),
        ensures
            final(self).same_place(*old(self)),
            final(self).wf(),
            retried(*old(self), *final(self), *old(network), *final(network), tick),
            old(network).within_clock() ==> final(network).within_clock(),
    {
        let ghost pending0 = self.pending();
        let ghost w = self.window();
        let ghost me = self.id;
        let ghost q0 = network.queue(me);
        let ghost mut sent: Seq<u32> = Seq::empty();
        let ids = key_list(&self.request_messages);
        let max_hops: u64 = self.options.request_max_hops as u64;
        let multiplier: u64 = self.options.request_retry_multiplier as u64;
        assert(max_hops * multiplier <= 0xffff_ffffu64 * 0xffff_ffffu64) by (nonlinear_arith)
            requires
                max_hops <= 0xffff_ffffu64,
                multiplier <= 0xffff_ffffu64,
        ;
        let window: u64 = max_hops * multiplier;
        let mut i: usize = 0;
        while i < ids.len()
            invariant
                i <= ids@.len(),
                ids@.to_set() == pending0.dom(),
                ids@.no_duplicates(),
                self.same_place(*old(self)),
                self.routes() == old(self).routes(),
                self.events() == old(self).events(),
                w == self.window(),
                window == w,
                window <= 0xffff_ffffu64 * 0xffff_ffffu64,
                me == self.id,
                self.pending() == expired_on(pending0, ids@.take(i as int).to_set(), tick, w),
                sent.no_duplicates(),
                sent.to_set() == ids@.take(i as int).to_set().filter(
                    |id: u32| pending0.contains_key(id) && is_retried(pending0[id], tick, w),
                ),
                network.queue(me) == q0 + retry_messages(pending0, sent, tick),
                forall|n: u32| n != me ==> #[trigger] network.queue(n) == old(network).queue(n),
                old(network).within_clock() ==> network.within_clock(),
                forall|r: u32| #[trigger] pending0.contains_key(r) ==> {
                    &&& pending0[r].id == r
                    &&& 1 <= pending0[r].sequence <= 2
                    &&& pending0[r].hops == 0
                },
            decreases ids@.len() - i,
        {
            let id = ids[i];
            let ghost done = ids@.take(i as int).to_set();
            let ghost done1 = ids@.take(i + 1).to_set();
            proof {
                lemma_take_one_more(ids@, i as int);
            }
            assert(ids@.to_set().contains(id)) by {
                assert(ids@.contains(id)) by {
                    assert(ids@[i as int] == id);
                }
            }
            assert(self.pending().contains_key(id));
            assert(self.pending()[id] == pending0[id]);
            let ghost pm = pending0[id];
            let due: bool;
            let abandon: bool;
            let mut resent: Option<RequestMessage> = None;
            match self.request_messages.get(&id) {
                Some(m) => {
                    assert(m@ == pm);
                    due = (m.tick as u64) + window < tick as u64;
                    abandon = m.sequence > 1;
                    if due && !abandon {
                        resent = Some(RequestMessage::new(
                            tick,
                            m.hops,
                            m.route.clone(),
                            m.id,
                            m.sequence + 1,
                            m.event_id,
                            false,
                        ));
                    }
                },
                None => {
                    due = false;
                    abandon = false;
                },
            }
            assert(due == is_due(pm, tick, w));
            assert(due ==> (abandon == (pm.sequence > 1)));
            let ghost pb = self.pending();
            let ghost sent0 = sent;
            if due && abandon {
                let ghost before = self.request_messages@;
                self.request_messages.remove(&id);
                assert(self.request_messages@ == before.remove(id));
                assert(self.pending() =~= pb.remove(id));
                assert(self.pending() =~= expired_on(pending0, done1, tick, w));
            } else if due {
                let message = resent.unwrap();
                assert(message@ == retry_of(pm, tick));
                self.request_messages.insert(id, message.duplicate());
                assert(self.pending() =~= pb.insert(id, message@));
                assert(self.pending() =~= expired_on(pending0, done1, tick, w));
                network.send(self.id, Message::RequestMessage(message));
                proof {
                    sent = sent.push(id);
                    sent0.lemma_push_to_set_commute(id);
                    assert(retry_messages(pending0, sent, tick) =~= retry_messages(pending0, sent0, tick).push(
                        MessageView::Request(retry_of(pending0[id], tick)),
                    ));
                    assert(sent0.to_set().contains(id) == false) by {
                        assert(!done.contains(id));
                        assert(sent0.to_set().subset_of(done));
                    }
                    assert(sent.no_duplicates()) by {
                        assert forall|a: int, b: int|
                            0 <= a < b < sent.len() implies sent[a] != sent[b] by {
                            if b == sent.len() - 1 {
                                assert(sent0.contains(sent[a]));
                            }
                        }
                    }
                }
            } else {
                assert(self.pending() =~= expired_on(pending0, done1, tick, w));
            }
            assert(sent.to_set() =~= done1.filter(
                |x: u32| pending0.contains_key(x) && is_retried(pending0[x], tick, w),
            )) by {
                assert(sent.to_set() =~= if due && !abandon {
                    sent0.to_set().insert(id)
                } else {
                    sent0.to_set()
                });
            }
            assert((q0 + retry_messages(pending0, sent0, tick)).push(MessageView::Request(retry_of(pending0[id], tick)))
                =~= q0 + retry_messages(pending0, sent0, tick).push(MessageView::Request(retry_of(pending0[id], tick))));
            i = i + 1;
        }
        assert(ids@.take(ids@.len() as int) =~= ids@);
        assert(sent.to_set() =~= retried_ids(pending0, tick, w));
        assert forall|r: u32| #[trigger] self.pending().contains_key(r) implies {
            &&& self.pending()[r].id == r
            &&& 1 <= self.pending()[r].sequence <= 2
            &&& self.pending()[r].hops == 0
        } by {
            assert(pending0.contains_key(r));
        }
    }

    /// Merges the advertisement of an agent into the routing table, and
    /// sends the agent on, with this node's own advertisement, while its walk
    /// has hops left.
    fn handle_agent(&mut self, network: &mut Network, tick: u32, message: AgentMessage)
        requires
            old(self).wf(),
            old(self).within_clock(tick),
            MessageView::Agent(message@).within_clock(),
            message.tick <= tick < u32::MAX,
            old(network).within_clock(),
        ensures
            final(self).same_place(*old(self)),
            final(self).wf(),
            final(self).within_clock(tick),
            agent_handled(*old(self), *final(self), *old(network), *final(network), message@, tick),
            final(network).within_clock(),
    {
        let ghost local = self.routes();
        let ghost adv = message.routes@;
        assert(forall|e: u32| #[trigger] adv.contains_key(e) ==> adv[e].shortest_distance <= message.tick
            && adv[e].event_id == e) by {
            let mv = MessageView::Agent(message@);
            assert(mv.within_clock());
            if let MessageView::Agent(m) = mv {
                assert(m.routes == adv);
            }
        }
        let ks = key_list(&message.routes);
        let mut i: usize = 0;
        while i < ks.len()
            invariant
                i <= ks@.len(),
                ks@.to_set() == adv.dom(),
                ks@.no_duplicates(),
                adv == message.routes@,
                self.same_place(*old(self)),
                self.events() == old(self).events(),
                self.pending() == old(self).pending(),
                self.routes() == merged_on(local, adv, ks@.take(i as int).to_set()),
            decreases ks@.len() - i,
        {
            let e = ks[i];
            proof {
                lemma_take_one_more(ks@, i as int);
                assert(ks@.contains(e)) by {
                    assert(ks@[i as int] == e);
                }
            }
            let ghost done = ks@.take(i as int).to_set();
            let ghost pb = self.routes();
            assert(adv.contains_key(e));
            assert(pb.contains_key(e) == local.contains_key(e));
            assert(pb.contains_key(e) ==> pb[e] == local[e]);
            let advertised: Route = *message.routes.get(&e).unwrap();
            let replacement: Option<Route> = match self.routes.get(&e) {
                Some(l) => {
                    if advertised.shortest_distance < l.shortest_distance {
                        Some(Route::new(l.event_id, advertised.node_id, advertised.shortest_distance))
                    } else {
                        None
                    }
                },
                None => Some(advertised),
            };
            match replacement {
                Some(r) => {
                    self.routes.insert(e, r);
                },
                None => {},
            }
            assert(self.routes() =~= merged_on(local, adv, done.insert(e)));
            i = i + 1;
        }
        assert(ks@.take(ks@.len() as int) =~= ks@);
        assert(self.routes() =~= merged_routes(local, adv));
        assert(self.wf() && self.within_clock(tick)) by {
            assert forall|e: u32| #[trigger] self.routes().contains_key(e) implies self.routes()[e].event_id == e
                && self.routes()[e].shortest_distance <= tick by {
                if adv.contains_key(e) {
                    assert(adv[e].event_id == e);
                }
            }
            assert forall|e: u32| #[trigger] self.events().contains_key(e) implies {
                &&& self.routes().contains_key(e)
                &&& self.routes()[e].shortest_distance == 0
                &&& self.routes()[e].node_id == self.node_id()
            } by {
                assert(old(self).events().contains_key(e));
                assert(local.contains_key(e));
            }
        }
        proof {
            assert forall|e: u32| #[trigger] local.contains_key(e) implies self.routes().contains_key(e)
                && self.routes()[e].shortest_distance <= local[e].shortest_distance by {}
        }
        let ghost routes = self.routes();
        let ks2 = key_list(&self.routes);
        let mut outgoing: HashMap<u32, Route> = HashMap::new();
        let mut j: usize = 0;
        while j < ks2.len()
            invariant
                j <= ks2@.len(),
                ks2@.to_set() == routes.dom(),
                ks2@.no_duplicates(),
                routes == self.routes(),
                self.within_clock(tick),
                tick < u32::MAX,
                outgoing@ == advertisement(routes, self.node_id()).restrict(ks2@.take(j as int).to_set()),
            decreases ks2@.len() - j,
        {
            let e = ks2[j];
            proof {
                lemma_take_one_more(ks2@, j as int);
                assert(ks2@.contains(e)) by {
                    assert(ks2@[j as int] == e);
                }
            }
            let ghost done = ks2@.take(j as int).to_set();
            let r: Route = *self.routes.get(&e).unwrap();
            outgoing.insert(e, Route::new(r.event_id, self.id, r.shortest_distance + 1));
            assert(outgoing@ =~= advertisement(routes, self.node_id()).restrict(done.insert(e)));
            j = j + 1;
        }
        assert(ks2@.take(ks2@.len() as int) =~= ks2@);
        assert(outgoing@ =~= advertisement(routes, self.node_id()));
        if message.hops < self.options.agent_max_hops {
            match self.get_neighbour_node(&message.route) {
                Some(target) => {
                    let route = with_last(&message.route, self.id);
                    let agent = AgentMessage::new(tick + 1, message.hops + 1, route, outgoing);
                    assert(Message::AgentMessage(agent)@ == forwarded_agent(message@, tick, self.node_id(), routes));
                    assert(Message::AgentMessage(agent)@.within_clock());
                    network.send(target, Message::AgentMessage(agent));
                },
                None => {},
            }
        }
    }

    /// Answers a request for an event detected here, or sends it on along a
    /// known route, or toward a random neighbour while its hop budget lasts.
    fn handle_request(&self, network: &mut Network, tick: u32, message: RequestMessage)
        requires
            self.wf(),
            MessageView::Request(message@).within_clock(),
            message.tick <= tick < u32::MAX,
            old(network).within_clock(),
        ensures
            request_handled(*self, *self, *old(network), *final(network), message@, tick),
            final(network).within_clock(),
    {
        match self.events.get(&message.event_id) {
            Some(event) => {
                let event: Event = *event;
                let path = reversed(&message.route);
                let response = ResponseMessage::new(
                    tick + 1,
                    0,
                    Vec::new(),
                    message.id,
                    path,
                    message.event_id,
                    event,
                );
                network.send(self.id, Message::ResponseMessage(response));
                return;
            },
            None => {},
        }
        if message.is_route_found || message.hops < self.options.request_max_hops {
            let (target, found) = match self.routes.get(&message.event_id) {
                Some(r) => (Some(r.node_id), true),
                None => (self.get_neighbour_node(&message.route), false),
            };
            match target {
                Some(target) => {
                    let route = with_last(&message.route, self.id);
                    let request = RequestMessage::new(
                        tick + 1,
                        message.hops + 1,
                        route,
                        message.id,
                        message.sequence,
                        message.event_id,
                        found,
                    );
                    network.send(target, Message::RequestMessage(request));
                },
                None => {},
            }
        }
    }

    /// Counts a response to a request this node still waits for, or passes
    /// it on to the next node of its path.
    fn handle_response(&mut self, network: &mut Network, tick: u32, message: ResponseMessage) -> (r:
        Option<Answer>)
        requires
            old(self).wf(),
            MessageView::Response(message@).within_clock(),
            message.tick <= tick < u32::MAX,
            old(network).within_clock(),
        ensures
            final(self).same_place(*old(self)),
            final(self).wf(),
            response_handled(*old(self), *final(self), *old(network), *final(network), message@, tick, r),
            final(network).within_clock(),
    {
        if self.request_messages.contains_key(&message.id) {
            let ghost pb = self.pending();
            self.request_messages.remove(&message.id);
            assert(self.pending() =~= pb.remove(message.id));
            assert forall|r: u32| #[trigger] self.pending().contains_key(r) implies {
                &&& self.pending()[r].id == r
                &&& 1 <= self.pending()[r].sequence <= 2
                &&& self.pending()[r].hops == 0
            } by {
                assert(pb.contains_key(r));
            }
            assert(self.routes() == old(self).routes());
            assert(self.events() == old(self).events());
            return Some(
                Answer {
                    event_id: message.event.id,
                    tick: message.event.tick,
                    position: message.event.position,
                    hops: message.hops,
                },
            );
        }
        if message.path.len() > 0 {
            let next = message.path[0];
            let route = with_last(&message.route, self.id);
            let path = without_first(&message.path);
            let response = ResponseMessage::new(
                tick + 1,
                message.hops + 1,
                route,
                message.id,
                path,
                message.event_id,
                message.event,
            );
            network.send(next, Message::ResponseMessage(response));
        }
        None
    }

    /// Step B of a tick: reacts to one delivered message. Like every message
    /// on the bus, it must keep its counters within its tick, which rules out
    /// an overflow of the hop count or of a distance.
    pub fn handle_message(&mut self, network: &mut Network, tick: u32, message: Message) -> (r:
        Option<Answer>)
        requires
            old(self).wf(),
            old(self).within_clock(tick),
            message@.within_clock(),
            message@.tick() <= tick < u32::MAX,
            old(network).within_clock(),
        ensures
            final(self).same_place(*old(self)),
            final(self).wf(),
            final(self).within_clock(tick),
            message_handled(*old(self), *final(self), *old(network), *final(network), message@, tick, r),
            routes_improved(old(self).routes(), final(self).routes()),
            final(network).within_clock(),
    {
        match message {
            Message::AgentMessage(m) => {
                self.handle_agent(network, tick, m);
                None
            },
            Message::RequestMessage(m) => {
                self.handle_request(network, tick, m);
                None
            },
            Message::ResponseMessage(m) => self.handle_response(network, tick, m),
        }
    }

    /// One tick of this node: Step A, then Step B on the message, if any,
    /// that the bus delivers to it at `tick`; returns the answer counted.
    pub fn step(&mut self, network: &mut Network, tick: u32) -> (r: Option<Answer>)
        requires
            old(self).wf(),
            old(self).within_clock(tick),
            old(network).within_clock(),
            tick < u32::MAX,
        ensures
            final(self).same_place(*old(self)),
            final(self).wf(),
            final(self).within_clock(tick),
            final(self).events() == old(self).events(),
            routes_improved(old(self).routes(), final(self).routes()),
            answered(old(self).pending(), final(self).pending(), tick, old(self).window(), r is Some),
            step_between(*old(self), *final(self), *old(network), *final(network), tick, r),
            forall|id: u32| #[trigger]
                final(self).pending().contains_key(id) ==> old(self).pending().contains_key(id),
            final(network).within_clock(),
    {
        self.expire_requests(network, tick);
        let ghost mid = *self;
        let ghost net_mid = *network;
        let ghost expired_pending = self.pending();
        match network.receive(tick, self.id) {
            Some(message) => {
                let ghost net_taken = *network;
                let r = self.handle_message(network, tick, message);
                proof {
                    if let MessageView::Response(m) = message@ {
                        if r is Some {
                            assert(expired_pending.contains_key(m.id));
                        }
                    }
                    assert(Network::taken(net_mid, net_taken, mid.node_id()));
                    assert(delivered(mid, *self, net_mid, *network, tick, r));
                    assert(retried(*old(self), mid, *old(network), net_mid, tick));
                    assert(step_between(*old(self), *self, *old(network), *network, tick, r));
                }
                r
            },
            None => {
                assert(delivered(mid, *self, net_mid, *network, tick, None));
                assert(retried(*old(self), mid, *old(network), net_mid, tick));
                assert(step_between(*old(self), *self, *old(network), *network, tick, None));
                None
            },
        }
    }

    /// One tick of this node, as `step`; returns the number of answers
    /// counted, 0 or 1.
    pub fn update(&mut self, network: &mut Network, tick: u32) -> (r: u32)
        requires
            old(self).wf(),
            old(self).within_clock(tick),
            old(network).within_clock(),
            tick < u32::MAX,
        ensures
            final(self).same_place(*old(self)),
            final(self).wf(),
            final(self).within_clock(tick),
            final(self).events() == old(self).events(),
            routes_improved(old(self).routes(), final(self).routes()),
            r <= 1,
            answered(old(self).pending(), final(self).pending(), tick, old(self).window(), r == 1),
            exists|answer: Option<Answer>|
                #[trigger] step_between(*old(self), *final(self), *old(network), *final(network), tick, answer)
                    && (r == 1 <==> answer is Some),
            forall|id: u32| #[trigger]
                final(self).pending().contains_key(id) ==> old(self).pending().contains_key(id),
            final(network).within_clock(),
    {
        let answer = self.step(network, tick);
        match answer {
            Some(_) => 1,
            None => 0,
        }
    }

    pub fn get_id(&self) -> (r: u32)
        ensures
            r == self.node_id(),
    {
        self.id
    }

    pub fn get_position(&self) -> (r: Position)
        ensures
            r == self.place(),
    {
        self.position
    }

    /// Sets the neighbours, once the topology is known.
    pub fn set_neighbour_nodes(&mut self, neighbour_nodes: Vec<u32>)
        ensures
            final(self).neighbours() == neighbour_nodes@,
            final(self).node_id() == old(self).node_id(),
            final(self).place() == old(self).place(),
            final(self).options() == old(self).options(),
            final(self).routes() == old(self).routes(),
            final(self).events() == old(self).events(),
            final(self).pending() == old(self).pending(),
            old(self).wf() ==> final(self).wf(),
            forall|t: u32| old(self).within_clock(t) ==> #[trigger] final(self).within_clock(t),
    {
        self.neighbour_nodes = neighbour_nodes;
    }

    /// The route known toward `event_id`.
    pub fn route(&self, event_id: u32) -> (r: Option<Route>)
        ensures
            r is Some <==> self.routes().contains_key(event_id),
            r matches Some(x) ==> x == self.routes()[event_id],
    {
        match self.routes.get(&event_id) {
            Some(x) => Some(*x),
            None => None,
        }
    }

    /// The event `event_id`, where it was detected here.
    pub fn event(&self, event_id: u32) -> (r: Option<Event>)
        ensures
            r is Some <==> self.events().contains_key(event_id),
            r matches Some(x) ==> x == self.events()[event_id],
    {
        match self.events.get(&event_id) {
            Some(x) => Some(*x),
            None => None,
        }
    }

    /// The sequence number of pending request `id`: 1 before its retry, 2 after.
    pub fn pending_sequence(&self, id: u32) -> (r: Option<u32>)
        ensures
            r is Some <==> self.pending().contains_key(id),
            r matches Some(x) ==> x == self.pending()[id].sequence,
    {
        match self.request_messages.get(&id) {
            Some(m) => Some(m.sequence),
            None => None,
        }
    }

    /// The ids of the pending requests.
    pub fn pending_ids(&self) -> (r: Vec<u32>)
        ensures
            r@.to_set() == self.pending().dom(),
            r@.no_duplicates(),
    {
        let r = key_list(&self.request_messages);
        assert(self.pending().dom() =~= self.request_messages@.dom());
        r
    }
}

/// The pending table went from `before` to `after` in one tick at `tick`:
/// the retry and expiry pass, and, where an answer was counted, the removal
/// of the one request it answered.
pub open spec fn answered(
    before: Map<u32, RequestView>,
    after: Map<u32, RequestView>,
    tick: u32,
    window: int,
    counted: bool,
) -> bool {
    if counted {
        exists|id: u32|
            #[trigger] expired(before, tick, window).contains_key(id) && after == expired(
                before,
                tick,
                window,
            ).remove(id)
    } else {
        after == expired(before, tick, window)
    }
}

/// Over any number of steps, known distances only shrink: improvement is
/// transitive.
pub proof fn lemma_routes_improved_transitive(
    a: Map<u32, Route>,
    b: Map<u32, Route>,
    c: Map<u32, Route>,
)
    requires
        routes_improved(a, b),
        routes_improved(b, c),
    ensures
        routes_improved(a, c),
{
}

/// A bound on the distances stays true as the clock advances.
pub proof fn lemma_within_later_clock(node: Node, earlier: u32, later: u32)
    requires
        node.within_clock(earlier),
        earlier <= later,
    ensures
        node.within_clock(later),
{
}

/// The retry and expiry pass never adds a request to the pending table.
pub proof fn lemma_expiry_adds_no_request(pending: Map<u32, RequestView>, tick: u32, window: int, id: u32)
    requires
        expired(pending, tick, window).contains_key(id),
    ensures
        pending.contains_key(id),
{
}

/// A response is counted at most once: once a response to request `r.id`
/// was counted, a later response with the same id finds nothing pending and
/// is not counted, whatever retry and expiry pass came in between.
pub proof fn lemma_answer_counted_once(
    n0: Node,
    n1: Node,
    n2: Node,
    n3: Node,
    net0: Network,
    net1: Network,
    net2: Network,
    net3: Network,
    first: ResponseView,
    second: ResponseView,
    tick1: u32,
    tick2: u32,
    tick3: u32,
    answer: Option<Answer>,
)
    requires
        response_handled(n0, n1, net0, net1, first, tick1, answer),
        answer is Some,
        retried(n1, n2, net1, net2, tick2),
        second.id == first.id,
    ensures
        !n1.pending().contains_key(first.id),
        !n2.pending().contains_key(first.id),
        forall|later: Option<Answer>|
            response_handled(n2, n3, net2, net3, second, tick3, later) ==> later is None,
{
    assert(!n1.pending().contains_key(first.id));
}

/// A request that is never answered leaves the pending table within two
/// timeout windows: the pass after the first window retries it, the pass
/// after the second drops it.
pub proof fn lemma_request_abandoned(
    n0: Node,
    n1: Node,
    n2: Node,
    net0: Network,
    net1: Network,
    net2: Network,
    id: u32,
    first: u32,
    second: u32,
)
    requires
        n0.wf(),
        n0.pending().contains_key(id),
        n0.pending()[id].tick + n0.window() < first,
        first + n0.window() < second,
        retried(n0, n1, net0, net1, first),
        retried(n1, n2, net1, net2, second),
    ensures
        n1.pending().contains_key(id) ==> n1.pending()[id].sequence == 2,
        !n2.pending().contains_key(id),
{
    assert(n0.window() >= 0) by (nonlinear_arith)
        requires
            n0.window() == n0.options().request_max_hops * n0.options().request_retry_multiplier,
    ;
    let p1 = n1.pending();
    assert(p1.contains_key(id) ==> p1[id].tick == first && p1[id].sequence == 2);
    assert(n1.window() == n0.window());
}

} // verus!
