use vstd::prelude::*;
use std::collections::HashMap;
use crate::event::Event;
use crate::route::Route;

verus! {

/// A distance-vector advertisement on a random walk.
pub struct AgentMessage {
    pub tick: u32,
    pub hops: u32,
    pub route: Vec<u32>,
    pub routes: HashMap<u32, Route>,
}

/// A query for the event `event_id`.
pub struct RequestMessage {
    pub tick: u32,
    pub hops: u32,
    pub route: Vec<u32>,
    pub id: u32,
    pub sequence: u32,
    pub event_id: u32,
    pub is_route_found: bool,
}

/// The answer to request `id`, travelling back along `path`.
pub struct ResponseMessage {
    pub tick: u32,
    pub hops: u32,
    pub route: Vec<u32>,
    pub id: u32,
    pub path: Vec<u32>,
    pub event_id: u32,
    pub event: Event,
}

pub enum Message {
    AgentMessage(AgentMessage),
    RequestMessage(RequestMessage),
    ResponseMessage(ResponseMessage),
}

/// What an agent message carries, as plain values.
pub ghost struct AgentView {
    pub tick: u32,
    pub hops: u32,
    pub route: Seq<u32>,
    pub routes: Map<u32, Route>,
}

/// What a request message carries, as plain values.
pub ghost struct RequestView {
    pub tick: u32,
    pub hops: u32,
    pub route: Seq<u32>,
    pub id: u32,
    pub sequence: u32,
    pub event_id: u32,
    pub is_route_found: bool,
}

/// What a response message carries, as plain values.
pub ghost struct ResponseView {
    pub tick: u32,
    pub hops: u32,
    pub route: Seq<u32>,
    pub id: u32,
    pub path: Seq<u32>,
    pub event_id: u32,
    pub event: Event,
}

pub ghost enum MessageView {
    Agent(AgentView),
    Request(RequestView),
    Response(ResponseView),
}

impl MessageView {
    /// The tick from which the message may be delivered.
    pub open spec fn tick(self) -> u32 {
        match self {
            MessageView::Agent(m) => m.tick,
            MessageView::Request(m) => m.tick,
            MessageView::Response(m) => m.tick,
        }
    }

    pub open spec fn hops(self) -> u32 {
        match self {
            MessageView::Agent(m) => m.hops,
            MessageView::Request(m) => m.hops,
            MessageView::Response(m) => m.hops,
        }
    }

    /// No counter in the message has run ahead of its delivery tick: hop
    /// counts, and the distances an advertisement carries, grow by at most
    /// one per tick.
    pub open spec fn within_clock(self) -> bool {
        &&& self.hops() <= self.tick()
        &&& match self {
            MessageView::Agent(m) => forall|e: u32| #[trigger] m.routes.contains_key(e)
                ==> m.routes[e].shortest_distance <= m.tick && m.routes[e].event_id == e,
            _ => true,
        }
    }
}

impl View for AgentMessage {
    type V = AgentView;

    open spec fn view(&self) -> AgentView {
        AgentView { tick: self.tick, hops: self.hops, route: self.route@, routes: self.routes@ }
    }
}

impl View for RequestMessage {
    type V = RequestView;

    open spec fn view(&self) -> RequestView {
        RequestView {
            tick: self.tick,
            hops: self.hops,
            route: self.route@,
            id: self.id,
            sequence: self.sequence,
            event_id: self.event_id,
            is_route_found: self.is_route_found,
        }
    }
}

impl View for ResponseMessage {
    type V = ResponseView;

    open spec fn view(&self) -> ResponseView {
        ResponseView {
            tick: self.tick,
            hops: self.hops,
            route: self.route@,
            id: self.id,
            path: self.path@,
            event_id: self.event_id,
            event: self.event,
        }
    }
}

impl View for Message {
    type V = MessageView;

    open spec fn view(&self) -> MessageView {
        match self {
            Message::AgentMessage(m) => MessageView::Agent(m@),
            Message::RequestMessage(m) => MessageView::Request(m@),
            Message::ResponseMessage(m) => MessageView::Response(m@),
        }
    }
}

impl AgentMessage {
    pub fn new(tick: u32, hops: u32, route: Vec<u32>, routes: HashMap<u32, Route>) -> (r:
        AgentMessage)
        ensures
            r@ == (AgentView { tick, hops, route: route@, routes: routes@ }),
    {
        AgentMessage { tick, hops, route, routes }
    }
}

impl RequestMessage {
    pub fn new(
        tick: u32,
        hops: u32,
        route: Vec<u32>,
        id: u32,
        sequence: u32,
        event_id: u32,
        is_route_found: bool,
    ) -> (r: RequestMessage)
        ensures
            r@ == (RequestView {
                tick,
                hops,
                route: route@,
                id,
                sequence,
                event_id,
                is_route_found,
            }),
    {
        RequestMessage { tick, hops, route, id, sequence, event_id, is_route_found }
    }

    /// A copy of this request.
    pub fn duplicate(&self) -> (r: RequestMessage)
        ensures
            r@ == self@,
    {
        RequestMessage {
            tick: self.tick,
            hops: self.hops,
            route: self.route.clone(),
            id: self.id,
            sequence: self.sequence,
            event_id: self.event_id,
            is_route_found: self.is_route_found,
        }
    }
}

impl ResponseMessage {
    pub fn new(
        tick: u32,
        hops: u32,
        route: Vec<u32>,
        id: u32,
        path: Vec<u32>,
        event_id: u32,
        event: Event,
    ) -> (r: ResponseMessage)
        ensures
            r@ == (ResponseView { tick, hops, route: route@, id, path: path@, event_id, event }),
    {
        ResponseMessage { tick, hops, route, id, path, event_id, event }
    }
}

impl Message {
    /// The tick from which the message may be delivered.
    pub fn tick(&self) -> (r: u32)
        ensures
            r == self@.tick(),
    {
        match self {
            Message::AgentMessage(m) => m.tick,
            Message::RequestMessage(m) => m.tick,
            Message::ResponseMessage(m) => m.tick,
        }
    }
}

} // verus!
