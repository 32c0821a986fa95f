use std::collections::HashMap;
use sensornetwork::lists::fresh_id;

use sensornetwork::event::Event;
use sensornetwork::messages::{AgentMessage, Message, RequestMessage, ResponseMessage};
use sensornetwork::network::Network;
use sensornetwork::node::{Answer, Node, NodeOptions};
use sensornetwork::position::Position;
use sensornetwork::route::Route;
use sensornetwork::sensornetwork::{SensorNetwork, SensorNetworkOptions};

fn node_options(agent_max_hops: u32, request_max_hops: u32, multiplier: u32) -> NodeOptions {
    NodeOptions {
        agent_probability: 1,
        agent_max_hops,
        request_max_hops,
        request_retry_multiplier: multiplier,
    }
}

fn network_options(range_squared: u64) -> SensorNetworkOptions {
    SensorNetworkOptions {
        event_probability: 3,
        agent_probability: 2,
        agent_max_hops: 5,
        request_ticks: 2,
        request_max_hops: 4,
        request_retry_multiplier: 2,
        neighbour_range_squared: Some(range_squared),
    }
}

fn request(tick: u32, hops: u32, route: Vec<u32>, id: u32, event_id: u32, found: bool) -> Message {
    Message::RequestMessage(RequestMessage::new(tick, hops, route, id, 1, event_id, found))
}

#[test]
fn squared_distance_values() {
    let a = Position::new(0, 0);
    let b = Position::new(3, 4);
    assert_eq!(a.squared_distance_to(&b), 25);
    assert_eq!(b.squared_distance_to(&a), 25);
    assert_eq!(a.squared_distance_to(&a), 0);
    let far = Position::new(u32::MAX, 0);
    let other = Position::new(0, u32::MAX);
    let side = u32::MAX as u128;
    assert_eq!(far.squared_distance_to(&other), 2 * side * side);
}

#[test]
fn constructors_keep_fields() {
    let p = Position::new(7, 9);
    assert_eq!((p.x, p.y), (7, 9));
    let e = Event::new(1, 2, p);
    assert_eq!((e.id, e.tick, e.position), (1, 2, p));
    let r = Route::new(4, 5, 6);
    assert_eq!((r.event_id, r.node_id, r.shortest_distance), (4, 5, 6));
    let m = RequestMessage::new(1, 2, vec![3], 4, 5, 6, true);
    assert_eq!((m.tick, m.hops, m.route.clone(), m.id, m.sequence, m.event_id, m.is_route_found), (1, 2, vec![3], 4, 5, 6, true));
    let d = m.duplicate();
    assert_eq!((d.tick, d.route, d.id, d.sequence), (1, vec![3], 4, 5));
    let s = ResponseMessage::new(1, 2, vec![3], 4, vec![5], 6, e);
    assert_eq!((s.path, s.event_id, s.event), (vec![5], 6, e));
    let g = AgentMessage::new(1, 2, vec![3], HashMap::new());
    assert_eq!((g.tick, g.hops, g.route, g.routes.len()), (1, 2, vec![3], 0));
}

#[test]
fn bus_delivers_in_order_and_only_when_due() {
    let mut network = Network::new();
    assert!(network.receive(100, 1).is_none());
    network.send(1, request(5, 0, vec![], 10, 0, false));
    network.send(1, request(3, 0, vec![], 11, 0, false));
    network.send(2, request(1, 0, vec![], 12, 0, false));
    // The head is not due: the due message behind it waits.
    assert!(network.receive(4, 1).is_none());
    let first = network.receive(5, 1).unwrap();
    assert_eq!(first.tick(), 5);
    assert!(matches!(first, Message::RequestMessage(ref m) if m.id == 10));
    let second = network.receive(5, 1).unwrap();
    assert!(matches!(second, Message::RequestMessage(ref m) if m.id == 11));
    assert!(network.receive(5, 1).is_none());
    assert!(network.receive(0, 2).is_none());
    assert!(network.receive(1, 2).is_some());
}

#[test]
fn receive_never_returns_a_later_message() {
    let mut network = Network::new();
    for t in [4u32, 2, 9, 9, 1] {
        network.send(3, request(t, 0, vec![], t, 0, false));
    }
    let mut delivered = Vec::new();
    for tick in 0..12u32 {
        if let Some(m) = network.receive(tick, 3) {
            assert!(m.tick() <= tick);
            delivered.push(m.tick());
        }
    }
    assert_eq!(delivered, vec![4, 2, 9, 9, 1]);
}

#[test]
fn detected_event_has_route_of_distance_zero() {
    let mut network = Network::new();
    let mut node = Node::new(6, Position::new(1, 1), node_options(0, 4, 2));
    node.detect_event(&mut network, 3, Event::new(50, 3, Position::new(1, 1)));
    assert_eq!(node.route(50), Some(Route::new(50, 6, 0)));
    assert_eq!(node.event(50), Some(Event::new(50, 3, Position::new(1, 1))));
    // The agent started at the node itself.
    let agent = network.receive(3, 6).unwrap();
    assert!(matches!(agent, Message::AgentMessage(ref m) if m.tick == 3 && m.hops == 0 && m.route.is_empty() && m.routes.is_empty()));
    // An advertisement never lengthens the self route.
    let mut routes = HashMap::new();
    routes.insert(50, Route::new(50, 7, 0));
    let advert = AgentMessage::new(4, 0, vec![7], routes);
    node.handle_message(&mut network, 4, Message::AgentMessage(advert));
    assert_eq!(node.route(50), Some(Route::new(50, 6, 0)));
}

#[test]
fn agent_merge_keeps_shorter_routes() {
    let mut network = Network::new();
    let mut node = Node::new(1, Position::new(0, 0), node_options(0, 4, 2));
    let mut routes = HashMap::new();
    routes.insert(10, Route::new(10, 9, 3));
    node.handle_message(&mut network, 5, Message::AgentMessage(AgentMessage::new(5, 0, vec![9], routes)));
    assert_eq!(node.route(10), Some(Route::new(10, 9, 3)));

    let mut routes = HashMap::new();
    routes.insert(10, Route::new(10, 7, 2));
    routes.insert(11, Route::new(11, 7, 4));
    node.handle_message(&mut network, 6, Message::AgentMessage(AgentMessage::new(6, 0, vec![7], routes)));
    assert_eq!(node.route(10), Some(Route::new(10, 7, 2)));
    assert_eq!(node.route(11), Some(Route::new(11, 7, 4)));

    // A tie keeps the local route; a longer one too.
    let mut routes = HashMap::new();
    routes.insert(10, Route::new(10, 8, 2));
    routes.insert(11, Route::new(11, 8, 5));
    node.handle_message(&mut network, 7, Message::AgentMessage(AgentMessage::new(7, 0, vec![8], routes)));
    assert_eq!(node.route(10), Some(Route::new(10, 7, 2)));
    assert_eq!(node.route(11), Some(Route::new(11, 7, 4)));
    // At the hop limit the walk ends.
    assert!(network.receive(100, 7).is_none());
    assert!(network.receive(100, 8).is_none());
    assert!(network.receive(100, 9).is_none());
}

#[test]
fn agent_moves_on_with_own_advertisement() {
    let mut network = Network::new();
    let mut node = Node::new(2, Position::new(0, 0), node_options(4, 4, 2));
    node.set_neighbour_nodes(vec![1, 3]);
    node.detect_event(&mut network, 1, Event::new(20, 1, Position::new(0, 0)));
    assert!(network.receive(1, 2).is_some());
    let mut routes = HashMap::new();
    routes.insert(30, Route::new(30, 1, 2));
    node.handle_message(&mut network, 2, Message::AgentMessage(AgentMessage::new(2, 1, vec![1], routes)));
    // Node 1 is visited, so the walk goes to node 3.
    assert!(network.receive(100, 1).is_none());
    match network.receive(3, 3) {
        Some(Message::AgentMessage(m)) => {
            assert_eq!((m.tick, m.hops, m.route), (3, 2, vec![1, 2]));
            assert_eq!(m.routes.len(), 2);
            assert_eq!(m.routes.get(&20), Some(&Route::new(20, 2, 1)));
            assert_eq!(m.routes.get(&30), Some(&Route::new(30, 2, 3)));
        }
        _ => panic!("expected an agent"),
    }
}

#[test]
fn neighbour_choice_prefers_unvisited() {
    let mut node = Node::new(1, Position::new(0, 0), node_options(4, 4, 2));
    assert_eq!(node.get_neighbour_node(&vec![]), None);
    node.set_neighbour_nodes(vec![4, 5, 6]);
    for _ in 0..20 {
        assert_eq!(node.get_neighbour_node(&vec![4, 6]), Some(5));
        let any = node.get_neighbour_node(&vec![4, 5, 6]).unwrap();
        assert!([4, 5, 6].contains(&any));
        let fresh = node.get_neighbour_node(&vec![5]).unwrap();
        assert!(fresh == 4 || fresh == 6);
    }
}

#[test]
fn holder_answers_along_reversed_route() {
    let mut network = Network::new();
    let mut node = Node::new(3, Position::new(2, 2), node_options(4, 4, 2));
    node.detect_event(&mut network, 1, Event::new(40, 1, Position::new(2, 2)));
    assert!(network.receive(1, 3).is_some());
    node.handle_message(&mut network, 8, request(8, 2, vec![1, 2], 77, 40, true));
    match network.receive(9, 3) {
        Some(Message::ResponseMessage(m)) => {
            assert_eq!((m.tick, m.hops, m.id, m.event_id), (9, 0, 77, 40));
            assert!(m.route.is_empty());
            assert_eq!(m.path, vec![2, 1]);
            assert_eq!(m.event, Event::new(40, 1, Position::new(2, 2)));
        }
        _ => panic!("expected a response"),
    }
}

#[test]
fn request_follows_known_route_past_hop_budget() {
    let mut network = Network::new();
    let mut node = Node::new(2, Position::new(0, 0), node_options(0, 1, 2));
    node.set_neighbour_nodes(vec![1, 3]);
    let mut routes = HashMap::new();
    routes.insert(60, Route::new(60, 3, 1));
    node.handle_message(&mut network, 1, Message::AgentMessage(AgentMessage::new(1, 0, vec![3], routes)));
    node.handle_message(&mut network, 5, request(5, 3, vec![9, 8, 1], 12, 60, true));
    match network.receive(6, 3) {
        Some(Message::RequestMessage(m)) => {
            assert_eq!((m.tick, m.hops, m.id, m.sequence, m.event_id, m.is_route_found), (6, 4, 12, 1, 60, true));
            assert_eq!(m.route, vec![9, 8, 1, 2]);
        }
        _ => panic!("expected a request"),
    }
    // Without a route and over the budget it is dropped.
    node.handle_message(&mut network, 7, request(7, 1, vec![1], 13, 61, false));
    assert!(network.receive(100, 1).is_none());
    assert!(network.receive(100, 3).is_none());
    // Without a route within the budget it goes to a random neighbour, flagged as not found.
    node.handle_message(&mut network, 8, request(8, 0, vec![1], 14, 61, false));
    match network.receive(9, 3) {
        Some(Message::RequestMessage(m)) => assert!(!m.is_route_found && m.hops == 1),
        _ => panic!("expected a request"),
    }
}

#[test]
fn response_is_passed_on_and_counted_once() {
    let mut network = Network::new();
    let mut relay = Node::new(2, Position::new(0, 0), node_options(0, 4, 2));
    let event = Event::new(5, 2, Position::new(9, 9));
    let response = ResponseMessage::new(3, 1, vec![3], 21, vec![1, 0], 5, event);
    assert_eq!(relay.handle_message(&mut network, 3, Message::ResponseMessage(response)), None);
    match network.receive(4, 1) {
        Some(Message::ResponseMessage(m)) => {
            assert_eq!((m.tick, m.hops, m.id), (4, 2, 21));
            assert_eq!(m.route, vec![3, 2]);
            assert_eq!(m.path, vec![0]);
        }
        _ => panic!("expected a response"),
    }

    let mut origin = Node::new(1, Position::new(0, 0), node_options(0, 4, 2));
    origin.send_request_with_id(&mut network, 1, 5, 21);
    let answer = origin.handle_message(&mut network, 4, Message::ResponseMessage(ResponseMessage::new(4, 2, vec![3, 2], 21, vec![], 5, event)));
    assert_eq!(answer, Some(Answer { event_id: 5, tick: 2, position: Position::new(9, 9), hops: 2 }));
    let again = origin.handle_message(&mut network, 5, Message::ResponseMessage(ResponseMessage::new(5, 2, vec![3, 2], 21, vec![], 5, event)));
    assert_eq!(again, None);
    assert_eq!(origin.pending_sequence(21), None);
}

#[test]
fn expiry_retries_then_drops() {
    let mut network = Network::new();
    let mut node = Node::new(1, Position::new(0, 0), node_options(0, 3, 2));
    node.send_request_with_id(&mut network, 0, 8, 100);
    assert!(network.receive(0, 1).is_some());
    // Window 3 * 2 = 6: due once the age exceeds 6.
    node.expire_requests(&mut network, 6);
    assert_eq!(node.pending_sequence(100), Some(1));
    assert!(network.receive(100, 1).is_none());
    node.expire_requests(&mut network, 7);
    assert_eq!(node.pending_sequence(100), Some(2));
    match network.receive(7, 1) {
        Some(Message::RequestMessage(m)) => {
            assert_eq!((m.tick, m.hops, m.id, m.sequence, m.event_id, m.is_route_found), (7, 0, 100, 2, 8, false));
        }
        _ => panic!("expected the retry"),
    }
    node.expire_requests(&mut network, 13);
    assert_eq!(node.pending_sequence(100), Some(2));
    node.expire_requests(&mut network, 14);
    assert_eq!(node.pending_sequence(100), None);
    assert!(network.receive(100, 1).is_none());
}

#[test]
fn send_request_draws_an_id() {
    let mut network = Network::new();
    let mut node = Node::new(1, Position::new(0, 0), node_options(0, 3, 2));
    node.send_request(&mut network, 2, 33);
    let ids = node.pending_ids();
    assert_eq!(ids.len(), 1);
    match network.receive(2, 1) {
        Some(Message::RequestMessage(m)) => {
            assert_eq!(m.id, ids[0]);
            assert_eq!((m.tick, m.sequence, m.event_id), (2, 1, 33));
        }
        _ => panic!("expected the request"),
    }
}

#[test]
fn neighbour_relation_is_symmetric() {
    let positions = vec![
        Position::new(0, 0),
        Position::new(3, 4),
        Position::new(6, 8),
        Position::new(0, 5),
        Position::new(100, 100),
    ];
    let ids = vec![10, 20, 30, 40, 50];
    let net = SensorNetwork::with_ids(&positions, &ids, network_options(25));
    for &a in &ids {
        for &b in &ids {
            let ab = net.node(a).unwrap().neighbour_nodes.contains(&b);
            let ba = net.node(b).unwrap().neighbour_nodes.contains(&a);
            assert_eq!(ab, ba);
        }
    }
    let mut first = net.node(10).unwrap().neighbour_nodes.clone();
    first.sort();
    assert_eq!(first, vec![20, 40]);
    assert!(net.node(50).unwrap().neighbour_nodes.is_empty());
}

#[test]
fn repeated_id_keeps_later_position() {
    let positions = vec![Position::new(0, 0), Position::new(5, 5)];
    let net = SensorNetwork::with_ids(&positions, &vec![1, 1], network_options(4));
    assert_eq!(net.node_ids(), vec![1]);
    assert_eq!(net.node(1).unwrap().position, Position::new(5, 5));
}

#[test]
fn new_network_picks_four_sources() {
    let positions = vec![Position::new(0, 0), Position::new(1, 0), Position::new(2, 0)];
    let mut net = SensorNetwork::new(positions, network_options(1));
    let ids = net.node_ids();
    assert_eq!(ids.len(), 3);
    assert_eq!(net.request_sources().len(), 4);
    for s in net.request_sources() {
        assert!(ids.contains(s));
    }
    assert_eq!(net.get_tick(), 0);
    let mut total = 0;
    for _ in 0..40 {
        let before = net.detected_event_ids().clone();
        let answers = net.update_answers();
        assert!(answers.len() <= 3);
        total += answers.len();
        assert_eq!(&net.detected_event_ids()[..before.len()], &before[..]);
    }
    assert_eq!(net.get_tick(), 40);
    assert!(net.update() <= 3);
    assert!(total <= 3 * 40);
}

#[test]
fn empty_layout_has_no_sources() {
    let mut net = SensorNetwork::new(vec![], network_options(1));
    assert!(net.node_ids().is_empty());
    assert!(net.request_sources().is_empty());
    assert_eq!(net.update(), 0);
}

#[test]
fn candidates_are_unvisited_neighbours_or_all() {
    let mut node = Node::new(1, Position::new(0, 0), node_options(4, 4, 2));
    assert!(node.neighbour_candidates(&vec![2]).is_empty());
    node.set_neighbour_nodes(vec![4, 5, 6]);
    let mut fresh = node.neighbour_candidates(&vec![5, 9]);
    fresh.sort();
    assert_eq!(fresh, vec![4, 6]);
    let mut all = node.neighbour_candidates(&vec![6, 5, 4]);
    all.sort();
    assert_eq!(all, vec![4, 5, 6]);
}

#[test]
fn detection_without_agent_sends_nothing() {
    let mut network = Network::new();
    let mut node = Node::new(2, Position::new(4, 4), node_options(4, 4, 2));
    node.detect_event_with(&mut network, 7, Event::new(3, 7, Position::new(4, 4)), false);
    assert_eq!(node.route(3), Some(Route::new(3, 2, 0)));
    assert!(network.receive(100, 2).is_none());
    node.detect_event_with(&mut network, 8, Event::new(4, 8, Position::new(4, 4)), true);
    match network.receive(8, 2) {
        Some(Message::AgentMessage(m)) => assert_eq!((m.tick, m.hops), (8, 0)),
        _ => panic!("expected an agent"),
    }
}

#[test]
fn fresh_id_avoids_taken_values() {
    assert_eq!(fresh_id(&vec![3, 5], 7), 7);
    assert_eq!(fresh_id(&vec![3, 5], 5), 0);
    assert_eq!(fresh_id(&vec![0, 1, 2, 9], 9), 3);
    assert_eq!(fresh_id(&vec![], 9), 9);
}

#[test]
fn send_request_never_reuses_a_pending_id() {
    let mut network = Network::new();
    let mut node = Node::new(1, Position::new(0, 0), node_options(0, 3, 2));
    for _ in 0..50 {
        node.send_request(&mut network, 2, 33);
    }
    assert_eq!(node.pending_ids().len(), 50);
}

#[test]
fn new_network_has_one_node_per_position() {
    let positions = vec![Position::new(0, 0), Position::new(1, 0)];
    let net = SensorNetwork::new(positions, network_options(4));
    let ids = net.node_ids();
    assert_eq!(ids.len(), 2);
    let (a, b) = (ids[0], ids[1]);
    assert_ne!(a, b);
    assert_eq!(net.node(a).unwrap().neighbour_nodes, vec![b]);
    assert_eq!(net.node(b).unwrap().neighbour_nodes, vec![a]);
    for id in &ids {
        let node = net.node(*id).unwrap();
        assert!(node.pending_ids().is_empty());
        assert_eq!(node.id, *id);
    }
    let far = SensorNetwork::new(vec![Position::new(0, 0), Position::new(100, 0)], network_options(4));
    assert_eq!(far.node_ids().len(), 2);
    for id in far.node_ids() {
        assert!(far.node(id).unwrap().neighbour_nodes.is_empty());
    }
}

#[test]
fn detected_event_ids_stay_unique() {
    let positions = vec![Position::new(0, 0), Position::new(1, 0), Position::new(2, 0)];
    let options = SensorNetworkOptions { event_probability: 1, ..network_options(1) };
    let mut net = SensorNetwork::new(positions, options);
    for _ in 0..20 {
        net.update();
    }
    let mut ids = net.detected_event_ids().clone();
    assert_eq!(ids.len(), 60);
    ids.sort();
    ids.dedup();
    assert_eq!(ids.len(), 60);
}

#[test]
fn no_range_means_no_neighbours() {
    let options = SensorNetworkOptions { neighbour_range_squared: None, ..network_options(0) };
    let net = SensorNetwork::with_ids(&vec![Position::new(1, 1), Position::new(1, 1)], &vec![1, 2], options);
    assert!(net.node(1).unwrap().neighbour_nodes.is_empty());
    assert!(net.node(2).unwrap().neighbour_nodes.is_empty());
    let zero = SensorNetwork::with_ids(&vec![Position::new(1, 1), Position::new(1, 1)], &vec![1, 2], network_options(0));
    assert_eq!(zero.node(1).unwrap().neighbour_nodes, vec![2]);
}
