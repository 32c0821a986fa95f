use sensornetwork::event::Event;
use sensornetwork::messages::{Message, ResponseMessage};
use sensornetwork::network::Network;
use sensornetwork::node::{Answer, Node, NodeOptions};
use sensornetwork::position::Position;
use sensornetwork::route::Route;
use sensornetwork::sensornetwork::{SensorNetwork, SensorNetworkOptions};

fn node_options(agent_max_hops: u32, request_max_hops: u32, multiplier: u32) -> NodeOptions {
    NodeOptions {
        agent_probability: 1,
        agent_max_hops,
        request_max_hops,
        request_retry_multiplier: multiplier,
    }
}

fn network_options(range_squared: u64) -> SensorNetworkOptions {
    SensorNetworkOptions {
        event_probability: 10000,
        agent_probability: 1,
        agent_max_hops: 50,
        request_ticks: 400,
        request_max_hops: 45,
        request_retry_multiplier: 8,
        neighbour_range_squared: Some(range_squared),
    }
}

/// Runs every node once per tick over `from..=to`; returns the answers with
/// the id of the node and the tick at which each was counted.
fn run(nodes: &mut Vec<Node>, network: &mut Network, from: u32, to: u32) -> Vec<(u32, u32, Answer)> {
    let mut answers = Vec::new();
    for tick in from..=to {
        for node in nodes.iter_mut() {
            if let Some(answer) = node.step(network, tick) {
                answers.push((node.id, tick, answer));
            }
        }
    }
    answers
}

#[test]
fn two_close_nodes_answer_once() {
    let positions = vec![Position::new(0, 0), Position::new(1, 0)];
    let built = SensorNetwork::with_ids(&positions, &vec![1, 2], network_options(4));
    assert_eq!(built.node(1).unwrap().neighbour_nodes, vec![2]);
    assert_eq!(built.node(2).unwrap().neighbour_nodes, vec![1]);

    let mut network = Network::new();
    let mut a = Node::new(1, Position::new(0, 0), node_options(3, 45, 8));
    let mut b = Node::new(2, Position::new(1, 0), node_options(3, 45, 8));
    a.set_neighbour_nodes(vec![2]);
    b.set_neighbour_nodes(vec![1]);
    let event = Event::new(77, 5, Position::new(0, 0));
    a.detect_event(&mut network, 5, event);
    let mut nodes = vec![a, b];
    assert!(run(&mut nodes, &mut network, 5, 9).is_empty());
    nodes[0].send_request_with_id(&mut network, 10, 77, 500);
    assert_eq!(nodes[0].pending_sequence(500), Some(1));
    let answers = run(&mut nodes, &mut network, 10, 40);
    assert_eq!(answers.len(), 1);
    let (node_id, tick, answer) = answers[0];
    assert_eq!(node_id, 1);
    assert!(tick <= 15);
    assert_eq!(
        answer,
        Answer { event_id: 77, tick: 5, position: Position::new(0, 0), hops: 0 }
    );
    assert_eq!(nodes[0].pending_sequence(500), None);
}

#[test]
fn line_of_three_routes_along_the_gradient() {
    let positions = vec![Position::new(0, 0), Position::new(2, 0), Position::new(4, 0)];
    let built = SensorNetwork::with_ids(&positions, &vec![1, 2, 3], network_options(4));
    assert_eq!(built.node(1).unwrap().neighbour_nodes, vec![2]);
    let mut middle = built.node(2).unwrap().neighbour_nodes.clone();
    middle.sort();
    assert_eq!(middle, vec![1, 3]);
    assert_eq!(built.node(3).unwrap().neighbour_nodes, vec![2]);

    let mut network = Network::new();
    let mut a = Node::new(1, Position::new(0, 0), node_options(2, 45, 8));
    let mut b = Node::new(2, Position::new(2, 0), node_options(2, 45, 8));
    let mut c = Node::new(3, Position::new(4, 0), node_options(2, 45, 8));
    a.set_neighbour_nodes(vec![2]);
    b.set_neighbour_nodes(vec![1, 3]);
    c.set_neighbour_nodes(vec![2]);
    c.detect_event(&mut network, 1, Event::new(9, 1, Position::new(4, 0)));
    let mut nodes = vec![a, b, c];
    assert!(run(&mut nodes, &mut network, 1, 9).is_empty());
    assert_eq!(nodes[2].route(9), Some(Route::new(9, 3, 0)));
    assert_eq!(nodes[1].route(9), Some(Route::new(9, 3, 1)));
    assert_eq!(nodes[0].route(9), Some(Route::new(9, 2, 2)));

    nodes[0].send_request_with_id(&mut network, 10, 9, 42);
    let answers = run(&mut nodes, &mut network, 10, 30);
    assert_eq!(answers.len(), 1);
    // A -> B -> C at ticks 10, 11, 12; C -> B -> A at ticks 13, 14, 15.
    let (node_id, tick, answer) = answers[0];
    assert_eq!(node_id, 1);
    assert_eq!(tick, 15);
    assert_eq!(
        answer,
        Answer { event_id: 9, tick: 1, position: Position::new(4, 0), hops: 2 }
    );
}

#[test]
fn request_without_route_is_retried_then_abandoned() {
    let mut network = Network::new();
    let mut a = Node::new(1, Position::new(0, 0), node_options(2, 1, 2));
    let mut b = Node::new(2, Position::new(1, 0), node_options(2, 1, 2));
    a.set_neighbour_nodes(vec![2]);
    b.set_neighbour_nodes(vec![1]);
    a.send_request_with_id(&mut network, 10, 5, 7);
    let mut nodes = vec![a, b];
    let mut answers = run(&mut nodes, &mut network, 10, 12);
    assert_eq!(nodes[0].pending_sequence(7), Some(1));
    answers.extend(run(&mut nodes, &mut network, 13, 13));
    assert_eq!(nodes[0].pending_sequence(7), Some(2));
    answers.extend(run(&mut nodes, &mut network, 14, 15));
    assert_eq!(nodes[0].pending_sequence(7), Some(2));
    answers.extend(run(&mut nodes, &mut network, 16, 16));
    assert_eq!(nodes[0].pending_sequence(7), None);
    answers.extend(run(&mut nodes, &mut network, 17, 40));
    assert!(answers.is_empty());
    assert!(nodes[0].pending_ids().is_empty());
    assert!(network.receive(1000, 1).is_none());
    assert!(network.receive(1000, 2).is_none());
}

#[test]
fn isolated_node_drops_what_it_cannot_forward() {
    let mut network = Network::new();
    let mut node = Node::new(1, Position::new(3, 3), node_options(5, 5, 8));
    node.detect_event(&mut network, 1, Event::new(8, 1, Position::new(3, 3)));
    node.send_request_with_id(&mut network, 1, 99, 3);
    assert_eq!(node.step(&mut network, 1), None);
    assert_eq!(node.step(&mut network, 2), None);
    assert!(network.receive(1000, 1).is_none());
    let response = ResponseMessage::new(4, 1, vec![6], 123, vec![], 8, Event::new(8, 1, Position::new(3, 3)));
    assert_eq!(node.handle_message(&mut network, 4, Message::ResponseMessage(response)), None);
    assert!(network.receive(1000, 1).is_none());
    assert_eq!(node.pending_sequence(3), Some(1));
}
