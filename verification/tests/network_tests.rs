use ray_cast::geom::Vec2i;
use ray_cast::network::{
    lines_to_nodes, Edge, EdgeState, GraphError, Node, NodeNetwork, Segment,
};

#[test]
fn nodes_get_fresh_identifiers() {
    let mut network = NodeNetwork::new();
    let a = network.add_node(Vec2i { x: 0, y: 0 });
    let b = network.add_node(Vec2i { x: 10, y: 0 });
    assert_eq!(a, 0);
    assert_eq!(b, 1);
    // identifiers are not reused after removal
    network.remove_node(a);
    let c = network.add_node(Vec2i { x: 5, y: 5 });
    assert_eq!(c, 2);
    assert_eq!(network.nodes.len(), 2);
}

#[test]
fn snapshot_resolves_edges() {
    let mut network = NodeNetwork::new();
    let a = network.add_node(Vec2i { x: 0, y: 0 });
    let b = network.add_node(Vec2i { x: 10, y: 0 });
    network.add_connection(a, b);
    let segments = network.get_all_connections().unwrap();
    assert_eq!(segments.len(), 1);
    assert_eq!(
        segments[0],
        Segment(
            Vec2i { x: 0, y: 0 },
            Vec2i { x: 10, y: 0 },
            EdgeState::Reflective
        )
    );
}

#[test]
fn snapshot_reports_missing_endpoint() {
    let mut network = NodeNetwork::new();
    let a = network.add_node(Vec2i { x: 0, y: 0 });
    let b = network.add_node(Vec2i { x: 10, y: 0 });
    network.add_connection(a, b);
    network.remove_node(b);
    // removing the node also removed its edges; a dangling edge must be
    // built by hand to simulate corruption
    network.connections.push(Edge { a, b, state: EdgeState::Reflective });
    let err = network.get_all_connections().unwrap_err();
    assert_eq!(err, GraphError { edge: 0, node: b });
}

#[test]
fn duplicate_connections_are_not_added() {
    let mut network = NodeNetwork::new();
    let a = network.add_node(Vec2i { x: 0, y: 0 });
    let b = network.add_node(Vec2i { x: 10, y: 0 });
    network.add_connection(a, b);
    network.add_connection(a, b);
    network.add_connection(b, a);
    assert_eq!(network.connections.len(), 1);
}

#[test]
fn removing_a_node_removes_its_edges() {
    let mut network = NodeNetwork::new();
    let a = network.add_node(Vec2i { x: 0, y: 0 });
    let b = network.add_node(Vec2i { x: 10, y: 0 });
    let c = network.add_node(Vec2i { x: 0, y: 10 });
    network.add_connection(a, b);
    network.add_connection(b, c);
    network.add_connection(a, c);
    network.remove_node(b);
    assert_eq!(network.connections.len(), 1);
    assert_eq!(network.connections[0].a, a);
    assert_eq!(network.connections[0].b, c);
}

#[test]
fn clean_empties_the_scene() {
    let mut network = NodeNetwork::new();
    let a = network.add_node(Vec2i { x: 0, y: 0 });
    let b = network.add_node(Vec2i { x: 10, y: 0 });
    network.add_connection(a, b);
    network.clean();
    assert_eq!(network.nodes.len(), 0);
    assert_eq!(network.connections.len(), 0);
    assert_eq!(network.key, 0);
}

#[test]
fn edge_state_cycles_through_materials() {
    let mut edge = Edge::new(0, 1);
    assert_eq!(edge.state, EdgeState::Reflective);
    edge.cycle_state();
    assert_eq!(edge.state, EdgeState::Absorptive);
    edge.cycle_state();
    assert_eq!(edge.state, EdgeState::Transparent);
    edge.cycle_state();
    assert_eq!(edge.state, EdgeState::Reflective);
    edge.set_state(EdgeState::Transparent);
    assert_eq!(edge.state, EdgeState::Transparent);
}

#[test]
fn node_contains_points_within_radius() {
    let node = Node::new(Vec2i { x: 10, y: 10 }, 5);
    assert!(node.contains(Vec2i { x: 13, y: 14 }));
    assert!(node.contains(Vec2i { x: 15, y: 10 }));
    assert!(!node.contains(Vec2i { x: 14, y: 14 }));
    let small = Node::new_default_radius(Vec2i { x: 0, y: 0 });
    assert_eq!(small.radius, 8);
}

#[test]
fn point_picks_edge_within_half_thickness() {
    let a = Vec2i { x: 0, y: 0 };
    let b = Vec2i { x: 10, y: 0 };
    // three units from the line: picked at thickness six, not at five
    assert!(NodeNetwork::point_line_collision(Vec2i { x: 5, y: 3 }, a, b, 6));
    assert!(!NodeNetwork::point_line_collision(Vec2i { x: 5, y: 3 }, a, b, 5));
    // beyond the endpoint, the distance is to the endpoint itself
    assert!(NodeNetwork::point_line_collision(Vec2i { x: -4, y: 0 }, a, b, 8));
    assert!(!NodeNetwork::point_line_collision(Vec2i { x: -5, y: 0 }, a, b, 8));
    // a degenerate segment is picked by distance to its single point
    assert!(NodeNetwork::point_line_collision(Vec2i { x: 1, y: 0 }, a, a, 2));
}

#[test]
fn lines_become_nodes_and_edges() {
    let mut network = NodeNetwork::new();
    let lines = [
        (Vec2i { x: 0, y: 0 }, Vec2i { x: 10, y: 0 }),
        (Vec2i { x: 10, y: 0 }, Vec2i { x: 10, y: 10 }),
    ];
    lines_to_nodes(&mut network, &lines, Vec2i { x: 0, y: 0 }, EdgeState::Absorptive);
    // the shared corner is deduplicated: three nodes, two edges
    assert_eq!(network.nodes.len(), 3);
    assert_eq!(network.connections.len(), 2);
    assert_eq!(network.connections[0].state, EdgeState::Absorptive);
    assert_eq!(network.connections[1].state, EdgeState::Absorptive);
    let segments = network.get_all_connections().unwrap();
    assert_eq!(segments.len(), 2);
}

#[test]
fn lines_to_nodes_applies_the_offset() {
    let mut network = NodeNetwork::new();
    let lines = [(Vec2i { x: 0, y: 0 }, Vec2i { x: 5, y: 0 })];
    lines_to_nodes(&mut network, &lines, Vec2i { x: 100, y: 200 }, EdgeState::Reflective);
    let segments = network.get_all_connections().unwrap();
    assert_eq!(
        segments[0],
        Segment(
            Vec2i { x: 100, y: 200 },
            Vec2i { x: 105, y: 200 },
            EdgeState::Reflective
        )
    );
}
