//! The scene graph: nodes (points with identifiers), edges between them,
//! and the snapshot operation that resolves edges into the flat list of
//! segments the solver consumes.
//!
//! Node identifiers are handed out by a monotonic counter and never reused
//! within a session: removing a node retires its identifier.  An edge whose
//! endpoint identifier no longer resolves is a data-integrity fault that
//! the snapshot reports as an error instead of inventing a position.

use vstd::prelude::*;

verus! {

use crate::geom::{origin_ok, Vec2i};
use std::collections::HashMap;

broadcast use vstd::std_specs::hash::group_hash_axioms;

/// The optical behaviour of an edge: mirror, sink, or splitter.
#[derive(Debug, Clone, Copy, PartialEq, Eq, Structural, Default)]
pub enum EdgeState {
    #[default]
    Reflective,
    Absorptive,
    Transparent,
}

/// A segment of scene geometry: two endpoints and a material.
#[derive(PartialEq, Eq, Structural, Debug, Clone, Copy)]
pub struct Segment(pub Vec2i, pub Vec2i, pub EdgeState);

/// A point of scene geometry, placed by the editor; `radius` is its pick
/// radius.
#[derive(Clone, Copy, PartialEq, Eq, Structural, Debug)]
pub struct Node {
    pub position: Vec2i,
    pub radius: i64,
}

/// An edge between two nodes, carrying the optical material.
#[derive(Clone, Copy, PartialEq, Eq, Structural, Debug)]
pub struct Edge {
    pub a: usize,
    pub b: usize,
    pub state: EdgeState,
}

/// A snapshot fault: edge number `edge` refers to node identifier `node`,
/// which no longer exists.
#[derive(Clone, Copy, PartialEq, Eq, Structural, Debug)]
pub struct GraphError {
    pub edge: usize,
    pub node: usize,
}

impl Node {
    pub fn new(position: Vec2i, radius: i64) -> (n: Node)
        ensures
            n == (Node { position, radius }),
    {
        Node { position, radius }
    }

    pub fn new_default_radius(position: Vec2i) -> (n: Node)
        ensures
            n == (Node { position, radius: 8 }),
    {
        Node::new(position, 8)
    }

    /// Whether a point lies within this node's pick radius.
    pub fn contains(&self, position: Vec2i) -> (r: bool)
        requires
            origin_ok(self.position),
            origin_ok(position),
            0 <= self.radius <= 1_000_000,
        ensures
            r == ((position.x - self.position.x) * (position.x - self.position.x) + (position.y
                - self.position.y) * (position.y - self.position.y) <= self.radius * self.radius),
    {
        let dx: i128 = position.x as i128 - self.position.x as i128;
        let dy: i128 = position.y as i128 - self.position.y as i128;
        proof {
            crate::geom::lemma_mul_range(dx as int, dx as int, 4_000_000, 4_000_000);
            crate::geom::lemma_mul_range(dy as int, dy as int, 4_000_000, 4_000_000);
            crate::geom::lemma_mul_range(self.radius as int, self.radius as int, 1_000_000,
                1_000_000);
        }
        dx * dx + dy * dy <= self.radius as i128 * self.radius as i128
    }
}

/// What cycling a material gives: mirror to sink to splitter and around.
pub open spec fn spec_cycle(s: EdgeState) -> EdgeState {
    match s {
        EdgeState::Reflective => EdgeState::Absorptive,
        EdgeState::Absorptive => EdgeState::Transparent,
        EdgeState::Transparent => EdgeState::Reflective,
    }
}

impl Edge {
    pub fn new(a: usize, b: usize) -> (e: Edge)
        ensures
            e == (Edge { a, b, state: EdgeState::Reflective }),
    {
        Edge { a, b, state: EdgeState::Reflective }
    }

    pub fn new_with_state(a: usize, b: usize, state: EdgeState) -> (e: Edge)
        ensures
            e == (Edge { a, b, state }),
    {
        Edge { a, b, state }
    }

    pub fn set_state(&mut self, state: EdgeState)
        ensures
            *final(self) == (Edge { a: old(self).a, b: old(self).b, state }),
    {
        self.state = state;
    }

    /// Step the edge's material to the next one in the cycle.
    pub fn cycle_state(&mut self)
        ensures
            *final(self) == (Edge {
                a: old(self).a,
                b: old(self).b,
                state: spec_cycle(old(self).state),
            }),
    {
        let next: EdgeState = match self.state {
            EdgeState::Reflective => EdgeState::Absorptive,
            EdgeState::Absorptive => EdgeState::Transparent,
            EdgeState::Transparent => EdgeState::Reflective,
        };
        self.set_state(next);
    }
}

/// Both endpoints of an edge resolve to nodes.
pub open spec fn edge_ok(nodes: Map<usize, Node>, e: Edge) -> bool {
    nodes.contains_key(e.a) && nodes.contains_key(e.b)
}

/// The segment an edge resolves to.
pub open spec fn spec_resolve(nodes: Map<usize, Node>, e: Edge) -> Segment {
    Segment(nodes[e.a].position, nodes[e.b].position, e.state)
}

/// Some edge already connects `a` and `b`, in either orientation.
pub open spec fn spec_has_connection(s: Seq<Edge>, a: usize, b: usize) -> bool {
    exists|i: int|
        0 <= i < s.len() && ((#[trigger] s[i]).a == a && s[i].b == b || s[i].a == b && s[i].b == a)
}

/// Every node identifier in use is below the counter, so freshly handed-out
/// identifiers never collide with existing nodes.
pub open spec fn keys_bounded(n: NodeNetwork) -> bool {
    forall|k: usize| n.nodes@.contains_key(k) ==> k < n.key
}

/// The editable scene: nodes by identifier, edges, and the monotonic
/// identifier counter.
pub struct NodeNetwork {
    pub nodes: HashMap<usize, Node>,
    pub connections: Vec<Edge>,
    pub key: usize,
}

impl NodeNetwork {
    /// An empty scene.
    pub fn new() -> (n: NodeNetwork)
        ensures
            n.nodes@ == Map::<usize, Node>::empty(),
            n.connections@ == Seq::<Edge>::empty(),
            n.key == 0,
            keys_bounded(n),
    {
        NodeNetwork { nodes: HashMap::new(), connections: Vec::new(), key: 0 }
    }

    /// Remove every node and edge and retire nothing: the identifier
    /// counter starts over, as in a fresh scene.
    pub fn clean(&mut self)
        ensures
            final(self).nodes@ == Map::<usize, Node>::empty(),
            final(self).connections@ == Seq::<Edge>::empty(),
            final(self).key == 0,
            keys_bounded(*final(self)),
    {
        self.nodes.clear();
        self.connections.clear();
        self.key = 0;
    }

    /// Resolve every edge into a segment.  An edge with a missing endpoint
    /// is a data-integrity fault: the first one found is reported, with the
    /// missing node identifier, rather than being silently replaced by a
    /// default position.
    pub fn get_all_connections(&self) -> (r: Result<Vec<Segment>, GraphError>)
        ensures
            match r {
                Ok(v) => {
                    &&& v@.len() == self.connections@.len()
                    &&& forall|i: int|
                        0 <= i < v@.len() ==> edge_ok(self.nodes@, #[trigger] self.connections@[i])
                            && v@[i] == spec_resolve(self.nodes@, self.connections@[i])
                },
                Err(e) => {
                    &&& e.edge < self.connections@.len()
                    &&& !edge_ok(self.nodes@, self.connections@[e.edge as int])
                    &&& forall|j: int|
                        0 <= j < e.edge ==> edge_ok(self.nodes@, #[trigger] self.connections@[j])
                    &&& e.node == (if !self.nodes@.contains_key(
                        self.connections@[e.edge as int].a,
                    ) {
                        self.connections@[e.edge as int].a
                    } else {
                        self.connections@[e.edge as int].b
                    })
                },
            },
    {
        let mut connections: Vec<Segment> = Vec::new();
        let n: usize = self.connections.len();
        let mut i: usize = 0;
        while i < n
            invariant
                n == self.connections@.len(),
                0 <= i <= n,
                connections@.len() == i,
                forall|j: int|
                    0 <= j < i ==> edge_ok(self.nodes@, #[trigger] self.connections@[j])
                        && connections@[j] == spec_resolve(self.nodes@, self.connections@[j]),
            decreases n - i,
        {
            let edge: Edge = self.connections[i];
            let pos_a: Vec2i = match self.nodes.get(&edge.a) {
                Some(node) => node.position,
                None => {
                    return Err(GraphError { edge: i, node: edge.a });
                },
            };
            let pos_b: Vec2i = match self.nodes.get(&edge.b) {
                Some(node) => node.position,
                None => {
                    return Err(GraphError { edge: i, node: edge.b });
                },
            };
            connections.push(Segment(pos_a, pos_b, edge.state));
            i = i + 1;
        }
        Ok(connections)
    }

    /// Add a node with the default pick radius; returns its identifier.
    pub fn add_node(&mut self, position: Vec2i) -> (k: usize)
        requires
            old(self).key < usize::MAX,
        ensures
            k == old(self).key,
            final(self).nodes@ == old(self).nodes@.insert(k, Node { position, radius: 8 }),
            final(self).connections@ == old(self).connections@,
            final(self).key == old(self).key + 1,
            keys_bounded(*old(self)) ==> keys_bounded(*final(self)),
    {
        self.add_node_with_radius(position, 8)
    }

    /// Add a node with a given pick radius; returns its identifier.
    pub fn add_node_with_radius(&mut self, position: Vec2i, radius: i64) -> (k: usize)
        requires
            old(self).key < usize::MAX,
        ensures
            k == old(self).key,
            final(self).nodes@ == old(self).nodes@.insert(k, Node { position, radius }),
            final(self).connections@ == old(self).connections@,
            final(self).key == old(self).key + 1,
            keys_bounded(*old(self)) ==> keys_bounded(*final(self)),
    {
        let k: usize = self.key;
        self.nodes.insert(k, Node { position, radius });
        self.key = self.key + 1;
        k
    }

    /// Remove a node and every edge that references it; the identifier is
    /// retired, never reused.
    pub fn remove_node(&mut self, index: usize)
        ensures
            final(self).nodes@ == old(self).nodes@.remove(index),
            final(self).connections@ == old(self).connections@.filter(
                |e: Edge| e.a != index && e.b != index,
            ),
            final(self).key == old(self).key,
            keys_bounded(*old(self)) ==> keys_bounded(*final(self)),
    {
        let ghost pred = |e: Edge| e.a != index && e.b != index;
        let mut kept: Vec<Edge> = Vec::new();
        let n: usize = self.connections.len();
        let mut i: usize = 0;
        proof {
            reveal(Seq::filter);
            assert(self.connections@.subrange(0, 0) =~= Seq::<Edge>::empty());
        }
        while i < n
            invariant
                n == self.connections@.len(),
                0 <= i <= n,
                kept@ == self.connections@.subrange(0, i as int).filter(pred),
                pred == (|e: Edge| e.a != index && e.b != index),
            decreases n - i,
        {
            let edge: Edge = self.connections[i];
            proof {
                reveal(Seq::filter);
                assert(self.connections@.subrange(0, i + 1).drop_last() =~= self.connections@
                    .subrange(0, i as int));
                assert(self.connections@.subrange(0, i + 1).last() == edge);
            }
            if edge.a != index && edge.b != index {
                kept.push(edge);
            }
            i = i + 1;
        }
        proof {
            assert(self.connections@.subrange(0, n as int) =~= self.connections@);
        }
        self.connections = kept;
        self.nodes.remove(&index);
    }

    /// Connect two nodes by a reflective edge, unless some edge already
    /// connects them in either orientation (then nothing changes).  The
    /// endpoints are not checked for existence here; a dangling endpoint
    /// surfaces later, at snapshot time.
    pub fn add_connection(&mut self, prev_conn: usize, cur_conn: usize)
        ensures
            final(self).nodes@ == old(self).nodes@,
            final(self).key == old(self).key,
            spec_has_connection(old(self).connections@, prev_conn, cur_conn) ==> final(self)
                .connections@ == old(self).connections@,
            !spec_has_connection(old(self).connections@, prev_conn, cur_conn) ==> final(self)
                .connections@ == old(self).connections@.push(
                Edge { a: prev_conn, b: cur_conn, state: EdgeState::Reflective },
            ),
    {
        let n: usize = self.connections.len();
        let mut i: usize = 0;
        while i < n
            invariant
                n == self.connections@.len(),
                0 <= i <= n,
                forall|j: int|
                    0 <= j < i ==> !((#[trigger] self.connections@[j]).a == prev_conn
                        && self.connections@[j].b == cur_conn || self.connections@[j].a == cur_conn
                        && self.connections@[j].b == prev_conn),
            decreases n - i,
        {
            let edge: Edge = self.connections[i];
            if (edge.a == prev_conn && edge.b == cur_conn) || (edge.a == cur_conn && edge.b
                == prev_conn) {
                return ;
            }
            i = i + 1;
        }
        self.connections.push(Edge::new(prev_conn, cur_conn));
    }
}

/// Whether a point lies within `thickness / 2` of the segment `[a, b]`,
/// stated exactly over squared distances: against the nearer endpoint when
/// the point's projection falls outside the segment, else against the
/// perpendicular distance to the supporting line.
pub open spec fn spec_point_line_collision(p: Vec2i, a: Vec2i, b: Vec2i, thickness: i64) -> bool {
    let ex: int = b.x - a.x;
    let ey: int = b.y - a.y;
    let px: int = p.x - a.x;
    let py: int = p.y - a.y;
    let qx: int = p.x - b.x;
    let qy: int = p.y - b.y;
    let e2: int = ex * ex + ey * ey;
    let tnum: int = px * ex + py * ey;
    if e2 == 0 || tnum <= 0 {
        4 * (px * px + py * py) <= thickness * thickness
    } else if tnum >= e2 {
        4 * (qx * qx + qy * qy) <= thickness * thickness
    } else {
        let c: int = px * ey - py * ex;
        4 * (c * c) <= (thickness * thickness) * e2
    }
}

impl NodeNetwork {
    /// Whether a point picks a drawn edge of the given thickness.
    pub fn point_line_collision(point: Vec2i, line_start: Vec2i, line_end: Vec2i, thickness: i64)
        -> (r: bool)
        requires
            origin_ok(point),
            origin_ok(line_start),
            origin_ok(line_end),
            0 <= thickness <= 1_000_000,
        ensures
            r == spec_point_line_collision(point, line_start, line_end, thickness),
    {
        let ex: i128 = line_end.x as i128 - line_start.x as i128;
        let ey: i128 = line_end.y as i128 - line_start.y as i128;
        let px: i128 = point.x as i128 - line_start.x as i128;
        let py: i128 = point.y as i128 - line_start.y as i128;
        let qx: i128 = point.x as i128 - line_end.x as i128;
        let qy: i128 = point.y as i128 - line_end.y as i128;
        proof {
            crate::geom::lemma_mul_range(ex as int, ex as int, 4_000_000, 4_000_000);
            crate::geom::lemma_mul_range(ey as int, ey as int, 4_000_000, 4_000_000);
            crate::geom::lemma_mul_range(px as int, px as int, 4_000_000, 4_000_000);
            crate::geom::lemma_mul_range(py as int, py as int, 4_000_000, 4_000_000);
            crate::geom::lemma_mul_range(qx as int, qx as int, 4_000_000, 4_000_000);
            crate::geom::lemma_mul_range(qy as int, qy as int, 4_000_000, 4_000_000);
            crate::geom::lemma_mul_range(px as int, ex as int, 4_000_000, 4_000_000);
            crate::geom::lemma_mul_range(py as int, ey as int, 4_000_000, 4_000_000);
            crate::geom::lemma_mul_range(px as int, ey as int, 4_000_000, 4_000_000);
            crate::geom::lemma_mul_range(py as int, ex as int, 4_000_000, 4_000_000);
            crate::geom::lemma_mul_range(thickness as int, thickness as int, 1_000_000, 1_000_000);
        }
        let e2: i128 = ex * ex + ey * ey;
        let tnum: i128 = px * ex + py * ey;
        let th2: i128 = thickness as i128 * thickness as i128;
        if e2 == 0 || tnum <= 0 {
            4 * (px * px + py * py) <= th2
        } else if tnum >= e2 {
            4 * (qx * qx + qy * qy) <= th2
        } else {
            let c: i128 = px * ey - py * ex;
            proof {
                crate::geom::lemma_mul_range(c as int, c as int, 0x2000_0000_0000_0000, 0x2000_0000_0000_0000);
                crate::geom::lemma_mul_range(th2 as int, e2 as int, 0x10_0000_0000_0000, 0x2000_0000_0000_0000);
            }
            4 * (c * c) <= th2 * e2
        }
    }
}

/// A position packed into one key for the deduplication map: both
/// coordinates shifted to be nonnegative and combined reversibly.
pub open spec fn spec_pack_pos(x: int, y: int) -> int
    recommends
        -3_000_000 <= x <= 3_000_000,
        -3_000_000 <= y <= 3_000_000,
{
    (x + 0x8000_0000) * 0x1_0000_0000 + (y + 0x8000_0000)
}

/// Packing positions is reversible on the supported range: equal keys mean
/// equal positions.
proof fn lemma_pack_injective(x1: int, y1: int, x2: int, y2: int)
    requires
        -3_000_000 <= x1 <= 3_000_000,
        -3_000_000 <= y1 <= 3_000_000,
        -3_000_000 <= x2 <= 3_000_000,
        -3_000_000 <= y2 <= 3_000_000,
        spec_pack_pos(x1, y1) == spec_pack_pos(x2, y2),
    ensures
        x1 == x2,
        y1 == y2,
{
    let k: int = spec_pack_pos(x1, y1);
    vstd::arithmetic::div_mod::lemma_fundamental_div_mod_converse(k, 0x1_0000_0000, x1
        + 0x8000_0000, y1 + 0x8000_0000);
    vstd::arithmetic::div_mod::lemma_fundamental_div_mod_converse(k, 0x1_0000_0000, x2
        + 0x8000_0000, y2 + 0x8000_0000);
}

/// Every entry of the deduplication map points at a node of the network
/// that sits at the position the key packs.
pub open spec fn dedup_map_ok(m: Map<u64, usize>, net: NodeNetwork) -> bool {
    forall|kk: u64|
        #[trigger] m.contains_key(kk) ==> net.nodes@.contains_key(m[kk]) && -3_000_000
            <= net.nodes@[m[kk]].position.x <= 3_000_000 && -3_000_000
            <= net.nodes@[m[kk]].position.y <= 3_000_000 && spec_pack_pos(
            net.nodes@[m[kk]].position.x as int,
            net.nodes@[m[kk]].position.y as int,
        ) == kk
}

/// An endpoint of an input line, translated by the offset.
pub open spec fn spec_offset_point(p: Vec2i, offset: Vec2i) -> Vec2i {
    Vec2i { x: (offset.x + p.x) as i64, y: (offset.y + p.y) as i64 }
}

/// Some edge connects nodes sitting at the two given positions, in either
/// orientation.
pub open spec fn spec_connects(nodes: Map<usize, Node>, s: Seq<Edge>, p1: Vec2i, p2: Vec2i) -> bool {
    exists|j: int|
        0 <= j < s.len() && edge_ok(nodes, #[trigger] s[j]) && ((nodes[s[j].a].position == p1
            && nodes[s[j].b].position == p2) || (nodes[s[j].a].position == p2
            && nodes[s[j].b].position == p1))
}

/// Turn a list of line segments into scene geometry: one node per distinct
/// endpoint position (deduplicated within this call), translated by
/// `offset`, and one edge per line, set to the given material.  Existing
/// nodes are untouched; node identifiers keep growing monotonically.
pub fn lines_to_nodes(
    node_network: &mut NodeNetwork,
    lines: &[(Vec2i, Vec2i)],
    offset: Vec2i,
    edge_state: EdgeState,
)
    requires
        keys_bounded(*old(node_network)),
        old(node_network).key + 2 * lines@.len() <= usize::MAX,
        origin_ok(offset),
        forall|i: int|
            0 <= i < lines@.len() ==> crate::geom::coord_ok((#[trigger] lines@[i]).0)
                && crate::geom::coord_ok(lines@[i].1),
    ensures
        keys_bounded(*final(node_network)),
        final(node_network).key >= old(node_network).key,
        final(node_network).connections@.len() >= old(node_network).connections@.len(),
        forall|k: usize|
            #[trigger] old(node_network).nodes@.contains_key(k)
                ==> final(node_network).nodes@.contains_key(k)
                && final(node_network).nodes@[k] == old(node_network).nodes@[k],
        forall|i: int|
            0 <= i < lines@.len() ==> spec_connects(
                final(node_network).nodes@,
                final(node_network).connections@,
                spec_offset_point((#[trigger] lines@[i]).0, offset),
                spec_offset_point(lines@[i].1, offset),
            ),
        forall|j: int|
            old(node_network).connections@.len() <= j < final(node_network).connections@.len()
                ==> (#[trigger] final(node_network).connections@[j]).state == edge_state && edge_ok(
                final(node_network).nodes@,
                final(node_network).connections@[j],
            ),
{
    let ghost net0: NodeNetwork = *node_network;
    let mut node_map: HashMap<u64, usize> = HashMap::new();
    let n: usize = lines.len();
    let mut i: usize = 0;
    while i < n
        invariant
            n == lines@.len(),
            0 <= i <= n,
            keys_bounded(*node_network),
            node_network.key + 2 * (n - i) <= usize::MAX,
            node_network.key >= net0.key,
            node_network.connections@.len() >= net0.connections@.len(),
            origin_ok(offset),
            forall|j: int|
                0 <= j < lines@.len() ==> crate::geom::coord_ok((#[trigger] lines@[j]).0)
                    && crate::geom::coord_ok(lines@[j].1),
            forall|k: usize|
                #[trigger] net0.nodes@.contains_key(k) ==> node_network.nodes@.contains_key(k)
                    && node_network.nodes@[k] == net0.nodes@[k],
            dedup_map_ok(node_map@, *node_network),
            forall|j: int|
                0 <= j < i ==> spec_connects(
                    node_network.nodes@,
                    node_network.connections@,
                    spec_offset_point((#[trigger] lines@[j]).0, offset),
                    spec_offset_point(lines@[j].1, offset),
                ),
            forall|j: int|
                net0.connections@.len() <= j < node_network.connections@.len() ==> (
                #[trigger] node_network.connections@[j]).state == edge_state && edge_ok(
                    node_network.nodes@,
                    node_network.connections@[j],
                ),
        decreases n - i,
    {
        let line: (Vec2i, Vec2i) = lines[i];
        let pos1: Vec2i = Vec2i { x: offset.x + line.0.x, y: offset.y + line.0.y };
        let pos2: Vec2i = Vec2i { x: offset.x + line.1.x, y: offset.y + line.1.y };
        let ghost net_a: NodeNetwork = *node_network;
        let k1: usize = node_key(node_network, &mut node_map, pos1);
        let ghost net_b: NodeNetwork = *node_network;
        let k2: usize = node_key(node_network, &mut node_map, pos2);
        proof {
            assert forall|k: usize| #[trigger] net0.nodes@.contains_key(k) implies
                node_network.nodes@.contains_key(k) && node_network.nodes@[k]
                == net0.nodes@[k] by {
                assert(net_a.nodes@.contains_key(k) && net_a.nodes@[k] == net0.nodes@[k]);
                assert(net_b.nodes@.contains_key(k) && net_b.nodes@[k] == net_a.nodes@[k]);
            }
            assert(node_network.nodes@.contains_key(k1) && node_network.nodes@[k1].position
                == pos1) by {
                assert(net_b.nodes@.contains_key(k1) && net_b.nodes@[k1].position == pos1);
            }
            // earlier lines' connections survive the node additions
            assert forall|j: int|
                0 <= j < i implies spec_connects(
                node_network.nodes@,
                node_network.connections@,
                spec_offset_point(lines@[j].0, offset),
                spec_offset_point(lines@[j].1, offset),
            ) by {
                lemma_connects_monotone(net_a.nodes@, node_network.nodes@,
                    node_network.connections@, spec_offset_point(lines@[j].0, offset),
                    spec_offset_point(lines@[j].1, offset));
            }
            assert forall|j: int|
                net0.connections@.len() <= j < node_network.connections@.len() implies (
            #[trigger] node_network.connections@[j]).state == edge_state && edge_ok(
                node_network.nodes@,
                node_network.connections@[j],
            ) by {
                assert(edge_ok(net_a.nodes@, net_a.connections@[j]));
            }
        }
        let ghost net_c: NodeNetwork = *node_network;
        node_network.add_connection(k1, k2);
        let ghost net_d: NodeNetwork = *node_network;
        proof {
            assert(node_network.nodes@.contains_key(k2) && node_network.nodes@[k2].position
                == pos2);
            if spec_has_connection(net_c.connections@, k1, k2) {
                let jw: int = choose|jw: int|
                    0 <= jw < net_c.connections@.len() && ((#[trigger] net_c.connections@[jw]).a
                        == k1 && net_c.connections@[jw].b == k2 || net_c.connections@[jw].a == k2
                        && net_c.connections@[jw].b == k1);
                assert(edge_ok(node_network.nodes@, node_network.connections@[jw]));
            } else {
                let jw: int = net_c.connections@.len() as int;
                assert(node_network.connections@[jw] == (Edge {
                    a: k1,
                    b: k2,
                    state: EdgeState::Reflective,
                }));
                assert(edge_ok(node_network.nodes@, node_network.connections@[jw]));
            }
            assert(spec_connects(node_network.nodes@, node_network.connections@, pos1, pos2));
            // earlier lines' connections survive the possible push
            assert forall|j: int|
                0 <= j < i implies spec_connects(
                node_network.nodes@,
                node_network.connections@,
                spec_offset_point(lines@[j].0, offset),
                spec_offset_point(lines@[j].1, offset),
            ) by {
                lemma_connects_widen(node_network.nodes@, net_c.connections@,
                    node_network.connections@, spec_offset_point(lines@[j].0, offset),
                    spec_offset_point(lines@[j].1, offset));
            }
        }
        let len: usize = node_network.connections.len();
        if len > 0 {
            let last: Edge = node_network.connections[len - 1];
            node_network.connections.set(len - 1, Edge { a: last.a, b: last.b, state: edge_state });
        }
        proof {
            // changing one edge's material moves no endpoint, so every
            // line's connection survives, this one's included
            assert forall|j: int|
                0 <= j < i + 1 implies spec_connects(
                node_network.nodes@,
                node_network.connections@,
                spec_offset_point(lines@[j].0, offset),
                spec_offset_point(lines@[j].1, offset),
            ) by {
                let p1: Vec2i = spec_offset_point(lines@[j].0, offset);
                let p2: Vec2i = spec_offset_point(lines@[j].1, offset);
                if j == i {
                    assert(p1 == pos1 && p2 == pos2);
                }
                lemma_connects_set_state(node_network.nodes@, net_d.connections@,
                    node_network.connections@, p1, p2);
            }
            // every edge added by this call carries the requested material
            assert forall|j: int|
                net0.connections@.len() <= j < node_network.connections@.len() implies (
            #[trigger] node_network.connections@[j]).state == edge_state && edge_ok(
                node_network.nodes@,
                node_network.connections@[j],
            ) by {
                if j < net_d.connections@.len() - 1 {
                    assert(net_d.connections@[j] == node_network.connections@[j]);
                    if j < net_c.connections@.len() {
                        assert(net_c.connections@[j] == net_d.connections@[j]);
                        assert(edge_ok(net_c.nodes@, net_c.connections@[j]));
                    }
                }
            }
        }
        i = i + 1;
    }
}

/// A connection between two positions survives appending edges.
proof fn lemma_connects_widen(
    nodes: Map<usize, Node>,
    s1: Seq<Edge>,
    s2: Seq<Edge>,
    p1: Vec2i,
    p2: Vec2i,
)
    requires
        spec_connects(nodes, s1, p1, p2),
        s1.len() <= s2.len(),
        forall|j: int| 0 <= j < s1.len() ==> #[trigger] s2[j] == s1[j],
    ensures
        spec_connects(nodes, s2, p1, p2),
{
    let j: int = choose|j: int|
        0 <= j < s1.len() && edge_ok(nodes, #[trigger] s1[j]) && ((nodes[s1[j].a].position == p1
            && nodes[s1[j].b].position == p2) || (nodes[s1[j].a].position == p2
            && nodes[s1[j].b].position == p1));
    assert(edge_ok(nodes, s2[j]));
}

/// A connection between two positions survives changing edge materials:
/// only the endpoints matter.
proof fn lemma_connects_set_state(
    nodes: Map<usize, Node>,
    s1: Seq<Edge>,
    s2: Seq<Edge>,
    p1: Vec2i,
    p2: Vec2i,
)
    requires
        spec_connects(nodes, s1, p1, p2),
        s1.len() == s2.len(),
        forall|j: int|
            0 <= j < s1.len() ==> (#[trigger] s2[j]).a == s1[j].a && s2[j].b == s1[j].b,
    ensures
        spec_connects(nodes, s2, p1, p2),
{
    let j: int = choose|j: int|
        0 <= j < s1.len() && edge_ok(nodes, #[trigger] s1[j]) && ((nodes[s1[j].a].position == p1
            && nodes[s1[j].b].position == p2) || (nodes[s1[j].a].position == p2
            && nodes[s1[j].b].position == p1));
    assert(edge_ok(nodes, s2[j]));
    assert(s2[j].a == s1[j].a && s2[j].b == s1[j].b);
}

/// A connection between two positions survives any growth of the node map/// A connection between two positions survives any growth of the node map
/// that keeps the existing nodes.
proof fn lemma_connects_monotone(
    nodes1: Map<usize, Node>,
    nodes2: Map<usize, Node>,
    s: Seq<Edge>,
    p1: Vec2i,
    p2: Vec2i,
)
    requires
        spec_connects(nodes1, s, p1, p2),
        forall|k: usize|
            #[trigger] nodes1.contains_key(k) ==> nodes2.contains_key(k) && nodes2[k] == nodes1[k],
    ensures
        spec_connects(nodes2, s, p1, p2),
{
    let j: int = choose|j: int|
        0 <= j < s.len() && edge_ok(nodes1, #[trigger] s[j]) && ((nodes1[s[j].a].position == p1
            && nodes1[s[j].b].position == p2) || (nodes1[s[j].a].position == p2
            && nodes1[s[j].b].position == p1));
    assert(edge_ok(nodes2, s[j]));
}

/// The node identifier for a position: the one already recorded in the
/// deduplication map, or a freshly added small node.
fn node_key(node_network: &mut NodeNetwork, node_map: &mut HashMap<u64, usize>, pos: Vec2i) -> (k:
    usize)
    requires
        keys_bounded(*old(node_network)),
        old(node_network).key < usize::MAX,
        dedup_map_ok(old(node_map)@, *old(node_network)),
        -3_000_000 <= pos.x <= 3_000_000,
        -3_000_000 <= pos.y <= 3_000_000,
    ensures
        keys_bounded(*final(node_network)),
        old(node_network).key <= final(node_network).key <= old(node_network).key + 1,
        final(node_network).connections@ == old(node_network).connections@,
        forall|kk: usize|
            #[trigger] old(node_network).nodes@.contains_key(kk)
                ==> final(node_network).nodes@.contains_key(kk)
                && final(node_network).nodes@[kk] == old(node_network).nodes@[kk],
        dedup_map_ok(final(node_map)@, *final(node_network)),
        final(node_network).nodes@.contains_key(k),
        final(node_network).nodes@[k].position == pos,
{
    let key: u64 = ((pos.x + 0x8000_0000) as u64) * 0x1_0000_0000 + ((pos.y + 0x8000_0000) as u64);
    match node_map.get(&key) {
        Some(id) => {
            proof {
                let stored: Vec2i = node_network.nodes@[*id].position;
                lemma_pack_injective(stored.x as int, stored.y as int, pos.x as int, pos.y as int);
            }
            *id
        },
        None => {
            let id: usize = node_network.add_node_with_radius(pos, 2);
            node_map.insert(key, id);
            proof {
                assert forall|kk: u64| #[trigger] node_map@.contains_key(kk) implies
                    node_network.nodes@.contains_key(node_map@[kk]) && -3_000_000
                    <= node_network.nodes@[node_map@[kk]].position.x <= 3_000_000 && -3_000_000
                    <= node_network.nodes@[node_map@[kk]].position.y <= 3_000_000 && spec_pack_pos(
                    node_network.nodes@[node_map@[kk]].position.x as int,
                    node_network.nodes@[node_map@[kk]].position.y as int,
                ) == kk by {
                    if kk != key {
                        assert(old(node_map)@.contains_key(kk));
                        assert(old(node_network).nodes@.contains_key(old(node_map)@[kk]));
                    }
                }
            }
            id
        },
    }
}

} // verus!
