//! Road map segments and the routable city graph built from them.
//!
//! A map is an ordered list of segments, each an ordered polyline of points.
//! Building the graph resolves every consecutive endpoint pair to node
//! indices, merging endpoints that lie within epsilon of an existing node
//! (first match, not nearest match), and emits a reciprocal pair of directed
//! edges per endpoint pair, each with the Euclidean length between the
//! resolved node coordinates.

use vstd::prelude::*;

use crate::geometry::{
    dist_sq, euclid_distance, is_sqrt_floor, point_in_bounds, squared_distance, Point,
};

verus! {

/// Two endpoints closer than this (in milli-units: one map unit) are merged
/// into one graph node.
pub const ENDPOINT_EPSILON: i64 = 1000;

/// The squared merge threshold, for exact comparisons.
pub const ENDPOINT_EPSILON_SQ: u64 = 1_000_000;

/// One road centerline: an ordered polyline. Order defines the direction of
/// traversal for edge generation; fewer than 2 points contribute nothing.
#[derive(Debug, Clone)]
pub struct Segment {
    pub pts: Vec<Point>,
}

/// The raw road map: an ordered list of segments.
#[derive(Debug, Clone)]
pub struct CityMap {
    pub segments: Vec<Segment>,
}

/// A graph node: a planar coordinate. Identity is positional.
#[derive(Debug, Clone, Copy, PartialEq, Eq, Structural)]
pub struct GraphNode {
    pub x: i64,
    pub y: i64,
}

/// A directed edge between node indices, with its Euclidean length.
#[derive(Debug, Clone, Copy, PartialEq, Eq, Structural)]
pub struct GraphEdge {
    pub from: usize,
    pub to: usize,
    pub length: u64,
}

/// The routable graph: nodes, directed edges, and the adjacency index that
/// groups outgoing edge indices by their `from` node. Built once; read-only
/// afterwards.
#[derive(Debug, Clone)]
pub struct CityGraph {
    pub nodes: Vec<GraphNode>,
    pub edges: Vec<GraphEdge>,
    pub adjacency: Vec<Vec<usize>>,
}

pub open spec fn node_point(n: GraphNode) -> Point {
    Point { x: n.x, y: n.y }
}

pub open spec fn nodes_in_bounds(nodes: Seq<GraphNode>) -> bool {
    forall|i: int| 0 <= i < nodes.len() ==> point_in_bounds(node_point(#[trigger] nodes[i]))
}

/// Distinct nodes are always at least epsilon apart: merging never leaves a
/// duplicate behind.
pub open spec fn nodes_separated(nodes: Seq<GraphNode>) -> bool {
    forall|i: int, j: int|
        0 <= i < nodes.len() && 0 <= j < nodes.len() && i != j ==> dist_sq(
            node_point(#[trigger] nodes[i]),
            node_point(#[trigger] nodes[j]),
        ) >= ENDPOINT_EPSILON_SQ
}

/// An edge is well formed when its endpoints are node indices and its length
/// is the Euclidean distance between the resolved node coordinates.
pub open spec fn edge_ok(nodes: Seq<GraphNode>, e: GraphEdge) -> bool {
    &&& e.from < nodes.len()
    &&& e.to < nodes.len()
    &&& is_sqrt_floor(
        dist_sq(node_point(nodes[e.from as int]), node_point(nodes[e.to as int])),
        e.length as int,
    )
}

pub open spec fn edges_ok(nodes: Seq<GraphNode>, edges: Seq<GraphEdge>) -> bool {
    forall|k: int| 0 <= k < edges.len() ==> edge_ok(nodes, #[trigger] edges[k])
}

/// Every entry of the adjacency index points at an edge leaving its node.
pub open spec fn adjacency_sound(g: CityGraph) -> bool {
    &&& g.adjacency@.len() == g.nodes@.len()
    &&& forall|i: int, j: int|
        0 <= i < g.adjacency@.len() && 0 <= j < g.adjacency@[i]@.len() ==> {
            &&& #[trigger] g.adjacency@[i]@[j] < g.edges@.len()
            &&& g.edges@[g.adjacency@[i]@[j] as int].from == i
        }
}

/// Edge `k` appears in adjacency row `rows[edges[k].from]`.
pub open spec fn row_lists(rows: Seq<Vec<usize>>, edges: Seq<GraphEdge>, k: int) -> bool {
    exists|j: int|
        0 <= j < rows[edges[k].from as int]@.len() && rows[edges[k].from as int]@[j] == k
}

/// Edge `k` appears in the adjacency row of its `from` node.
pub open spec fn edge_listed(g: CityGraph, k: int) -> bool {
    row_lists(g.adjacency@, g.edges@, k)
}

/// Every edge is reachable through the adjacency index of its `from` node.
pub open spec fn adjacency_complete(g: CityGraph) -> bool {
    forall|k: int| 0 <= k < g.edges@.len() ==> #[trigger] edge_listed(g, k)
}

/// A routable graph: bounded node coordinates, edges with exact lengths, and
/// a sound, complete adjacency index.
pub open spec fn graph_wf(g: CityGraph) -> bool {
    &&& nodes_in_bounds(g.nodes@)
    &&& edges_ok(g.nodes@, g.edges@)
    &&& adjacency_sound(g)
    &&& adjacency_complete(g)
}

/// Edges come in consecutive reciprocal pairs of equal length.
pub open spec fn reciprocal_pairs(edges: Seq<GraphEdge>) -> bool {
    &&& edges.len() % 2 == 0
    &&& forall|k: int|
        0 <= k < edges.len() && k % 2 == 0 ==> {
            &&& k + 1 < edges.len()
            &&& edges[k + 1].from == (#[trigger] edges[k]).to
            &&& edges[k + 1].to == edges[k].from
            &&& edges[k + 1].length == edges[k].length
        }
}

/// Some edge is the reciprocal of edge `k`: reversed endpoints, equal length.
pub open spec fn has_reciprocal(edges: Seq<GraphEdge>, k: int) -> bool {
    exists|m: int|
        0 <= m < edges.len() && (#[trigger] edges[m]).from == edges[k].to && edges[m].to
            == edges[k].from && edges[m].length == edges[k].length
}

/// Every edge has a reciprocal edge of equal length.
pub open spec fn edges_symmetric(edges: Seq<GraphEdge>) -> bool {
    forall|k: int| 0 <= k < edges.len() ==> #[trigger] has_reciprocal(edges, k)
}

pub proof fn lemma_reciprocal_pairs_symmetric(edges: Seq<GraphEdge>)
    requires
        reciprocal_pairs(edges),
    ensures
        edges_symmetric(edges),
{
    assert forall|k: int| 0 <= k < edges.len() implies #[trigger] has_reciprocal(edges, k) by {
        let m: int = if k % 2 == 0 {
            k + 1
        } else {
            k - 1
        };
        if k % 2 != 0 {
            assert((k - 1) % 2 == 0);
            assert(edges[k].from == edges[k - 1].to && edges[k].to == edges[k - 1].from
                && edges[k].length == edges[k - 1].length);
        }
        assert(0 <= m < edges.len() && edges[m].from == edges[k].to && edges[m].to
            == edges[k].from && edges[m].length == edges[k].length);
    }
}

/// Index `i` is the first node within epsilon of `p`.
pub open spec fn first_match(nodes: Seq<GraphNode>, p: Point, i: int) -> bool {
    &&& 0 <= i < nodes.len()
    &&& dist_sq(node_point(nodes[i]), p) < ENDPOINT_EPSILON_SQ
    &&& forall|j: int|
        0 <= j < i ==> dist_sq(node_point(#[trigger] nodes[j]), p) >= ENDPOINT_EPSILON_SQ
}

pub open spec fn some_node_within(nodes: Seq<GraphNode>, p: Point) -> bool {
    exists|i: int|
        0 <= i < nodes.len() && dist_sq(node_point(#[trigger] nodes[i]), p) < ENDPOINT_EPSILON_SQ
}

/// Resolve an endpoint to a node index: the first existing node within
/// epsilon of the point, or, when there is none, a new node appended at
/// exactly the point's position. A query point within epsilon of an existing
/// node resolves to that node and never creates a duplicate.
#[verifier::loop_isolation(false)]
pub fn resolve_endpoint(nodes: &mut Vec<GraphNode>, p: Point) -> (idx: usize)
    requires
        nodes_in_bounds(old(nodes)@),
        point_in_bounds(p),
    ensures
        idx < final(nodes)@.len(),
        old(nodes)@.len() <= final(nodes)@.len(),
        final(nodes)@.take(old(nodes)@.len() as int) == old(nodes)@,
        some_node_within(old(nodes)@, p) ==> final(nodes)@ == old(nodes)@ && first_match(
            old(nodes)@,
            p,
            idx as int,
        ),
        !some_node_within(old(nodes)@, p) ==> final(nodes)@ == old(nodes)@.push(
            GraphNode { x: p.x, y: p.y },
        ) && idx == old(nodes)@.len(),
        dist_sq(node_point(final(nodes)@[idx as int]), p) < ENDPOINT_EPSILON_SQ,
        nodes_in_bounds(final(nodes)@),
        nodes_separated(old(nodes)@) ==> nodes_separated(final(nodes)@),
{
    let n: usize = nodes.len();
    let mut i: usize = 0;
    while i < n
        invariant
            i <= n,
            forall|j: int|
                0 <= j < i ==> dist_sq(node_point(#[trigger] nodes@[j]), p)
                    >= ENDPOINT_EPSILON_SQ,
        decreases n - i,
    {
        let cand = Point { x: nodes[i].x, y: nodes[i].y };
        if squared_distance(&cand, &p) < ENDPOINT_EPSILON_SQ {
            proof {
                assert(nodes@.take(nodes@.len() as int) =~= nodes@);
            }
            return i;
        }
        i += 1;
    }
    let appended = GraphNode { x: p.x, y: p.y };
    nodes.push(appended);
    proof {
        assert(!some_node_within(old(nodes)@, p));
        assert(nodes@.take(old(nodes)@.len() as int) =~= old(nodes)@);
        assert(node_point(appended) == p);
        assert(dist_sq(p, p) == 0) by (nonlinear_arith);
        if nodes_separated(old(nodes)@) {
            assert forall|a: int, b: int|
                0 <= a < nodes@.len() && 0 <= b < nodes@.len() && a != b implies dist_sq(
                node_point(#[trigger] nodes@[a]),
                node_point(#[trigger] nodes@[b]),
            ) >= ENDPOINT_EPSILON_SQ by {
                let last = nodes@.len() - 1;
                if a == last && b < last {
                    lemma_dist_sq_symmetric(node_point(nodes@[a]), node_point(nodes@[b]));
                    assert(dist_sq(node_point(nodes@[b]), p) >= ENDPOINT_EPSILON_SQ);
                } else if b == last && a < last {
                    assert(dist_sq(node_point(nodes@[a]), p) >= ENDPOINT_EPSILON_SQ);
                }
            }
        }
    }
    n
}

pub proof fn lemma_dist_sq_symmetric(a: Point, b: Point)
    by (nonlinear_arith)
    ensures
        dist_sq(a, b) == dist_sq(b, a),
{
}

/// Index `i` is a node at minimal distance from `q`, and the lowest such
/// index.
pub open spec fn is_nearest(nodes: Seq<GraphNode>, q: Point, i: int) -> bool {
    &&& 0 <= i < nodes.len()
    &&& forall|j: int|
        0 <= j < nodes.len() ==> dist_sq(node_point(nodes[i]), q) <= dist_sq(
            node_point(#[trigger] nodes[j]),
            q,
        )
    &&& forall|j: int|
        0 <= j < i ==> dist_sq(node_point(#[trigger] nodes[j]), q) > dist_sq(
            node_point(nodes[i]),
            q,
        )
}

/// The nearest node is unique: at most one index satisfies `is_nearest`.
pub proof fn lemma_is_nearest_unique(nodes: Seq<GraphNode>, q: Point, i: int, j: int)
    requires
        is_nearest(nodes, q, i),
        is_nearest(nodes, q, j),
    ensures
        i == j,
{
    if i < j {
        assert(dist_sq(node_point(nodes[i]), q) > dist_sq(node_point(nodes[j]), q));
        assert(dist_sq(node_point(nodes[j]), q) <= dist_sq(node_point(nodes[i]), q));
    }
    if j < i {
        assert(dist_sq(node_point(nodes[j]), q) > dist_sq(node_point(nodes[i]), q));
        assert(dist_sq(node_point(nodes[i]), q) <= dist_sq(node_point(nodes[j]), q));
    }
}

pub open spec fn segment_in_bounds(s: Segment) -> bool {
    forall|i: int| 0 <= i < s.pts@.len() ==> point_in_bounds(#[trigger] s.pts@[i])
}

pub open spec fn map_in_bounds(m: CityMap) -> bool {
    forall|s: int| 0 <= s < m.segments@.len() ==> segment_in_bounds(#[trigger] m.segments@[s])
}

/// The number of consecutive point pairs one segment contributes.
pub open spec fn segment_pair_count(s: Segment) -> int {
    if s.pts@.len() >= 2 {
        s.pts@.len() - 1
    } else {
        0
    }
}

/// The number of consecutive point pairs all segments contribute together.
pub open spec fn pair_count(segs: Seq<Segment>) -> int
    decreases segs.len(),
{
    if segs.len() == 0 {
        0
    } else {
        pair_count(segs.drop_last()) + segment_pair_count(segs.last())
    }
}

/// Some edge joins a node within epsilon of `a` to a node within epsilon of
/// `b`.
pub open spec fn pair_covered(
    nodes: Seq<GraphNode>,
    edges: Seq<GraphEdge>,
    a: Point,
    b: Point,
) -> bool {
    exists|k: int|
        0 <= k < edges.len() && (#[trigger] edges[k]).from < nodes.len() && edges[k].to
            < nodes.len() && dist_sq(node_point(nodes[edges[k].from as int]), a)
            < ENDPOINT_EPSILON_SQ && dist_sq(node_point(nodes[edges[k].to as int]), b)
            < ENDPOINT_EPSILON_SQ
}

/// Every consecutive point pair of every contributing segment before
/// position (`si`, `pi`) is covered by an edge.
pub open spec fn prefix_covered(
    nodes: Seq<GraphNode>,
    edges: Seq<GraphEdge>,
    segs: Seq<Segment>,
    si: int,
    pi: int,
) -> bool {
    forall|s: int, t: int|
        0 <= s < segs.len() && segs[s].pts@.len() >= 2 && 0 <= t < segs[s].pts@.len() - 1 && (s < si
            || (s == si && t < pi)) ==> pair_covered(
            nodes,
            edges,
            #[trigger] segs[s].pts@[t],
            segs[s].pts@[t + 1],
        )
}

/// Every consecutive point pair of every contributing segment is covered.
pub open spec fn map_covered(
    nodes: Seq<GraphNode>,
    edges: Seq<GraphEdge>,
    segs: Seq<Segment>,
) -> bool {
    forall|s: int, t: int|
        0 <= s < segs.len() && segs[s].pts@.len() >= 2 && 0 <= t < segs[s].pts@.len() - 1
            ==> pair_covered(nodes, edges, #[trigger] segs[s].pts@[t], segs[s].pts@[t + 1])
}

/// The node's position is one of the points of a contributing segment.
pub open spec fn node_from_map(segs: Seq<Segment>, nd: GraphNode) -> bool {
    exists|s: int, t: int|
        0 <= s < segs.len() && segs[s].pts@.len() >= 2 && 0 <= t < segs[s].pts@.len() && node_point(
            nd,
        ) == #[trigger] segs[s].pts@[t]
}

pub open spec fn nodes_from_map(nodes: Seq<GraphNode>, segs: Seq<Segment>) -> bool {
    forall|i: int| 0 <= i < nodes.len() ==> node_from_map(segs, #[trigger] nodes[i])
}

/// Extending the node list leaves earlier node values unchanged.
proof fn lemma_nodes_extend(nodes0: Seq<GraphNode>, nodes1: Seq<GraphNode>)
    requires
        nodes0.len() <= nodes1.len(),
        nodes1.take(nodes0.len() as int) == nodes0,
    ensures
        forall|i: int| 0 <= i < nodes0.len() ==> nodes1[i] == #[trigger] nodes0[i],
{
    assert forall|i: int| 0 <= i < nodes0.len() implies nodes1[i] == #[trigger] nodes0[i] by {
        assert(nodes1.take(nodes0.len() as int)[i] == nodes1[i]);
    }
}

proof fn lemma_edges_ok_extend(nodes0: Seq<GraphNode>, nodes1: Seq<GraphNode>, edges: Seq<GraphEdge>)
    requires
        edges_ok(nodes0, edges),
        nodes0.len() <= nodes1.len(),
        nodes1.take(nodes0.len() as int) == nodes0,
    ensures
        edges_ok(nodes1, edges),
{
    lemma_nodes_extend(nodes0, nodes1);
    assert forall|k: int| 0 <= k < edges.len() implies edge_ok(nodes1, #[trigger] edges[k]) by {
        assert(edge_ok(nodes0, edges[k]));
    }
}

proof fn lemma_prefix_covered_extend(
    nodes0: Seq<GraphNode>,
    nodes1: Seq<GraphNode>,
    edges0: Seq<GraphEdge>,
    edges1: Seq<GraphEdge>,
    segs: Seq<Segment>,
    si: int,
    pi: int,
)
    requires
        prefix_covered(nodes0, edges0, segs, si, pi),
        nodes0.len() <= nodes1.len(),
        nodes1.take(nodes0.len() as int) == nodes0,
        edges0.len() <= edges1.len(),
        edges1.take(edges0.len() as int) == edges0,
    ensures
        prefix_covered(nodes1, edges1, segs, si, pi),
{
    lemma_nodes_extend(nodes0, nodes1);
    assert forall|k: int| 0 <= k < edges0.len() implies edges1[k] == #[trigger] edges0[k] by {
        assert(edges1.take(edges0.len() as int)[k] == edges1[k]);
    }
    assert forall|s: int, t: int|
        0 <= s < segs.len() && segs[s].pts@.len() >= 2 && 0 <= t < segs[s].pts@.len() - 1 && (s < si
            || (s == si && t < pi)) implies pair_covered(
        nodes1,
        edges1,
        #[trigger] segs[s].pts@[t],
        segs[s].pts@[t + 1],
    ) by {
        let a = segs[s].pts@[t];
        let b = segs[s].pts@[t + 1];
        assert(pair_covered(nodes0, edges0, a, b));
        let k = choose|k: int|
            0 <= k < edges0.len() && (#[trigger] edges0[k]).from < nodes0.len() && edges0[k].to
                < nodes0.len() && dist_sq(node_point(nodes0[edges0[k].from as int]), a)
                < ENDPOINT_EPSILON_SQ && dist_sq(node_point(nodes0[edges0[k].to as int]), b)
                < ENDPOINT_EPSILON_SQ;
        assert(edges1[k] == edges0[k]);
        assert(nodes1[edges0[k].from as int] == nodes0[edges0[k].from as int]);
        assert(nodes1[edges0[k].to as int] == nodes0[edges0[k].to as int]);
        assert(0 <= k < edges1.len() && edges1[k].from < nodes1.len() && edges1[k].to
            < nodes1.len() && dist_sq(node_point(nodes1[edges1[k].from as int]), a)
            < ENDPOINT_EPSILON_SQ && dist_sq(node_point(nodes1[edges1[k].to as int]), b)
            < ENDPOINT_EPSILON_SQ);
    }
}


/// Resolve both endpoints of one consecutive point pair and append the
/// reciprocal pair of directed edges for it, each with the Euclidean length
/// between the resolved node coordinates.
#[verifier::loop_isolation(false)]
fn add_edge_pair(nodes: &mut Vec<GraphNode>, edges: &mut Vec<GraphEdge>, p0: Point, p1: Point)
    requires
        nodes_in_bounds(old(nodes)@),
        nodes_separated(old(nodes)@),
        edges_ok(old(nodes)@, old(edges)@),
        reciprocal_pairs(old(edges)@),
        point_in_bounds(p0),
        point_in_bounds(p1),
    ensures
        old(nodes)@.len() <= final(nodes)@.len(),
        final(nodes)@.take(old(nodes)@.len() as int) == old(nodes)@,
        forall|i: int|
            old(nodes)@.len() <= i < final(nodes)@.len() ==> node_point(#[trigger] final(nodes)@[i])
                == p0 || node_point(final(nodes)@[i]) == p1,
        nodes_in_bounds(final(nodes)@),
        nodes_separated(final(nodes)@),
        final(edges)@.len() == old(edges)@.len() + 2,
        final(edges)@.take(old(edges)@.len() as int) == old(edges)@,
        edges_ok(final(nodes)@, final(edges)@),
        reciprocal_pairs(final(edges)@),
        pair_covered(final(nodes)@, final(edges)@, p0, p1),
{
    let ghost nodes_a = nodes@;
    let from: usize = resolve_endpoint(nodes, p0);
    let ghost nodes_b = nodes@;
    let to: usize = resolve_endpoint(nodes, p1);
    proof {
        assert(nodes@.take(nodes_a.len() as int) =~= nodes_a);
        lemma_nodes_extend(nodes_a, nodes@);
        lemma_nodes_extend(nodes_b, nodes@);
        lemma_edges_ok_extend(nodes_a, nodes@, edges@);
        assert forall|i: int|
            nodes_a.len() <= i < nodes@.len() implies node_point(#[trigger] nodes@[i]) == p0
                || node_point(nodes@[i]) == p1 by {
            if i < nodes_b.len() {
                assert(nodes_b == nodes_a.push(GraphNode { x: p0.x, y: p0.y }));
                assert(nodes@[i] == nodes_b[i]);
                assert(node_point(nodes_b[i]) == p0);
            } else {
                assert(nodes@ == nodes_b.push(GraphNode { x: p1.x, y: p1.y }));
                assert(node_point(nodes@[i]) == p1);
            }
        }
    }
    let a = nodes[from];
    let b = nodes[to];
    let pa = Point { x: a.x, y: a.y };
    let pb = Point { x: b.x, y: b.y };
    let length: u64 = euclid_distance(&pa, &pb);
    let ghost edges_b = edges@;
    edges.push(GraphEdge { from: from, to: to, length: length });
    edges.push(GraphEdge { from: to, to: from, length: length });
    proof {
        lemma_dist_sq_symmetric(pa, pb);
        assert(edges@.take(edges_b.len() as int) =~= edges_b);
        assert forall|k: int| 0 <= k < edges_b.len() implies edges@[k] == #[trigger] edges_b[k] by {
            assert(edges@.take(edges_b.len() as int)[k] == edges@[k]);
        }
        let kx = edges@.len() - 2;
        assert(edges@[kx].from == from && edges@[kx].to == to);
        assert(dist_sq(node_point(nodes@[from as int]), p0) < ENDPOINT_EPSILON_SQ);
        assert(dist_sq(node_point(nodes@[to as int]), p1) < ENDPOINT_EPSILON_SQ);
        assert(pair_covered(nodes@, edges@, p0, p1));
        assert(node_point(nodes@[from as int]) == pa);
        assert(node_point(nodes@[to as int]) == pb);
        assert forall|k: int| 0 <= k < edges@.len() implies edge_ok(nodes@, #[trigger] edges@[k]) by {
            if k < edges_b.len() {
                assert(edge_ok(nodes@, edges_b[k]));
            }
        }
        assert forall|k: int|
            0 <= k < edges@.len() && k % 2 == 0 implies {
                &&& k + 1 < edges@.len()
                &&& edges@[k + 1].from == (#[trigger] edges@[k]).to
                &&& edges@[k + 1].to == edges@[k].from
                &&& edges@[k + 1].length == edges@[k].length
            } by {
            if k < edges_b.len() {
                assert(k + 1 < edges_b.len());
                assert(edges@[k] == edges_b[k] && edges@[k + 1] == edges_b[k + 1]);
            }
        }
    }
}

/// The pair at (`si`, `pi`) once covered extends the covered prefix by one.
proof fn lemma_prefix_covered_step(
    nodes: Seq<GraphNode>,
    edges: Seq<GraphEdge>,
    segs: Seq<Segment>,
    si: int,
    pi: int,
)
    requires
        prefix_covered(nodes, edges, segs, si, pi),
        0 <= si < segs.len(),
        segs[si].pts@.len() >= 2,
        0 <= pi < segs[si].pts@.len() - 1,
        pair_covered(nodes, edges, segs[si].pts@[pi], segs[si].pts@[pi + 1]),
    ensures
        prefix_covered(nodes, edges, segs, si, pi + 1),
{
    assert forall|s: int, t: int|
        0 <= s < segs.len() && segs[s].pts@.len() >= 2 && 0 <= t < segs[s].pts@.len() - 1 && (s < si
            || (s == si && t < pi + 1)) implies pair_covered(
        nodes,
        edges,
        #[trigger] segs[s].pts@[t],
        segs[s].pts@[t + 1],
    ) by {
        if !(s == si && t == pi) {
            assert(pair_covered(nodes, edges, segs[s].pts@[t], segs[s].pts@[t + 1]));
        }
    }
}

/// A fully covered segment advances the covered prefix to the next segment.
proof fn lemma_prefix_covered_segment_done(
    nodes: Seq<GraphNode>,
    edges: Seq<GraphEdge>,
    segs: Seq<Segment>,
    si: int,
)
    requires
        0 <= si < segs.len(),
        prefix_covered(nodes, edges, segs, si, segment_pair_count(segs[si])),
    ensures
        prefix_covered(nodes, edges, segs, si + 1, 0),
{
    assert forall|s: int, t: int|
        0 <= s < segs.len() && segs[s].pts@.len() >= 2 && 0 <= t < segs[s].pts@.len() - 1 && (s < si
            + 1 || (s == si + 1 && t < 0)) implies pair_covered(
        nodes,
        edges,
        #[trigger] segs[s].pts@[t],
        segs[s].pts@[t + 1],
    ) by {
        assert(pair_covered(nodes, edges, segs[s].pts@[t], segs[s].pts@[t + 1]));
    }
}

/// Group the indices of all edges by their `from` node, in increasing order.
#[verifier::loop_isolation(false)]
fn build_adjacency(node_total: usize, edges: &Vec<GraphEdge>) -> (adjacency: Vec<Vec<usize>>)
    requires
        forall|k: int| 0 <= k < edges@.len() ==> (#[trigger] edges@[k]).from < node_total,
    ensures
        adjacency@.len() == node_total,
        forall|a: int, j: int|
            0 <= a < node_total && 0 <= j < adjacency@[a]@.len() ==> {
                &&& #[trigger] adjacency@[a]@[j] < edges@.len()
                &&& edges@[adjacency@[a]@[j] as int].from == a
            },
        forall|k: int| 0 <= k < edges@.len() ==> #[trigger] row_lists(adjacency@, edges@, k),
{
    let edge_total: usize = edges.len();
    let mut adjacency: Vec<Vec<usize>> = Vec::new();
    let mut i: usize = 0;
    while i < node_total
        invariant
            i <= node_total,
            adjacency@.len() == i,
            forall|a: int, j: int|
                0 <= a < i && 0 <= j < adjacency@[a]@.len() ==> {
                    &&& #[trigger] adjacency@[a]@[j] < edges@.len()
                    &&& edges@[adjacency@[a]@[j] as int].from == a
                },
            forall|k: int|
                0 <= k < edges@.len() && (#[trigger] edges@[k]).from < i ==> row_lists(
                    adjacency@,
                    edges@,
                    k,
                ),
        decreases node_total - i,
    {
        let mut row: Vec<usize> = Vec::new();
        let mut k: usize = 0;
        while k < edge_total
            invariant
                k <= edge_total,
                forall|j: int|
                    0 <= j < row@.len() ==> #[trigger] row@[j] < k && edges@[row@[j] as int].from
                        == i,
                forall|k2: int|
                    0 <= k2 < k && (#[trigger] edges@[k2]).from == i ==> exists|j: int|
                        0 <= j < row@.len() && row@[j] == k2,
            decreases edge_total - k,
        {
            if edges[k].from == i {
                let ghost row_a = row@;
                row.push(k);
                proof {
                    assert forall|k2: int|
                        0 <= k2 < k + 1 && (#[trigger] edges@[k2]).from == i implies exists|j: int|
                        0 <= j < row@.len() && row@[j] == k2 by {
                        if k2 == k as int {
                            assert(row@[row@.len() - 1] == k2);
                        } else {
                            let j = choose|j: int| 0 <= j < row_a.len() && row_a[j] == k2;
                            assert(row@[j] == k2);
                        }
                    }
                }
            }
            k += 1;
        }
        let ghost adj_a = adjacency@;
        adjacency.push(row);
        proof {
            assert(adjacency@[i as int]@ == row@);
            assert forall|k2: int|
                0 <= k2 < edges@.len() && (#[trigger] edges@[k2]).from < i + 1 implies row_lists(
                adjacency@,
                edges@,
                k2,
            ) by {
                let f = edges@[k2].from as int;
                if f == i as int {
                    let j = choose|j: int| 0 <= j < row@.len() && row@[j] == k2;
                    assert(adjacency@[f]@[j] == k2);
                } else {
                    assert(row_lists(adj_a, edges@, k2));
                    assert(adjacency@[f] == adj_a[f]);
                    let j = choose|j: int| 0 <= j < adj_a[f]@.len() && adj_a[f]@[j] == k2;
                    assert(adjacency@[f]@[j] == k2);
                }
            }
        }
        i += 1;
    }
    proof {
        assert forall|k: int|
            0 <= k < edges@.len() implies #[trigger] row_lists(adjacency@, edges@, k) by {
            assert(edges@[k].from < node_total);
        }
    }
    adjacency
}

impl CityMap {
    /// The total number of segments in the map.
    pub fn segment_count(&self) -> (n: usize)
        ensures
            n == self.segments@.len(),
    {
        self.segments.len()
    }

    /// Build the routable graph: resolve every consecutive endpoint pair of
    /// every segment with at least two points, merging endpoints within
    /// epsilon of an existing node, and emit a reciprocal pair of directed
    /// edges per endpoint pair, each with the Euclidean length between the
    /// resolved node coordinates. The adjacency index groups the outgoing
    /// edge indices of each node, in increasing order.
    #[verifier::loop_isolation(false)]
    #[verifier::rlimit(60)]
    pub fn build_graph(&self) -> (g: CityGraph)
        requires
            map_in_bounds(*self),
        ensures
            graph_wf(g),
            reciprocal_pairs(g.edges@),
            edges_symmetric(g.edges@),
            nodes_separated(g.nodes@),
            nodes_from_map(g.nodes@, self.segments@),
            map_covered(g.nodes@, g.edges@, self.segments@),
            g.edges@.len() == 2 * pair_count(self.segments@),
    {
        let mut nodes: Vec<GraphNode> = Vec::new();
        let mut edges: Vec<GraphEdge> = Vec::new();
        let seg_total: usize = self.segments.len();
        let mut si: usize = 0;
        while si < seg_total
            invariant
                si <= seg_total,
                nodes_in_bounds(nodes@),
                nodes_separated(nodes@),
                nodes_from_map(nodes@, self.segments@),
                edges_ok(nodes@, edges@),
                reciprocal_pairs(edges@),
                edges@.len() == 2 * pair_count(self.segments@.take(si as int)),
                prefix_covered(nodes@, edges@, self.segments@, si as int, 0),
            decreases seg_total - si,
        {
            let seg = &self.segments[si];
            let pts_len: usize = seg.pts.len();
            if pts_len >= 2 {
                let mut pi: usize = 0;
                while pi + 1 < pts_len
                    invariant
                        pi + 1 <= pts_len,
                        nodes_in_bounds(nodes@),
                        nodes_separated(nodes@),
                        nodes_from_map(nodes@, self.segments@),
                        edges_ok(nodes@, edges@),
                        reciprocal_pairs(edges@),
                        edges@.len() == 2 * pair_count(self.segments@.take(si as int)) + 2 * pi,
                        prefix_covered(nodes@, edges@, self.segments@, si as int, pi as int),
                    decreases pts_len - pi,
                {
                    let p0: Point = seg.pts[pi];
                    let p1: Point = seg.pts[pi + 1];
                    let ghost nodes_a = nodes@;
                    let ghost edges_a = edges@;
                    add_edge_pair(&mut nodes, &mut edges, p0, p1);
                    proof {
                        lemma_nodes_extend(nodes_a, nodes@);
                        lemma_prefix_covered_extend(
                            nodes_a,
                            nodes@,
                            edges_a,
                            edges@,
                            self.segments@,
                            si as int,
                            pi as int,
                        );
                        assert forall|i: int|
                            0 <= i < nodes@.len() implies node_from_map(
                            self.segments@,
                            #[trigger] nodes@[i],
                        ) by {
                            if i < nodes_a.len() {
                                assert(nodes@[i] == nodes_a[i]);
                                assert(node_from_map(self.segments@, nodes_a[i]));
                            } else {
                                assert(self.segments@[si as int].pts@[pi as int] == p0);
                                assert(self.segments@[si as int].pts@[pi as int + 1] == p1);
                                assert(node_point(nodes@[i]) == p0 || node_point(nodes@[i]) == p1);
                            }
                        }
                        lemma_prefix_covered_step(
                            nodes@,
                            edges@,
                            self.segments@,
                            si as int,
                            pi as int,
                        );
                    }
                    pi += 1;
                }
                proof {
                    lemma_segment_step(self.segments@, si as int);
                    lemma_prefix_covered_segment_done(nodes@, edges@, self.segments@, si as int);
                }
            } else {
                proof {
                    lemma_segment_step(self.segments@, si as int);
                    lemma_prefix_covered_segment_done(nodes@, edges@, self.segments@, si as int);
                }
            }
            si += 1;
        }
        let node_total: usize = nodes.len();
        proof {
            assert(self.segments@.take(seg_total as int) =~= self.segments@);
            assert forall|k: int|
                0 <= k < edges@.len() implies (#[trigger] edges@[k]).from < node_total by {
                assert(edge_ok(nodes@, edges@[k]));
            }
        }
        let adjacency = build_adjacency(node_total, &edges);
        let g = CityGraph { nodes: nodes, edges: edges, adjacency: adjacency };
        proof {
            lemma_reciprocal_pairs_symmetric(g.edges@);
            assert(adjacency_sound(g));
            assert forall|k: int| 0 <= k < g.edges@.len() implies #[trigger] edge_listed(g, k) by {
                assert(row_lists(g.adjacency@, g.edges@, k));
            }
            assert(graph_wf(g));
            assert forall|s: int, t: int|
                0 <= s < self.segments@.len() && self.segments@[s].pts@.len() >= 2 && 0 <= t
                    < self.segments@[s].pts@.len() - 1 implies pair_covered(
                g.nodes@,
                g.edges@,
                #[trigger] self.segments@[s].pts@[t],
                self.segments@[s].pts@[t + 1],
            ) by {
                assert(pair_covered(
                    g.nodes@,
                    g.edges@,
                    self.segments@[s].pts@[t],
                    self.segments@[s].pts@[t + 1],
                ));
            }
        }
        g
    }
}

/// Taking one more segment adds that segment's pair count.
proof fn lemma_segment_step(segs: Seq<Segment>, si: int)
    requires
        0 <= si < segs.len(),
    ensures
        pair_count(segs.take(si + 1)) == pair_count(segs.take(si)) + segment_pair_count(segs[si]),
{
    assert(segs.take(si + 1).drop_last() =~= segs.take(si));
    assert(segs.take(si + 1).last() == segs[si]);
}

impl CityGraph {
    /// The index of the node nearest to the query point, by Euclidean
    /// distance; ties resolve to the lowest index. An empty graph yields 0.
    #[verifier::loop_isolation(false)]
    pub fn nearest_node(&self, x: i64, y: i64) -> (r: usize)
        requires
            nodes_in_bounds(self.nodes@),
            point_in_bounds(Point { x: x, y: y }),
        ensures
            self.nodes@.len() == 0 ==> r == 0,
            self.nodes@.len() > 0 ==> is_nearest(self.nodes@, Point { x: x, y: y }, r as int),
    {
        let q = Point { x: x, y: y };
        if self.nodes.len() == 0 {
            return 0;
        }
        let first = Point { x: self.nodes[0].x, y: self.nodes[0].y };
        let mut best: usize = 0;
        let mut best_d: u64 = squared_distance(&first, &q);
        let mut i: usize = 1;
        while i < self.nodes.len()
            invariant
                1 <= i <= self.nodes@.len(),
                best < i,
                best_d == dist_sq(node_point(self.nodes@[best as int]), q),
                forall|j: int|
                    0 <= j < i ==> best_d <= dist_sq(node_point(#[trigger] self.nodes@[j]), q),
                forall|j: int|
                    0 <= j < best ==> dist_sq(node_point(#[trigger] self.nodes@[j]), q) > best_d,
            decreases self.nodes@.len() - i,
        {
            let cand = Point { x: self.nodes[i].x, y: self.nodes[i].y };
            let d: u64 = squared_distance(&cand, &q);
            if d < best_d {
                best = i;
                best_d = d;
            }
            i += 1;
        }
        best
    }
}

} // verus!
